//! A DNS message codec: builds outbound address queries and decodes the
//! header, question and first answer record of a response, following
//! compression pointers with guaranteed termination.

pub mod error;
pub mod header;
pub mod name;
pub mod question;
pub mod query;
pub mod record;
pub mod response;

pub use error::DnsError;
pub use header::DnsHeader;
pub use name::{decode_name, encode_name, split_labels};
pub use question::{DnsQuestion, CLASS_IN, TYPE_A};
pub use record::DnsRecord;
pub use query::{build_query, RECURSION_DESIRED};
pub use response::{parse_response, DnsResponse};
