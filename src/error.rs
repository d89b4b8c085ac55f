use vstd::prelude::*;

verus! {

/// The ways encoding or decoding a DNS message can fail.
#[derive(Debug, Clone, Copy, PartialEq, Eq, Structural)]
pub enum DnsError {
    /// The buffer is shorter than a field or structure requires.
    TruncatedMessage,
    /// A name segment is longer than 63 octets.
    LabelTooLong,
    /// A length octet starts with the reserved bit patterns `01` or `10`.
    MalformedLabel,
    /// A compression pointer does not point strictly before the run it ends.
    CompressionLoop,
    /// The record's type or payload shape is not an IPv4 address.
    UnsupportedRecordType,
}

} // verus!
