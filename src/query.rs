use vstd::prelude::*;
use vstd::string::StringSliceAdditionalSpecFns;

use crate::error::DnsError;
use crate::header::{header_bytes, DnsHeader};
use crate::name::{labels_fit, labels_of};
use crate::question::{question_bytes, DnsQuestion, QuestionView, CLASS_IN, TYPE_A};

verus! {

/// The header flag asking the resolver to recurse.
pub const RECURSION_DESIRED: u16 = 0x0100;

/// The header of a query with transaction id `id`: recursion desired, one
/// question and no other section.
pub open spec fn query_header(id: u16) -> DnsHeader {
    DnsHeader {
        id,
        flags: RECURSION_DESIRED,
        num_questions: 1,
        num_answers: 0,
        num_authorities: 0,
        num_additionals: 0,
    }
}

/// The wire form of an address query for the labels of `name`.
pub open spec fn query_bytes(name: Seq<u8>, id: u16) -> Seq<u8> {
    header_bytes(query_header(id)) + question_bytes(
        QuestionView { name: labels_of(name), type_: TYPE_A, class_: CLASS_IN },
    )
}

/// Builds the wire form of a recursive address query for `domain_name`
/// with transaction id `id`; fails with `LabelTooLong` when a segment of
/// the name exceeds 63 octets.
pub fn build_query(domain_name: &str, id: u16) -> (r: Result<Vec<u8>, DnsError>)
    ensures
        r is Ok <==> labels_fit(labels_of(domain_name.spec_bytes())),
        r matches Ok(v) ==> v@ == query_bytes(domain_name.spec_bytes(), id),
        r matches Err(e) ==> e == DnsError::LabelTooLong,
{
    let question = match DnsQuestion::new(domain_name) {
        Ok(q) => q,
        Err(e) => {
            return Err(e);
        },
    };
    let header = DnsHeader {
        id,
        flags: RECURSION_DESIRED,
        num_questions: 1,
        num_answers: 0,
        num_authorities: 0,
        num_additionals: 0,
    };
    let mut query = header.as_bytes();
    let mut tail = question.as_bytes();
    query.append(&mut tail);
    Ok(query)
}

} // verus!
