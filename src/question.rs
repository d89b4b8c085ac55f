use vstd::prelude::*;
use vstd::string::StringSliceAdditionalSpecFns;

use crate::error::DnsError;
use crate::header::{be16, push_be16, read_be16, u16_at};
use crate::name::{
    decode_name, labels_fit, labels_of, labels_view, lemma_decoded_labels_valid,
    lemma_labels_nonempty, name_from, split_labels, labels_within_limit, valid_labels, wire_of,
    write_name,
};

verus! {

/// The record type of an IPv4 host address.
pub const TYPE_A: u16 = 1;

/// The Internet class.
pub const CLASS_IN: u16 = 1;

/// A question: which name, and which type and class of record, is asked for.
#[derive(Debug, Clone)]
pub struct DnsQuestion {
    pub name: Vec<Vec<u8>>,
    pub type_: u16,
    pub class_: u16,
}

/// The mathematical value of a question.
pub struct QuestionView {
    pub name: Seq<Seq<u8>>,
    pub type_: u16,
    pub class_: u16,
}

impl View for DnsQuestion {
    type V = QuestionView;

    open spec fn view(&self) -> QuestionView {
        QuestionView { name: labels_view(self.name@), type_: self.type_, class_: self.class_ }
    }
}

/// The wire form of a question: its name uncompressed, then type and class
/// big-endian.
pub open spec fn question_bytes(q: QuestionView) -> Seq<u8> {
    wire_of(q.name) + be16(q.type_) + be16(q.class_)
}

/// The question decoded at `pos` in `buf`, with the offset just past it.
pub open spec fn question_at(buf: Seq<u8>, pos: int) -> Result<(QuestionView, int), DnsError> {
    match name_from(buf, pos) {
        Ok((ls, e)) => if e + 4 > buf.len() {
            Err(DnsError::TruncatedMessage)
        } else {
            Ok((QuestionView { name: ls, type_: u16_at(buf, e), class_: u16_at(buf, e + 2) }, e + 4))
        },
        Err(err) => Err(err),
    }
}

/// The mathematical value of a decoded question with its end offset.
pub open spec fn question_result_view(r: Result<(DnsQuestion, usize), DnsError>) -> Result<
    (QuestionView, int),
    DnsError,
> {
    match r {
        Ok((q, e)) => Ok((q@, e as int)),
        Err(err) => Err(err),
    }
}

impl DnsQuestion {
    /// The question's labels are each 1 to 63 octets long.
    pub open spec fn wf(&self) -> bool {
        valid_labels(self@.name)
    }

    /// An address (type A, class IN) question for a dotted name; fails with
    /// `LabelTooLong` when a segment exceeds 63 octets.
    pub fn new(name: &str) -> (r: Result<DnsQuestion, DnsError>)
        ensures
            r is Ok <==> labels_fit(labels_of(name.spec_bytes())),
            r matches Ok(q) ==> q.wf() && q@ == (QuestionView {
                name: labels_of(name.spec_bytes()),
                type_: TYPE_A,
                class_: CLASS_IN,
            }),
            r matches Err(e) ==> e == DnsError::LabelTooLong,
    {
        let labels = split_labels(name);
        if !labels_within_limit(&labels) {
            return Err(DnsError::LabelTooLong);
        }
        proof {
            lemma_labels_nonempty(name.spec_bytes());
        }
        Ok(DnsQuestion { name: labels, type_: TYPE_A, class_: CLASS_IN })
    }

    /// Encodes the question: its name uncompressed, then type and class.
    pub fn as_bytes(&self) -> (r: Vec<u8>)
        requires
            self.wf(),
        ensures
            r@ == question_bytes(self@),
    {
        let mut bytes: Vec<u8> = Vec::new();
        assert(labels_fit(self@.name)) by {
            assert forall|i: int| 0 <= i < self@.name.len() implies #[trigger] self@.name[i].len()
                <= 63 by {
                assert(1 <= self@.name[i].len() <= 63);
            }
        }
        write_name(&mut bytes, &self.name);
        push_be16(&mut bytes, self.type_);
        push_be16(&mut bytes, self.class_);
        assert(bytes@ =~= question_bytes(self@));
        bytes
    }

    /// Decodes the question at `offset` in the message `data`, giving it and
    /// the offset just past it.
    pub fn parse(data: &[u8], offset: usize) -> (r: Result<(DnsQuestion, usize), DnsError>)
        ensures
            question_result_view(r) == question_at(data@, offset as int),
            r matches Ok((q, _)) ==> q.wf(),
    {
        proof {
            lemma_decoded_labels_valid(data@, offset as int, offset as int);
        }
        let (name, end) = match decode_name(data, offset) {
            Ok(v) => v,
            Err(e) => {
                return Err(e);
            },
        };
        if data.len() - end < 4 {
            return Err(DnsError::TruncatedMessage);
        }
        let type_ = read_be16(data, end);
        let class_ = read_be16(data, end + 2);
        Ok((DnsQuestion { name, type_, class_ }, end + 4))
    }
}

} // verus!
