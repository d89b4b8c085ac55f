use vstd::prelude::*;

use crate::error::DnsError;
use crate::header::{header_from, DnsHeader, HEADER_LEN};
use crate::name::{lemma_decoded_labels_valid, lemma_name_prefix, name_from};
use crate::question::{question_at, DnsQuestion, QuestionView};
use crate::record::{record_at, DnsRecord, RecordView};

verus! {

/// The parts of a response that this codec decodes: the header, the first
/// question and the first answer record.
#[derive(Debug, Clone)]
pub struct DnsResponse {
    pub header: DnsHeader,
    pub question: DnsQuestion,
    pub record: DnsRecord,
}

/// The mathematical value of a response.
pub struct ResponseView {
    pub header: DnsHeader,
    pub question: QuestionView,
    pub record: RecordView,
}

impl View for DnsResponse {
    type V = ResponseView;

    open spec fn view(&self) -> ResponseView {
        ResponseView { header: self.header, question: self.question@, record: self.record@ }
    }
}

/// The response decoded from `buf`: the header at offset 0, the question at
/// offset 12 and the record just after the question; with the offset just
/// past the record.
pub open spec fn response_at(buf: Seq<u8>) -> Result<(ResponseView, int), DnsError> {
    match header_from(buf) {
        Err(e) => Err(e),
        Ok(header) => match question_at(buf, 12) {
            Err(e) => Err(e),
            Ok((question, q_end)) => match record_at(buf, q_end) {
                Err(e) => Err(e),
                Ok((record, end)) => Ok(
                    (ResponseView { header, question, record }, end),
                ),
            },
        },
    }
}

/// Decodes the header, the first question and the first answer record of
/// the response `buf`; fails with the first error a part meets.
pub fn parse_response(buf: &[u8]) -> (r: Result<DnsResponse, DnsError>)
    ensures
        match response_at(buf@) {
            Ok((v, _)) => r matches Ok(resp) && resp@ == v && resp.question.wf() && resp.record.wf(),
            Err(e) => r == Err::<DnsResponse, DnsError>(e),
        },
{
    let header = match DnsHeader::parse(buf) {
        Ok(h) => h,
        Err(e) => {
            return Err(e);
        },
    };
    let (question, q_end) = match DnsQuestion::parse(buf, HEADER_LEN) {
        Ok(v) => v,
        Err(e) => {
            return Err(e);
        },
    };
    let (record, _end) = match DnsRecord::parse(buf, q_end) {
        Ok(v) => v,
        Err(e) => {
            return Err(e);
        },
    };
    Ok(DnsResponse { header, question, record })
}

proof fn lemma_question_prefix(buf: Seq<u8>, k: int, pos: int)
    requires
        0 <= k <= buf.len(),
    ensures
        question_at(buf.take(k), pos) == question_at(buf, pos) || question_at(buf.take(k), pos)
            == Err::<(QuestionView, int), DnsError>(DnsError::TruncatedMessage),
{
    lemma_name_prefix(buf, k, pos, pos);
    let b = buf.take(k);
    lemma_decoded_labels_valid(b, pos, pos);
    if let Ok((ls, e)) = name_from(b, pos) {
        if e + 4 <= k {
            assert(b[e] == buf[e] && b[e + 1] == buf[e + 1]);
            assert(b[e + 2] == buf[e + 2] && b[e + 3] == buf[e + 3]);
        }
    }
}

proof fn lemma_record_prefix(buf: Seq<u8>, k: int, pos: int)
    requires
        0 <= k <= buf.len(),
    ensures
        record_at(buf.take(k), pos) == record_at(buf, pos) || record_at(buf.take(k), pos)
            == Err::<(RecordView, int), DnsError>(DnsError::TruncatedMessage),
{
    lemma_name_prefix(buf, k, pos, pos);
    let b = buf.take(k);
    lemma_decoded_labels_valid(b, pos, pos);
    if let Ok((ls, e)) = name_from(b, pos) {
        if e + 10 <= k {
            assert(b[e] == buf[e] && b[e + 1] == buf[e + 1]);
            assert(b[e + 2] == buf[e + 2] && b[e + 3] == buf[e + 3]);
            assert(b[e + 4] == buf[e + 4] && b[e + 5] == buf[e + 5]);
            assert(b[e + 6] == buf[e + 6] && b[e + 7] == buf[e + 7]);
            assert(b[e + 8] == buf[e + 8] && b[e + 9] == buf[e + 9]);
            if e + 14 <= k {
                assert(b.subrange(e + 10, e + 14) =~= buf.subrange(e + 10, e + 14));
            }
        }
    }
}

/// A response cut short decodes as the whole one does, or fails with
/// `TruncatedMessage`; cut anywhere before the end of its record, a
/// response that decodes fails with `TruncatedMessage`.
pub proof fn lemma_truncated_response(buf: Seq<u8>, k: int)
    requires
        0 <= k <= buf.len(),
    ensures
        response_at(buf.take(k)) == response_at(buf) || response_at(buf.take(k)) == Err::<
            (ResponseView, int),
            DnsError,
        >(DnsError::TruncatedMessage),
        response_at(buf) matches Ok((_, n)) && k < n ==> response_at(buf.take(k)) == Err::<
            (ResponseView, int),
            DnsError,
        >(DnsError::TruncatedMessage),
{
    let b = buf.take(k);
    if k >= 12 {
        assert forall|i: int| 0 <= i < 12 implies b[i] == buf[i] by {}
        assert(header_from(b) == header_from(buf));
        lemma_question_prefix(buf, k, 12);
        if let Ok((q, q_end)) = question_at(b, 12) {
            lemma_record_prefix(buf, k, q_end);
        }
    }
}

} // verus!
