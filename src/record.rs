use vstd::prelude::*;

use crate::error::DnsError;
use crate::header::{read_be16, u16_at};
use crate::name::{decode_name, labels_view, lemma_decoded_labels_valid, name_from, valid_labels};
use crate::question::TYPE_A;

verus! {

/// Octets of type, class, ttl and data length after a record's name.
pub const RECORD_FIXED_LEN: usize = 10;

/// Length of an IPv4 address payload.
pub const IPV4_LEN: u16 = 4;

/// The 32-bit big-endian value stored at `i` through `i + 3`.
pub open spec fn u32_at(buf: Seq<u8>, i: int) -> u32 {
    (buf[i] as int * 0x1000000 + buf[i + 1] as int * 0x10000 + buf[i + 2] as int * 0x100
        + buf[i + 3] as int) as u32
}

/// A resource record whose payload is an IPv4 address.
#[derive(Debug, Clone)]
pub struct DnsRecord {
    pub name: Vec<Vec<u8>>,
    pub type_: u16,
    pub class_: u16,
    pub ttl: u32,
    pub data_length: u16,
    pub data: [u8; 4],
}

/// The mathematical value of a record.
pub struct RecordView {
    pub name: Seq<Seq<u8>>,
    pub type_: u16,
    pub class_: u16,
    pub ttl: u32,
    pub data_length: u16,
    pub data: Seq<u8>,
}

impl View for DnsRecord {
    type V = RecordView;

    open spec fn view(&self) -> RecordView {
        RecordView {
            name: labels_view(self.name@),
            type_: self.type_,
            class_: self.class_,
            ttl: self.ttl,
            data_length: self.data_length,
            data: self.data@,
        }
    }
}

/// The record decoded at `pos` in `buf`, with the offset just past its
/// payload.
pub open spec fn record_at(buf: Seq<u8>, pos: int) -> Result<(RecordView, int), DnsError> {
    match name_from(buf, pos) {
        Ok((ls, e)) => if e + 10 > buf.len() {
            Err(DnsError::TruncatedMessage)
        } else {
            let data_length = u16_at(buf, e + 8);
            if e + 10 + data_length > buf.len() {
                Err(DnsError::TruncatedMessage)
            } else if u16_at(buf, e) != TYPE_A || data_length != IPV4_LEN {
                Err(DnsError::UnsupportedRecordType)
            } else {
                Ok(
                    (
                        RecordView {
                            name: ls,
                            type_: TYPE_A,
                            class_: u16_at(buf, e + 2),
                            ttl: u32_at(buf, e + 4),
                            data_length: IPV4_LEN,
                            data: buf.subrange(e + 10, e + 14),
                        },
                        e + 14,
                    ),
                )
            }
        },
        Err(err) => Err(err),
    }
}

/// The mathematical value of a decoded record with its end offset.
pub open spec fn record_result_view(r: Result<(DnsRecord, usize), DnsError>) -> Result<
    (RecordView, int),
    DnsError,
> {
    match r {
        Ok((rec, e)) => Ok((rec@, e as int)),
        Err(err) => Err(err),
    }
}

/// Reads the big-endian 32-bit value at `i`.
pub fn read_be32(buf: &[u8], i: usize) -> (r: u32)
    requires
        i + 4 <= buf@.len(),
    ensures
        r == u32_at(buf@, i as int),
{
    (buf[i] as u32) * 0x1000000 + (buf[i + 1] as u32) * 0x10000 + (buf[i + 2] as u32) * 0x100
        + (buf[i + 3] as u32)
}

impl DnsRecord {
    /// The record's labels are each 1 to 63 octets long.
    pub open spec fn wf(&self) -> bool {
        valid_labels(self@.name)
    }

    /// Decodes the record at `idx` in the message `data` (its name may be a
    /// compression pointer), giving it and the offset just past its
    /// payload. The payload must be an IPv4 address: type A, four octets.
    pub fn parse(data: &[u8], idx: usize) -> (r: Result<(DnsRecord, usize), DnsError>)
        ensures
            record_result_view(r) == record_at(data@, idx as int),
            r matches Ok((rec, _)) ==> rec.wf(),
    {
        proof {
            lemma_decoded_labels_valid(data@, idx as int, idx as int);
        }
        let (name, end) = match decode_name(data, idx) {
            Ok(v) => v,
            Err(e) => {
                return Err(e);
            },
        };
        if data.len() - end < RECORD_FIXED_LEN {
            return Err(DnsError::TruncatedMessage);
        }
        let type_ = read_be16(data, end);
        let class_ = read_be16(data, end + 2);
        let ttl = read_be32(data, end + 4);
        let data_length = read_be16(data, end + 8);
        let payload = end + RECORD_FIXED_LEN;
        if data.len() - payload < data_length as usize {
            return Err(DnsError::TruncatedMessage);
        }
        if type_ != TYPE_A || data_length != IPV4_LEN {
            return Err(DnsError::UnsupportedRecordType);
        }
        let address: [u8; 4] = [
            data[payload],
            data[payload + 1],
            data[payload + 2],
            data[payload + 3],
        ];
        assert(address@ =~= data@.subrange(payload as int, payload + 4));
        Ok((DnsRecord { name, type_, class_, ttl, data_length, data: address }, payload + 4))
    }
}

} // verus!
