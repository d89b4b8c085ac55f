use vstd::prelude::*;

use crate::error::DnsError;

verus! {

/// Length of the fixed DNS header on the wire.
pub const HEADER_LEN: usize = 12;

/// Big-endian wire form of a 16-bit field.
pub open spec fn be16(x: u16) -> Seq<u8> {
    seq![(x / 256) as u8, (x % 256) as u8]
}

/// The 16-bit big-endian value stored at `i` and `i + 1`.
pub open spec fn u16_at(buf: Seq<u8>, i: int) -> u16 {
    (buf[i] as int * 256 + buf[i + 1] as int) as u16
}

/// The fixed 12-octet DNS message header.
#[derive(Debug, Clone, Copy, PartialEq, Eq, Structural)]
pub struct DnsHeader {
    pub id: u16,
    pub flags: u16,
    pub num_questions: u16,
    pub num_answers: u16,
    pub num_authorities: u16,
    pub num_additionals: u16,
}

/// The wire form of a header: its fields big-endian, in declaration order.
pub open spec fn header_bytes(h: DnsHeader) -> Seq<u8> {
    be16(h.id) + be16(h.flags) + be16(h.num_questions) + be16(h.num_answers) + be16(
        h.num_authorities,
    ) + be16(h.num_additionals)
}

/// The header read from the first twelve octets of `buf`.
pub open spec fn header_from(buf: Seq<u8>) -> Result<DnsHeader, DnsError> {
    if buf.len() < 12 {
        Err(DnsError::TruncatedMessage)
    } else {
        Ok(
            DnsHeader {
                id: u16_at(buf, 0),
                flags: u16_at(buf, 2),
                num_questions: u16_at(buf, 4),
                num_answers: u16_at(buf, 6),
                num_authorities: u16_at(buf, 8),
                num_additionals: u16_at(buf, 10),
            },
        )
    }
}

/// Appends the big-endian octets of `x` to `out`.
pub fn push_be16(out: &mut Vec<u8>, x: u16)
    ensures
        final(out)@ == old(out)@ + be16(x),
{
    out.push((x / 256) as u8);
    out.push((x % 256) as u8);
    assert(final(out)@ =~= old(out)@ + be16(x));
}

/// Reads the big-endian 16-bit value at `i`.
pub fn read_be16(buf: &[u8], i: usize) -> (r: u16)
    requires
        i + 2 <= buf@.len(),
    ensures
        r == u16_at(buf@, i as int),
{
    (buf[i] as u16) * 256 + (buf[i + 1] as u16)
}

impl DnsHeader {
    /// Encodes the header as its 12 wire octets.
    pub fn as_bytes(&self) -> (r: Vec<u8>)
        ensures
            r@ == header_bytes(*self),
            r@.len() == HEADER_LEN,
    {
        let mut bytes: Vec<u8> = Vec::new();
        push_be16(&mut bytes, self.id);
        push_be16(&mut bytes, self.flags);
        push_be16(&mut bytes, self.num_questions);
        push_be16(&mut bytes, self.num_answers);
        push_be16(&mut bytes, self.num_authorities);
        push_be16(&mut bytes, self.num_additionals);
        assert(bytes@ =~= header_bytes(*self));
        bytes
    }

    /// Decodes a header from the start of `data`; fails with
    /// `TruncatedMessage` when fewer than twelve octets are given.
    pub fn parse(data: &[u8]) -> (r: Result<DnsHeader, DnsError>)
        ensures
            r == header_from(data@),
    {
        if data.len() < HEADER_LEN {
            return Err(DnsError::TruncatedMessage);
        }
        Ok(
            DnsHeader {
                id: read_be16(data, 0),
                flags: read_be16(data, 2),
                num_questions: read_be16(data, 4),
                num_answers: read_be16(data, 6),
                num_authorities: read_be16(data, 8),
                num_additionals: read_be16(data, 10),
            },
        )
    }
}

/// Decoding the encoding of any header gives back that header.
pub proof fn lemma_header_round_trip(h: DnsHeader)
    ensures
        header_from(header_bytes(h)) == Ok::<DnsHeader, DnsError>(h),
{
    let b = header_bytes(h);
    assert(b.len() == 12);
    assert(u16_at(b, 0) == h.id);
    assert(u16_at(b, 2) == h.flags);
    assert(u16_at(b, 4) == h.num_questions);
    assert(u16_at(b, 6) == h.num_answers);
    assert(u16_at(b, 8) == h.num_authorities);
    assert(u16_at(b, 10) == h.num_additionals);
}

} // verus!
