//! Encoding and decoding of the fixed 12-byte message header, and the
//! big-endian byte readers the record parsers share.

use vstd::prelude::*;

use crate::types::DnsError;
use crate::types::Header;

verus! {

/// The two big-endian bytes of a 16-bit value.
pub open spec fn spec_be16(x: u16) -> Seq<u8> {
    seq![(x / 256) as u8, (x % 256) as u8]
}

/// The 16-bit value read big-endian from two bytes.
pub open spec fn spec_be16_val(b0: u8, b1: u8) -> u16 {
    ((b0 as nat) * 256 + b1 as nat) as u16
}

/// The 32-bit value read big-endian from four bytes.
pub open spec fn spec_be32_val(b0: u8, b1: u8, b2: u8, b3: u8) -> u32 {
    ((b0 as nat) * 0x1000000 + (b1 as nat) * 0x10000 + (b2 as nat) * 0x100 + b3 as nat) as u32
}

/// The 12 bytes of a header: the six 16-bit fields big-endian, in order.
pub open spec fn spec_encode_header(h: Header) -> Seq<u8> {
    spec_be16(h.id) + spec_be16(h.flags) + spec_be16(h.qdcount) + spec_be16(h.ancount) + spec_be16(
        h.nscount,
    ) + spec_be16(h.arcount)
}

/// The header that a buffer declares, or a truncation error when fewer
/// than 12 bytes are present.
pub open spec fn spec_decode_header(buf: Seq<u8>) -> Result<Header, DnsError> {
    if buf.len() < 12 {
        Err(DnsError::TruncatedPacketError)
    } else {
        Ok(
            Header {
                id: spec_be16_val(buf[0], buf[1]),
                flags: spec_be16_val(buf[2], buf[3]),
                qdcount: spec_be16_val(buf[4], buf[5]),
                ancount: spec_be16_val(buf[6], buf[7]),
                nscount: spec_be16_val(buf[8], buf[9]),
                arcount: spec_be16_val(buf[10], buf[11]),
            },
        )
    }
}

/// Appends the two big-endian bytes of `x`.
pub fn push_u16_be(out: &mut Vec<u8>, x: u16)
    ensures
        final(out)@ == old(out)@ + spec_be16(x),
{
    out.push((x / 256) as u8);
    out.push((x % 256) as u8);
    proof {
        assert(out@ =~= old(out)@ + spec_be16(x));
    }
}

/// Reads the 16-bit big-endian value at `i`.
pub fn read_u16_be(buf: &Vec<u8>, i: usize) -> (r: u16)
    requires
        i + 2 <= buf.len(),
    ensures
        r == spec_be16_val(buf@[i as int], buf@[i as int + 1]),
{
    (buf[i] as u16) * 256 + (buf[i + 1] as u16)
}

/// Reads the 32-bit big-endian value at `i`.
pub fn read_u32_be(buf: &Vec<u8>, i: usize) -> (r: u32)
    requires
        i + 4 <= buf.len(),
    ensures
        r == spec_be32_val(
            buf@[i as int],
            buf@[i as int + 1],
            buf@[i as int + 2],
            buf@[i as int + 3],
        ),
{
    (buf[i] as u32) * 0x1000000 + (buf[i + 1] as u32) * 0x10000 + (buf[i + 2] as u32) * 0x100 + (
    buf[i + 3] as u32)
}

/// Encodes the six header fields as 12 big-endian bytes.
pub fn encode_header(h: &Header) -> (r: Vec<u8>)
    ensures
        r@ == spec_encode_header(*h),
{
    let mut out: Vec<u8> = Vec::new();
    push_u16_be(&mut out, h.id);
    push_u16_be(&mut out, h.flags);
    push_u16_be(&mut out, h.qdcount);
    push_u16_be(&mut out, h.ancount);
    push_u16_be(&mut out, h.nscount);
    push_u16_be(&mut out, h.arcount);
    proof {
        assert(out@ =~= spec_encode_header(*h));
    }
    out
}

/// Decodes the fixed header; fails if fewer than 12 bytes are present.
pub fn decode_header(buf: &Vec<u8>) -> (r: Result<Header, DnsError>)
    ensures
        r == spec_decode_header(buf@),
{
    if buf.len() < 12 {
        return Err(DnsError::TruncatedPacketError);
    }
    Ok(
        Header {
            id: read_u16_be(buf, 0),
            flags: read_u16_be(buf, 2),
            qdcount: read_u16_be(buf, 4),
            ancount: read_u16_be(buf, 6),
            nscount: read_u16_be(buf, 8),
            arcount: read_u16_be(buf, 10),
        },
    )
}

/// Reading two big-endian bytes back gives the value they encode.
proof fn lemma_be16_val_of_be16(x: u16)
    ensures
        spec_be16_val((x / 256) as u8, (x % 256) as u8) == x,
{
}

/// Round trip of the header: decoding an encoded header restores every
/// field.
pub proof fn lemma_header_round_trip(h: Header)
    ensures
        spec_decode_header(spec_encode_header(h)) == Ok::<Header, DnsError>(h),
{
    let enc = spec_encode_header(h);
    assert(enc.len() == 12);
    assert(enc[0] == (h.id / 256) as u8);
    assert(enc[1] == (h.id % 256) as u8);
    assert(enc[2] == (h.flags / 256) as u8);
    assert(enc[3] == (h.flags % 256) as u8);
    assert(enc[4] == (h.qdcount / 256) as u8);
    assert(enc[5] == (h.qdcount % 256) as u8);
    assert(enc[6] == (h.ancount / 256) as u8);
    assert(enc[7] == (h.ancount % 256) as u8);
    assert(enc[8] == (h.nscount / 256) as u8);
    assert(enc[9] == (h.nscount % 256) as u8);
    assert(enc[10] == (h.arcount / 256) as u8);
    assert(enc[11] == (h.arcount % 256) as u8);
    lemma_be16_val_of_be16(h.id);
    lemma_be16_val_of_be16(h.flags);
    lemma_be16_val_of_be16(h.qdcount);
    lemma_be16_val_of_be16(h.ancount);
    lemma_be16_val_of_be16(h.nscount);
    lemma_be16_val_of_be16(h.arcount);
}

} // verus!
