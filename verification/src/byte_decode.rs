//! Decoding of fixed-size big-endian byte spans into 16-bit and 32-bit
//! unsigned integers, together with the spec-level encoders that state the
//! round-trip law.

use vstd::prelude::*;

verus! {

/// The value of a two-byte big-endian span.
pub open spec fn be_u16_of(b: Seq<u8>) -> u16
    recommends
        b.len() == 2,
{
    ((b[0] as int) * 0x100 + (b[1] as int)) as u16
}

/// The value of a four-byte big-endian span.
pub open spec fn be_u32_of(b: Seq<u8>) -> u32
    recommends
        b.len() == 4,
{
    ((b[0] as int) * 0x1000000 + (b[1] as int) * 0x10000 + (b[2] as int) * 0x100 + (
    b[3] as int)) as u32
}

/// The two-byte big-endian encoding of a 16-bit value.
pub open spec fn be_bytes_of_u16(v: u16) -> Seq<u8> {
    seq![(v as int / 0x100) as u8, (v as int % 0x100) as u8]
}

/// The four-byte big-endian encoding of a 32-bit value.
pub open spec fn be_bytes_of_u32(v: u32) -> Seq<u8> {
    seq![
        (v as int / 0x1000000) as u8,
        ((v as int / 0x10000) % 0x100) as u8,
        ((v as int / 0x100) % 0x100) as u8,
        (v as int % 0x100) as u8,
    ]
}

/// Decoding a two-byte big-endian encoding recovers the encoded value,
/// and encoding a decoded span recovers the span.
pub proof fn lemma_be_u16_roundtrip(v: u16, b: Seq<u8>)
    requires
        b.len() == 2,
    ensures
        be_u16_of(be_bytes_of_u16(v)) == v,
        be_bytes_of_u16(be_u16_of(b)) =~= b,
{
}

/// Decoding a four-byte big-endian encoding recovers the encoded value,
/// and encoding a decoded span recovers the span.
pub proof fn lemma_be_u32_roundtrip(v: u32, b: Seq<u8>)
    requires
        b.len() == 4,
    ensures
        be_u32_of(be_bytes_of_u32(v)) == v,
        be_bytes_of_u32(be_u32_of(b)) =~= b,
{
    assert(be_u32_of(be_bytes_of_u32(v)) == v) by {
        assert((v as int / 0x1000000) * 0x1000000 + ((v as int / 0x10000) % 0x100) * 0x10000 + ((
        v as int / 0x100) % 0x100) * 0x100 + (v as int % 0x100) == v as int) by (nonlinear_arith);
    }
    let x = be_u32_of(b) as int;
    assert(x == (b[0] as int) * 0x1000000 + (b[1] as int) * 0x10000 + (b[2] as int) * 0x100 + (
    b[3] as int));
    assert(x / 0x1000000 == b[0] as int && (x / 0x10000) % 0x100 == b[1] as int && (x / 0x100)
        % 0x100 == b[2] as int && x % 0x100 == b[3] as int) by (nonlinear_arith)
        requires
            x == (b[0] as int) * 0x1000000 + (b[1] as int) * 0x10000 + (b[2] as int) * 0x100 + (
            b[3] as int),
            0 <= (b[0] as int) && (b[0] as int) < 256,
            0 <= (b[1] as int) && (b[1] as int) < 256,
            0 <= (b[2] as int) && (b[2] as int) < 256,
            0 <= (b[3] as int) && (b[3] as int) < 256,
    ;
}

/// Decodes a two-byte big-endian span into a 16-bit integer.
pub fn u8x2_u16(input: &[u8]) -> (r: u16)
    requires
        input@.len() == 2,
    ensures
        r == be_u16_of(input@),
{
    (input[0] as u16) * 0x100 + (input[1] as u16)
}

/// Decodes a four-byte big-endian span into a 32-bit integer.
pub fn u8x4_u32(input: &[u8]) -> (r: u32)
    requires
        input@.len() == 4,
    ensures
        r == be_u32_of(input@),
{
    (input[0] as u32) * 0x1000000 + (input[1] as u32) * 0x10000 + (input[2] as u32) * 0x100 + (
    input[3] as u32)
}

/// Encodes a 16-bit integer as its two-byte big-endian span.
pub fn u16_u8x2(v: u16) -> (r: Vec<u8>)
    ensures
        r@ =~= be_bytes_of_u16(v),
{
    let mut out: Vec<u8> = Vec::new();
    out.push((v / 0x100) as u8);
    out.push((v % 0x100) as u8);
    out
}

/// Encodes a 32-bit integer as its four-byte big-endian span.
pub fn u32_u8x4(v: u32) -> (r: Vec<u8>)
    ensures
        r@ =~= be_bytes_of_u32(v),
{
    let mut out: Vec<u8> = Vec::new();
    out.push((v / 0x1000000) as u8);
    out.push(((v / 0x10000) % 0x100) as u8);
    out.push(((v / 0x100) % 0x100) as u8);
    out.push((v % 0x100) as u8);
    out
}

/// Reads a 32-bit big-endian integer at `index`, `None` when fewer than four
/// bytes remain.
pub fn get_u32(data: &[u8], index: usize) -> (r: Option<u32>)
    ensures
        index + 4 <= data@.len() ==> r == Some(
            be_u32_of(data@.subrange(index as int, index as int + 4)),
        ),
        index + 4 > data@.len() ==> r is None,
{
    if data.len() >= 4 && index <= data.len() - 4 {
        let b0 = data[index];
        let b1 = data[index + 1];
        let b2 = data[index + 2];
        let b3 = data[index + 3];
        let ghost s = data@.subrange(index as int, index as int + 4);
        assert(s[0] == b0 && s[1] == b1 && s[2] == b2 && s[3] == b3);
        Some((b0 as u32) * 0x1000000 + (b1 as u32) * 0x10000 + (b2 as u32) * 0x100 + (b3 as u32))
    } else {
        None
    }
}

} // verus!
