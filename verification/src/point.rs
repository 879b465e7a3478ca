//! Fixed-width coordinate codec. A quantized coordinate (degrees scaled by
//! `1e7`, rounded) is written as a 4-byte little-endian signed integer.
use vstd::prelude::*;

verus! {

/// The unsigned 32-bit two's-complement image of a quantized coordinate.
pub open spec fn coord_unsigned(c: i32) -> u32 {
    if c >= 0 {
        c as u32
    } else {
        (c + 0x1_0000_0000) as u32
    }
}

/// The quantized coordinate denoted by an unsigned 32-bit image.
pub open spec fn coord_signed(u: u32) -> int {
    if u < 0x8000_0000 {
        u as int
    } else {
        u - 0x1_0000_0000
    }
}

/// The four little-endian bytes of a quantized coordinate.
pub open spec fn point_bytes(c: i32) -> Seq<u8> {
    let u = coord_unsigned(c) as int;
    seq![
        (u % 256) as u8,
        ((u / 256) % 256) as u8,
        ((u / 0x10000) % 256) as u8,
        ((u / 0x100_0000) % 256) as u8,
    ]
}

/// The quantized coordinate denoted by four little-endian bytes.
pub open spec fn point_value(s: Seq<u8>) -> int
    recommends
        s.len() == 4,
{
    coord_signed((s[0] + s[1] * 0x100 + s[2] * 0x10000 + s[3] * 0x100_0000) as u32)
}

/// The reassembled little-endian bytes of `u` give back `u`.
proof fn lemma_le32_reassemble(u: u32)
    ensures
        (u as int % 256) + ((u as int / 256) % 256) * 0x100 + ((u as int / 0x10000) % 256)
            * 0x10000 + ((u as int / 0x100_0000) % 256) * 0x100_0000 == u as int,
{
    let x = u as int;
    vstd::arithmetic::div_mod::lemma_fundamental_div_mod(x, 256);
    vstd::arithmetic::div_mod::lemma_fundamental_div_mod(x / 256, 256);
    vstd::arithmetic::div_mod::lemma_fundamental_div_mod(x / 0x10000, 256);
    vstd::arithmetic::div_mod::lemma_div_denominator(x, 256, 256);
    vstd::arithmetic::div_mod::lemma_div_denominator(x, 0x10000, 256);
    assert(x / 0x100_0000 < 256);
    assert((x / 0x100_0000) % 256 == x / 0x100_0000);
}

/// Law: point decoding inverts encoding — the quantized coordinate written
/// by the point codec is read back unchanged. The residual error against
/// the original floating-point degree value is the quantization error
/// alone, at most half of one `1e-7` step.
pub proof fn lemma_point_round_trip(c: i32)
    ensures
        point_bytes(c).len() == 4,
        point_value(point_bytes(c)) == c,
{
    let u = coord_unsigned(c);
    lemma_le32_reassemble(u);
    let s = point_bytes(c);
    assert(s[0] + s[1] * 0x100 + s[2] * 0x10000 + s[3] * 0x100_0000 == u as int);
    assert(coord_signed(u) == c);
}

/// Writes the 4-byte little-endian form of the quantized coordinate `c`
/// into `buf` at `offset`; returns the number of bytes written (always 4)
/// and leaves every other byte as it was.
pub fn encode_with_offset(c: i32, buf: &mut Vec<u8>, offset: usize) -> (n: usize)
    requires
        offset + 4 <= old(buf)@.len(),
    ensures
        n == 4,
        final(buf)@.len() == old(buf)@.len(),
        final(buf)@.subrange(offset as int, offset + 4) == point_bytes(c),
        forall|k: int|
            0 <= k < old(buf)@.len() && !(offset <= k < offset + 4) ==> final(buf)@[k] == old(
                buf,
            )@[k],
{
    let _buf_len: usize = buf.len();
    let u: u32 = if c >= 0 {
        c as u32
    } else {
        ((c as i64) + 0x1_0000_0000) as u32
    };
    proof {
        assert(u == coord_unsigned(c));
    }
    buf[offset] = (u % 256) as u8;
    buf[offset + 1] = ((u / 256) % 256) as u8;
    buf[offset + 2] = ((u / 0x10000) % 256) as u8;
    buf[offset + 3] = ((u / 0x100_0000) % 256) as u8;
    proof {
        assert(buf@.subrange(offset as int, offset + 4) =~= point_bytes(c));
    }
    4
}

/// Reads the quantized coordinate stored as 4 little-endian bytes in `buf`
/// at `offset`.
pub fn decode_with_offset(buf: &Vec<u8>, offset: usize) -> (c: i32)
    requires
        offset + 4 <= buf@.len(),
    ensures
        c == point_value(buf@.subrange(offset as int, offset + 4)),
{
    let _buf_len: usize = buf.len();
    let b0 = buf[offset] as u32;
    let b1 = buf[offset + 1] as u32;
    let b2 = buf[offset + 2] as u32;
    let b3 = buf[offset + 3] as u32;
    let u: u32 = b0 + b1 * 0x100 + b2 * 0x10000 + b3 * 0x100_0000;
    proof {
        let s = buf@.subrange(offset as int, offset + 4);
        assert(s[0] == b0 && s[1] == b1 && s[2] == b2 && s[3] == b3);
    }
    if u < 0x8000_0000 {
        u as i32
    } else {
        ((u as i64) - 0x1_0000_0000) as i32
    }
}

} // verus!
