//! Big-endian integers and two's complement, as arithmetic on bytes.

use vstd::prelude::*;

verus! {

/// The two bytes of `v`, most significant first.
pub open spec fn be16(v: u16) -> Seq<u8> {
    seq![(v / 0x100) as u8, (v % 0x100) as u8]
}

/// The four bytes of `v`, most significant first.
pub open spec fn be32(v: u32) -> Seq<u8> {
    seq![
        (v / 0x100_0000) as u8,
        (v / 0x1_0000 % 0x100) as u8,
        (v / 0x100 % 0x100) as u8,
        (v % 0x100) as u8,
    ]
}

/// The eight bytes of `v`, most significant first.
pub open spec fn be64(v: u64) -> Seq<u8> {
    be32((v / 0x1_0000_0000) as u32) + be32((v % 0x1_0000_0000) as u32)
}

/// The number whose big-endian bytes are the first two of `b`.
pub open spec fn from_be16(b: Seq<u8>) -> u16 {
    (b[0] * 0x100 + b[1]) as u16
}

/// The number whose big-endian bytes are the first four of `b`.
pub open spec fn from_be32(b: Seq<u8>) -> u32 {
    (b[0] * 0x100_0000 + b[1] * 0x1_0000 + b[2] * 0x100 + b[3]) as u32
}

/// The number whose big-endian bytes are the first eight of `b`.
pub open spec fn from_be64(b: Seq<u8>) -> u64 {
    (from_be32(b.subrange(0, 4)) * 0x1_0000_0000 + from_be32(b.subrange(4, 8))) as u64
}

/// The byte that stands for `v` in two's complement.
pub open spec fn wrap8(v: i8) -> u8 {
    if v < 0 {
        (v + 0x100) as u8
    } else {
        v as u8
    }
}

/// The 16-bit pattern that stands for `v` in two's complement.
pub open spec fn wrap16(v: i16) -> u16 {
    if v < 0 {
        (v + 0x1_0000) as u16
    } else {
        v as u16
    }
}

/// The 32-bit pattern that stands for `v` in two's complement.
pub open spec fn wrap32(v: i32) -> u32 {
    if v < 0 {
        (v + 0x1_0000_0000) as u32
    } else {
        v as u32
    }
}

/// The 64-bit pattern that stands for `v` in two's complement.
pub open spec fn wrap64(v: i64) -> u64 {
    if v < 0 {
        (v + 0x1_0000_0000_0000_0000) as u64
    } else {
        v as u64
    }
}

/// The signed number that the byte `v` stands for in two's complement.
pub open spec fn sign8(v: u8) -> i8 {
    if v >= 0x80 {
        (v - 0x100) as i8
    } else {
        v as i8
    }
}

/// The signed number that the pattern `v` stands for in two's complement.
pub open spec fn sign16(v: u16) -> i16 {
    if v >= 0x8000 {
        (v - 0x1_0000) as i16
    } else {
        v as i16
    }
}

/// The signed number that the pattern `v` stands for in two's complement.
pub open spec fn sign32(v: u32) -> i32 {
    if v >= 0x8000_0000 {
        (v - 0x1_0000_0000) as i32
    } else {
        v as i32
    }
}

/// The signed number that the pattern `v` stands for in two's complement.
pub open spec fn sign64(v: u64) -> i64 {
    if v >= 0x8000_0000_0000_0000 {
        (v - 0x1_0000_0000_0000_0000) as i64
    } else {
        v as i64
    }
}

/// Reading back the bytes of a 16-bit number gives the number.
pub proof fn lemma_be16_round_trip(v: u16)
    ensures
        be16(v).len() == 2,
        from_be16(be16(v)) == v,
{
}

/// Reading back the bytes of a 32-bit number gives the number.
pub proof fn lemma_be32_round_trip(v: u32)
    ensures
        be32(v).len() == 4,
        from_be32(be32(v)) == v,
{
}

/// Reading back the bytes of a 64-bit number gives the number.
pub proof fn lemma_be64_round_trip(v: u64)
    ensures
        be64(v).len() == 8,
        from_be64(be64(v)) == v,
{
    let hi = (v / 0x1_0000_0000) as u32;
    let lo = (v % 0x1_0000_0000) as u32;
    lemma_be32_round_trip(hi);
    lemma_be32_round_trip(lo);
    assert(be64(v).subrange(0, 4) =~= be32(hi));
    assert(be64(v).subrange(4, 8) =~= be32(lo));
}

/// Two's complement loses nothing, in either direction and at every width.
pub proof fn lemma_sign_wrap_inverse()
    ensures
        forall|v: i8| #[trigger] sign8(wrap8(v)) == v,
        forall|v: i16| #[trigger] sign16(wrap16(v)) == v,
        forall|v: i32| #[trigger] sign32(wrap32(v)) == v,
        forall|v: i64| #[trigger] sign64(wrap64(v)) == v,
        forall|v: u8| #[trigger] wrap8(sign8(v)) == v,
        forall|v: u16| #[trigger] wrap16(sign16(v)) == v,
        forall|v: u32| #[trigger] wrap32(sign32(v)) == v,
        forall|v: u64| #[trigger] wrap64(sign64(v)) == v,
{
}

/// The signed reading of a byte.
pub fn to_i8(v: u8) -> (r: i8)
    ensures
        r == sign8(v),
{
    if v >= 0x80 {
        (v as i16 - 0x100) as i8
    } else {
        v as i8
    }
}

/// The signed reading of a 16-bit pattern.
pub fn to_i16(v: u16) -> (r: i16)
    ensures
        r == sign16(v),
{
    if v >= 0x8000 {
        (v as i32 - 0x1_0000) as i16
    } else {
        v as i16
    }
}

/// The signed reading of a 32-bit pattern.
pub fn to_i32(v: u32) -> (r: i32)
    ensures
        r == sign32(v),
{
    if v >= 0x8000_0000 {
        (v as i64 - 0x1_0000_0000) as i32
    } else {
        v as i32
    }
}

/// The signed reading of a 64-bit pattern.
pub fn to_i64(v: u64) -> (r: i64)
    ensures
        r == sign64(v),
{
    if v >= 0x8000_0000_0000_0000 {
        (v as i128 - 0x1_0000_0000_0000_0000) as i64
    } else {
        v as i64
    }
}

/// The 64-bit pattern of a signed number.
pub fn to_u64(v: i64) -> (r: u64)
    ensures
        r == wrap64(v),
{
    if v < 0 {
        (v as i128 + 0x1_0000_0000_0000_0000) as u64
    } else {
        v as u64
    }
}

/// Reads a big-endian 16-bit number from a slice of two bytes.
pub fn read_be16(b: &[u8]) -> (r: u16)
    requires
        b@.len() == 2,
    ensures
        r == from_be16(b@),
{
    (b[0] as u16) * 0x100 + (b[1] as u16)
}

/// Reads a big-endian 32-bit number from a slice of four bytes.
pub fn read_be32(b: &[u8]) -> (r: u32)
    requires
        b@.len() == 4,
    ensures
        r == from_be32(b@),
{
    (b[0] as u32) * 0x100_0000 + (b[1] as u32) * 0x1_0000 + (b[2] as u32) * 0x100 + (b[3] as u32)
}

/// Reads a big-endian 64-bit number from a slice of eight bytes.
pub fn read_be64(b: &[u8]) -> (r: u64)
    requires
        b@.len() == 8,
    ensures
        r == from_be64(b@),
{
    let hi: u32 = read_be32(vstd::slice::slice_subrange(b, 0, 4));
    let lo: u32 = read_be32(vstd::slice::slice_subrange(b, 4, 8));
    (hi as u64) * 0x1_0000_0000 + (lo as u64)
}

/// Appends the four big-endian bytes of `v`.
pub fn push_be32(buf: &mut Vec<u8>, v: u32)
    ensures
        final(buf)@ == old(buf)@ + be32(v),
{
    buf.push((v / 0x100_0000) as u8);
    buf.push((v / 0x1_0000 % 0x100) as u8);
    buf.push((v / 0x100 % 0x100) as u8);
    buf.push((v % 0x100) as u8);
    assert(buf@ =~= old(buf)@ + be32(v));
}

/// Appends the eight big-endian bytes of `v`.
pub fn push_be64(buf: &mut Vec<u8>, v: u64)
    ensures
        final(buf)@ == old(buf)@ + be64(v),
{
    push_be32(buf, (v / 0x1_0000_0000) as u32);
    push_be32(buf, (v % 0x1_0000_0000) as u32);
    assert(buf@ =~= old(buf)@ + be64(v));
}

} // verus!
