use vstd::prelude::*;

verus! {

/// The two big-endian bytes of an unsigned 16-bit value.
pub open spec fn be16(x: u16) -> Seq<u8> {
    seq![(x / 256) as u8, (x % 256) as u8]
}

/// The four big-endian bytes of an unsigned 32-bit value.
pub open spec fn be32(x: u32) -> Seq<u8> {
    seq![
        (x / 0x100_0000) as u8,
        ((x / 0x1_0000) % 256) as u8,
        ((x / 256) % 256) as u8,
        (x % 256) as u8,
    ]
}

/// The eight big-endian bytes of an unsigned 64-bit value.
pub open spec fn be64(x: u64) -> Seq<u8> {
    be32((x / 0x1_0000_0000) as u32) + be32((x % 0x1_0000_0000) as u32)
}

/// The value of the first two bytes of `s`, read big-endian.
pub open spec fn un16(s: Seq<u8>) -> u16 {
    (s[0] * 256 + s[1]) as u16
}

/// The value of the first four bytes of `s`, read big-endian.
pub open spec fn un32(s: Seq<u8>) -> u32 {
    (s[0] * 0x100_0000 + s[1] * 0x1_0000 + s[2] * 256 + s[3]) as u32
}

/// The value of the first eight bytes of `s`, read big-endian.
pub open spec fn un64(s: Seq<u8>) -> u64 {
    (un32(s) * 0x1_0000_0000 + un32(s.skip(4))) as u64
}

/// The two's-complement bit pattern of a signed byte.
pub open spec fn bits8(x: i8) -> u8 {
    if x < 0 { (x + 0x100) as u8 } else { x as u8 }
}

/// The two's-complement bit pattern of a signed 16-bit value.
pub open spec fn bits16(x: i16) -> u16 {
    if x < 0 { (x + 0x1_0000) as u16 } else { x as u16 }
}

/// The two's-complement bit pattern of a signed 32-bit value.
pub open spec fn bits32(x: i32) -> u32 {
    if x < 0 { (x + 0x1_0000_0000) as u32 } else { x as u32 }
}

/// The two's-complement bit pattern of a signed 64-bit value.
pub open spec fn bits64(x: i64) -> u64 {
    if x < 0 { (x + 0x1_0000_0000_0000_0000) as u64 } else { x as u64 }
}

/// The signed byte that a bit pattern stands for in two's complement.
pub open spec fn signed8(u: u8) -> i8 {
    if u >= 0x80 { (u - 0x100) as i8 } else { u as i8 }
}

/// The signed 16-bit value of a bit pattern.
pub open spec fn signed16(u: u16) -> i16 {
    if u >= 0x8000 { (u - 0x1_0000) as i16 } else { u as i16 }
}

/// The signed 32-bit value of a bit pattern.
pub open spec fn signed32(u: u32) -> i32 {
    if u >= 0x8000_0000 { (u - 0x1_0000_0000) as i32 } else { u as i32 }
}

/// The signed 64-bit value of a bit pattern.
pub open spec fn signed64(u: u64) -> i64 {
    if u >= 0x8000_0000_0000_0000 { (u - 0x1_0000_0000_0000_0000) as i64 } else { u as i64 }
}

/// The bit pattern of a signed byte.
pub fn i8_bits(x: i8) -> (u: u8)
    ensures
        u == bits8(x),
{
    if x < 0 { ((x + i8::MAX) + 1) as u8 + 0x80 } else { x as u8 }
}

/// The bit pattern of a signed 16-bit value.
pub fn i16_bits(x: i16) -> (u: u16)
    ensures
        u == bits16(x),
{
    if x < 0 { ((x + i16::MAX) + 1) as u16 + 0x8000 } else { x as u16 }
}

/// The bit pattern of a signed 32-bit value.
pub fn i32_bits(x: i32) -> (u: u32)
    ensures
        u == bits32(x),
{
    if x < 0 { ((x + i32::MAX) + 1) as u32 + 0x8000_0000 } else { x as u32 }
}

/// The bit pattern of a signed 64-bit value.
pub fn i64_bits(x: i64) -> (u: u64)
    ensures
        u == bits64(x),
{
    if x < 0 { ((x + i64::MAX) + 1) as u64 + 0x8000_0000_0000_0000 } else { x as u64 }
}

/// The signed byte of a bit pattern.
pub fn i8_from_bits(u: u8) -> (x: i8)
    ensures
        x == signed8(u),
{
    if u >= 0x80 { ((u - 0x80) as i8) + i8::MIN } else { u as i8 }
}

/// The signed 16-bit value of a bit pattern.
pub fn i16_from_bits(u: u16) -> (x: i16)
    ensures
        x == signed16(u),
{
    if u >= 0x8000 { ((u - 0x8000) as i16) + i16::MIN } else { u as i16 }
}

/// The signed 32-bit value of a bit pattern.
pub fn i32_from_bits(u: u32) -> (x: i32)
    ensures
        x == signed32(u),
{
    if u >= 0x8000_0000 { ((u - 0x8000_0000) as i32) + i32::MIN } else { u as i32 }
}

/// The signed 64-bit value of a bit pattern.
pub fn i64_from_bits(u: u64) -> (x: i64)
    ensures
        x == signed64(u),
{
    if u >= 0x8000_0000_0000_0000 { ((u - 0x8000_0000_0000_0000) as i64) + i64::MIN } else { u as i64 }
}

/// Reading back what `be16` wrote gives the value, whatever follows.
pub proof fn lemma_be16_round_trip(x: u16, rest: Seq<u8>)
    ensures
        un16(be16(x) + rest) == x,
        (be16(x) + rest).skip(2) == rest,
        be16(x).len() == 2,
{
    assert((be16(x) + rest).skip(2) =~= rest);
}

/// Reading back what `be32` wrote gives the value, whatever follows.
pub proof fn lemma_be32_round_trip(x: u32, rest: Seq<u8>)
    ensures
        un32(be32(x) + rest) == x,
        (be32(x) + rest).skip(4) == rest,
        be32(x).len() == 4,
{
    assert((be32(x) + rest).skip(4) =~= rest);
}

/// Reading back what `be64` wrote gives the value, whatever follows.
pub proof fn lemma_be64_round_trip(x: u64, rest: Seq<u8>)
    ensures
        un64(be64(x) + rest) == x,
        (be64(x) + rest).skip(8) == rest,
        be64(x).len() == 8,
{
    let hi = (x / 0x1_0000_0000) as u32;
    let lo = (x % 0x1_0000_0000) as u32;
    let s = be64(x) + rest;
    lemma_be32_round_trip(hi, be32(lo) + rest);
    lemma_be32_round_trip(lo, rest);
    assert(s =~= be32(hi) + (be32(lo) + rest));
    assert(s.skip(4) =~= be32(lo) + rest);
    assert(s.skip(8) =~= rest);
}

/// Bit patterns and signed values determine each other.
pub proof fn lemma_signed_round_trip(a: i8, b: i16, c: i32, d: i64)
    ensures
        signed8(bits8(a)) == a,
        signed16(bits16(b)) == b,
        signed32(bits32(c)) == c,
        signed64(bits64(d)) == d,
{
}

} // verus!
