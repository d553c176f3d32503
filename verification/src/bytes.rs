//! Little-endian integer codecs, backed by the `byteorder` crate.
use byteorder::ByteOrder;
use byteorder::LittleEndian;
use vstd::prelude::*;

verus! {

/// The two bytes of `v`, least significant first.
pub open spec fn u16_le(v: u16) -> Seq<u8> {
    seq![(v % 256) as u8, (v / 256) as u8]
}

/// The four bytes of `v`, least significant first.
pub open spec fn u32_le(v: u32) -> Seq<u8> {
    seq![
        (v % 256) as u8,
        ((v / 0x100) % 256) as u8,
        ((v / 0x1_0000) % 256) as u8,
        (v / 0x100_0000) as u8,
    ]
}

/// The eight bytes of `v`, least significant first: its low word, then its
/// high word.
pub open spec fn u64_le(v: u64) -> Seq<u8> {
    u32_le((v % 0x1_0000_0000) as u32) + u32_le((v / 0x1_0000_0000) as u32)
}

/// The number whose little-endian bytes are the first two of `b`.
pub open spec fn u16_of_le(b: Seq<u8>) -> u16 {
    (b[0] + 0x100 * b[1]) as u16
}

/// The number whose little-endian bytes are the first four of `b`.
pub open spec fn u32_of_le(b: Seq<u8>) -> u32 {
    (b[0] + 0x100 * b[1] + 0x1_0000 * b[2] + 0x100_0000 * b[3]) as u32
}

/// The number whose little-endian bytes are the first eight of `b`.
pub open spec fn u64_of_le(b: Seq<u8>) -> u64 {
    (u32_of_le(b) + 0x1_0000_0000 * u32_of_le(b.skip(4))) as u64
}

#[verifier::spinoff_prover]
pub proof fn lemma_u16_roundtrip(v: u16, rest: Seq<u8>)
    ensures
        u16_le(v).len() == 2,
        u16_of_le(u16_le(v) + rest) == v,
{
    let s = u16_le(v) + rest;
    assert(s[0] == v % 256 && s[1] == v / 256);
    assert(s[0] + 0x100 * s[1] == v) by (nonlinear_arith)
        requires s[0] == v % 256, s[1] == v / 256;
}

#[verifier::spinoff_prover]
pub proof fn lemma_u32_roundtrip(v: u32, rest: Seq<u8>)
    ensures
        u32_le(v).len() == 4,
        u32_of_le(u32_le(v) + rest) == v,
{
    let s = u32_le(v) + rest;
    assert(s[0] == v % 256 && s[1] == (v / 0x100) % 256 && s[2] == (v / 0x1_0000) % 256 && s[3]
        == v / 0x100_0000);
    assert(s[0] + 0x100 * s[1] + 0x1_0000 * s[2] + 0x100_0000 * s[3] == v) by (nonlinear_arith)
        requires
            s[0] == v % 256,
            s[1] == (v / 0x100) % 256,
            s[2] == (v / 0x1_0000) % 256,
            s[3] == v / 0x100_0000,
    ;
}

#[verifier::spinoff_prover]
pub proof fn lemma_u64_roundtrip(v: u64, rest: Seq<u8>)
    ensures
        u64_le(v).len() == 8,
        u64_of_le(u64_le(v) + rest) == v,
{
    let lo = (v % 0x1_0000_0000) as u32;
    let hi = (v / 0x1_0000_0000) as u32;
    let s = u64_le(v) + rest;
    lemma_u32_roundtrip(lo, u32_le(hi) + rest);
    lemma_u32_roundtrip(hi, rest);
    assert(s =~= u32_le(lo) + (u32_le(hi) + rest));
    assert(s.skip(4) =~= u32_le(hi) + rest);
}

/// `LittleEndian::read_u16` from `byteorder`: the first two bytes, least
/// significant first.
#[verifier::external_body]
pub(crate) fn read_u16_le(b: [u8; 2]) -> (r: u16)
    ensures
        r == u16_of_le(b@),
{
    LittleEndian::read_u16(&b)
}

/// `LittleEndian::read_u32` from `byteorder`: the first four bytes, least
/// significant first.
#[verifier::external_body]
pub(crate) fn read_u32_le(b: [u8; 4]) -> (r: u32)
    ensures
        r == u32_of_le(b@),
{
    LittleEndian::read_u32(&b)
}

/// `LittleEndian::read_u64` from `byteorder`: the first eight bytes, least
/// significant first.
#[verifier::external_body]
pub(crate) fn read_u64_le(b: [u8; 8]) -> (r: u64)
    ensures
        r == u64_of_le(b@),
{
    LittleEndian::read_u64(&b)
}

/// `LittleEndian::write_u16` from `byteorder`, into a fresh two-byte buffer:
/// the bytes of `n`, least significant first.
#[verifier::external_body]
pub(crate) fn write_u16_le(n: u16) -> (r: [u8; 2])
    ensures
        r@ == u16_le(n),
{
    let mut b = [0u8; 2];
    LittleEndian::write_u16(&mut b, n);
    b
}

/// `LittleEndian::write_u32` from `byteorder`, into a fresh four-byte buffer:
/// the bytes of `n`, least significant first.
#[verifier::external_body]
pub(crate) fn write_u32_le(n: u32) -> (r: [u8; 4])
    ensures
        r@ == u32_le(n),
{
    let mut b = [0u8; 4];
    LittleEndian::write_u32(&mut b, n);
    b
}

/// `LittleEndian::write_u64` from `byteorder`, into a fresh eight-byte buffer:
/// the bytes of `n`, least significant first.
#[verifier::external_body]
pub(crate) fn write_u64_le(n: u64) -> (r: [u8; 8])
    ensures
        r@ == u64_le(n),
{
    let mut b = [0u8; 8];
    LittleEndian::write_u64(&mut b, n);
    b
}

} // verus!
