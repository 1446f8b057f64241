//! Little-endian integer encodings used by every on-disk layout.
use vstd::prelude::*;

verus! {

/// The two little-endian bytes of `x`.
pub open spec fn le16(x: u16) -> Seq<u8> {
    seq![(x % 256) as u8, (x / 256) as u8]
}

/// The four little-endian bytes of `x`.
pub open spec fn le32(x: u32) -> Seq<u8> {
    le16((x % 65536) as u16) + le16((x / 65536) as u16)
}

/// The eight little-endian bytes of `x`.
pub open spec fn le64(x: u64) -> Seq<u8> {
    le32((x % 0x1_0000_0000) as u32) + le32((x / 0x1_0000_0000) as u32)
}

/// The little-endian 16-bit integer stored at `at`.
pub open spec fn read_le16(s: Seq<u8>, at: int) -> int {
    s[at] as int + s[at + 1] as int * 256
}

/// The little-endian 32-bit integer stored at `at`.
pub open spec fn read_le32(s: Seq<u8>, at: int) -> int {
    read_le16(s, at) + read_le16(s, at + 2) * 65536
}

/// The little-endian 64-bit integer stored at `at`.
pub open spec fn read_le64(s: Seq<u8>, at: int) -> int {
    read_le32(s, at) + read_le32(s, at + 4) * 0x1_0000_0000
}

pub proof fn lemma_le16_round_trip(x: u16)
    ensures
        le16(x).len() == 2,
        read_le16(le16(x), 0) == x,
{
}

pub proof fn lemma_le32_round_trip(x: u32)
    ensures
        le32(x).len() == 4,
        read_le32(le32(x), 0) == x,
{
    let lo = (x % 65536) as u16;
    let hi = (x / 65536) as u16;
    lemma_le16_round_trip(lo);
    lemma_le16_round_trip(hi);
    let s = le32(x);
    assert(s.subrange(0, 2) =~= le16(lo));
    assert(s.subrange(2, 4) =~= le16(hi));
    assert(read_le16(s, 0) == read_le16(le16(lo), 0));
    assert(read_le16(s, 2) == read_le16(le16(hi), 0));
}

pub proof fn lemma_le64_round_trip(x: u64)
    ensures
        le64(x).len() == 8,
        read_le64(le64(x), 0) == x,
{
    let lo = (x % 0x1_0000_0000) as u32;
    let hi = (x / 0x1_0000_0000) as u32;
    lemma_le32_round_trip(lo);
    lemma_le32_round_trip(hi);
    let s = le64(x);
    assert(s.subrange(0, 4) =~= le32(lo));
    assert(s.subrange(4, 8) =~= le32(hi));
    assert(read_le32(s, 0) == read_le32(le32(lo), 0));
    assert(read_le32(s, 4) == read_le32(le32(hi), 0));
}

/// Two bytes read as a 16-bit integer encode back to the same two bytes.
pub proof fn lemma_read_le16_encode(s: Seq<u8>, at: int)
    requires
        0 <= at,
        at + 2 <= s.len(),
    ensures
        0 <= read_le16(s, at) <= u16::MAX,
        le16(read_le16(s, at) as u16) == s.subrange(at, at + 2),
{
    let x = read_le16(s, at);
    assert(x % 256 == s[at] as int);
    assert(x / 256 == s[at + 1] as int);
    assert(le16(x as u16) =~= s.subrange(at, at + 2));
}

/// Four bytes read as a 32-bit integer encode back to the same four bytes.
pub proof fn lemma_read_le32_encode(s: Seq<u8>, at: int)
    requires
        0 <= at,
        at + 4 <= s.len(),
    ensures
        0 <= read_le32(s, at) <= u32::MAX,
        le32(read_le32(s, at) as u32) == s.subrange(at, at + 4),
{
    let lo = read_le16(s, at);
    let hi = read_le16(s, at + 2);
    lemma_read_le16_encode(s, at);
    lemma_read_le16_encode(s, at + 2);
    let x = read_le32(s, at);
    assert(x % 65536 == lo);
    assert(x / 65536 == hi);
    assert(le32(x as u32) =~= s.subrange(at, at + 4));
}

/// Eight bytes read as a 64-bit integer encode back to the same eight bytes.
pub proof fn lemma_read_le64_encode(s: Seq<u8>, at: int)
    requires
        0 <= at,
        at + 8 <= s.len(),
    ensures
        0 <= read_le64(s, at) <= u64::MAX,
        le64(read_le64(s, at) as u64) == s.subrange(at, at + 8),
{
    let lo = read_le32(s, at);
    let hi = read_le32(s, at + 4);
    lemma_read_le32_encode(s, at);
    lemma_read_le32_encode(s, at + 4);
    let x = read_le64(s, at);
    assert(x % 0x1_0000_0000 == lo);
    assert(x / 0x1_0000_0000 == hi);
    assert(le64(x as u64) =~= s.subrange(at, at + 8));
}

/// Reading at `at + off` of `a + b` where `at` lies in `b` reads `b`.
pub proof fn lemma_read_le16_shift(a: Seq<u8>, b: Seq<u8>, at: int)
    requires
        0 <= at,
        at + 2 <= b.len(),
    ensures
        read_le16(a + b, a.len() + at) == read_le16(b, at),
{
}

/// Appends the little-endian bytes of `x`.
pub fn put_u16_le(buf: &mut Vec<u8>, x: u16)
    ensures
        final(buf)@ == old(buf)@ + le16(x),
{
    buf.push((x % 256) as u8);
    buf.push((x / 256) as u8);
    assert(final(buf)@ =~= old(buf)@ + le16(x));
}

/// Appends the little-endian bytes of `x`.
pub fn put_u32_le(buf: &mut Vec<u8>, x: u32)
    ensures
        final(buf)@ == old(buf)@ + le32(x),
{
    put_u16_le(buf, (x % 65536) as u16);
    put_u16_le(buf, (x / 65536) as u16);
    assert(final(buf)@ =~= old(buf)@ + le32(x));
}

/// Appends the little-endian bytes of `x`.
pub fn put_u64_le(buf: &mut Vec<u8>, x: u64)
    ensures
        final(buf)@ == old(buf)@ + le64(x),
{
    put_u32_le(buf, (x % 0x1_0000_0000) as u32);
    put_u32_le(buf, (x / 0x1_0000_0000) as u32);
    assert(final(buf)@ =~= old(buf)@ + le64(x));
}

/// Appends every byte of `src`.
pub fn put_bytes(buf: &mut Vec<u8>, src: &[u8])
    ensures
        final(buf)@ == old(buf)@ + src@,
{
    let ghost start = buf@;
    let mut i: usize = 0;
    while i < src.len()
        invariant
            i <= src@.len(),
            buf@ == start + src@.subrange(0, i as int),
        decreases src@.len() - i,
    {
        buf.push(src[i]);
        i = i + 1;
        assert(buf@ =~= start + src@.subrange(0, i as int));
    }
    assert(src@.subrange(0, src@.len() as int) =~= src@);
}

/// The little-endian 16-bit integer at `at`.
pub fn get_u16_le(s: &[u8], at: usize) -> (r: u16)
    requires
        at + 2 <= s@.len(),
    ensures
        r as int == read_le16(s@, at as int),
{
    s[at] as u16 + (s[at + 1] as u16) * 256
}

/// The little-endian 32-bit integer at `at`.
pub fn get_u32_le(s: &[u8], at: usize) -> (r: u32)
    requires
        at + 4 <= s@.len(),
    ensures
        r as int == read_le32(s@, at as int),
{
    let len = s.len();
    assert(at + 4 <= len);
    let lo = get_u16_le(s, at);
    let hi = get_u16_le(s, at + 2);
    lo as u32 + (hi as u32) * 65536
}

/// The little-endian 64-bit integer at `at`.
pub fn get_u64_le(s: &[u8], at: usize) -> (r: u64)
    requires
        at + 8 <= s@.len(),
    ensures
        r as int == read_le64(s@, at as int),
{
    let len = s.len();
    assert(at + 8 <= len);
    let lo = get_u32_le(s, at);
    let hi = get_u32_le(s, at + 4);
    lo as u64 + (hi as u64) * 0x1_0000_0000
}

} // verus!

verus! {

/// The CRC-32 (IEEE) checksum of `data`.
pub uninterp spec fn crc32_of(data: Seq<u8>) -> u32;

/// Relies on crc32fast::hash: the CRC-32 (IEEE) checksum of the bytes, which
/// depends on the bytes alone.
#[verifier::external_body]
pub(crate) fn crc32(data: &[u8]) -> (r: u32)
    ensures
        r == crc32_of(data@),
{
    crc32fast::hash(data)
}

} // verus!

verus! {

/// A fresh vector holding the bytes of `s`.
pub fn bytes_to_vec(s: &[u8]) -> (r: Vec<u8>)
    ensures
        r@ == s@,
{
    let mut r: Vec<u8> = Vec::new();
    put_bytes(&mut r, s);
    assert(r@ =~= s@);
    r
}

} // verus!
