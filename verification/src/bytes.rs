//! Little-endian and big-endian fields inside byte buffers.

use vstd::prelude::*;

verus! {

/// The little-endian 16-bit number at offset `i` of `s`.
pub open spec fn le16(s: Seq<u8>, i: int) -> int {
    s[i] + 256 * s[i + 1]
}

/// The little-endian 32-bit number at offset `i` of `s`.
pub open spec fn le32(s: Seq<u8>, i: int) -> int {
    s[i] + 256 * s[i + 1] + 65536 * s[i + 2] + 16777216 * s[i + 3]
}

/// The little-endian 64-bit number at offset `i` of `s`.
pub open spec fn le64(s: Seq<u8>, i: int) -> int {
    le32(s, i) + 4294967296 * le32(s, i + 4)
}

/// The big-endian 16-bit number at offset `i` of `s`.
pub open spec fn be16(s: Seq<u8>, i: int) -> int {
    256 * s[i] + s[i + 1]
}

/// The big-endian 32-bit number at offset `i` of `s`.
pub open spec fn be32(s: Seq<u8>, i: int) -> int {
    16777216 * s[i] + 65536 * s[i + 1] + 256 * s[i + 2] + s[i + 3]
}

/// The big-endian 16-bit number at offset `i` of `s`, as a number of its width.
pub open spec fn be16_value(s: Seq<u8>, i: int) -> u16 {
    be16(s, i) as u16
}

/// The two bytes of `x`, low byte first.
pub open spec fn le16_bytes(x: u16) -> Seq<u8> {
    seq![(x % 256) as u8, (x / 256) as u8]
}

/// The four bytes of `x`, low byte first.
pub open spec fn le32_bytes(x: u32) -> Seq<u8> {
    seq![
        (x % 256) as u8,
        (x / 256 % 256) as u8,
        (x / 65536 % 256) as u8,
        (x / 16777216) as u8,
    ]
}

/// The eight bytes of `x`, low byte first.
pub open spec fn le64_bytes(x: u64) -> Seq<u8> {
    le32_bytes((x % 4294967296) as u32) + le32_bytes((x / 4294967296) as u32)
}

/// The two bytes of `x`, high byte first.
pub open spec fn be16_bytes(x: u16) -> Seq<u8> {
    seq![(x / 256) as u8, (x % 256) as u8]
}

/// The four bytes of `x`, high byte first.
pub open spec fn be32_bytes(x: u32) -> Seq<u8> {
    seq![
        (x / 16777216) as u8,
        (x / 65536 % 256) as u8,
        (x / 256 % 256) as u8,
        (x % 256) as u8,
    ]
}

/// `s` with the bytes from offset `at` on replaced by those of `b`.
pub open spec fn splice(s: Seq<u8>, at: int, b: Seq<u8>) -> Seq<u8> {
    Seq::new(
        s.len(),
        |i: int|
            if at <= i < at + b.len() {
                b[i - at]
            } else {
                s[i]
            },
    )
}

pub fn get_le16(s: &[u8], i: usize) -> (x: u16)
    requires
        i + 2 <= s.len(),
    ensures
        x == le16(s@, i as int),
{
    s[i] as u16 + 256 * (s[i + 1] as u16)
}

pub fn get_le32(s: &[u8], i: usize) -> (x: u32)
    requires
        i + 4 <= s.len(),
    ensures
        x == le32(s@, i as int),
{
    s[i] as u32 + 256 * (s[i + 1] as u32) + 65536 * (s[i + 2] as u32) + 16777216 * (s[i + 3] as u32)
}

pub fn get_le64(s: &[u8], i: usize) -> (x: u64)
    requires
        i + 8 <= s.len(),
    ensures
        x == le64(s@, i as int),
{
    get_le32(s, i) as u64 + 4294967296 * (get_le32(s, i + 4) as u64)
}

pub fn get_be16(s: &[u8], i: usize) -> (x: u16)
    requires
        i + 2 <= s.len(),
    ensures
        x == be16(s@, i as int),
{
    256 * (s[i] as u16) + s[i + 1] as u16
}

pub fn get_be32(s: &[u8], i: usize) -> (x: u32)
    requires
        i + 4 <= s.len(),
    ensures
        x == be32(s@, i as int),
{
    16777216 * (s[i] as u32) + 65536 * (s[i + 1] as u32) + 256 * (s[i + 2] as u32) + s[i + 3] as u32
}

pub fn to_le16(x: u16) -> (b: [u8; 2])
    ensures
        b@ == le16_bytes(x),
{
    [(x % 256) as u8, (x / 256) as u8]
}

pub fn to_le32(x: u32) -> (b: [u8; 4])
    ensures
        b@ == le32_bytes(x),
{
    [(x % 256) as u8, (x / 256 % 256) as u8, (x / 65536 % 256) as u8, (x / 16777216) as u8]
}

pub fn to_le64(x: u64) -> (b: [u8; 8])
    ensures
        b@ == le64_bytes(x),
{
    let low: [u8; 4] = to_le32((x % 4294967296) as u32);
    let high: [u8; 4] = to_le32((x / 4294967296) as u32);
    let b: [u8; 8] = [low[0], low[1], low[2], low[3], high[0], high[1], high[2], high[3]];
    assert(b@ =~= le64_bytes(x));
    b
}

pub fn to_be16(x: u16) -> (b: [u8; 2])
    ensures
        b@ == be16_bytes(x),
{
    [(x / 256) as u8, (x % 256) as u8]
}

pub fn to_be32(x: u32) -> (b: [u8; 4])
    ensures
        b@ == be32_bytes(x),
{
    [(x / 16777216) as u8, (x / 65536 % 256) as u8, (x / 256 % 256) as u8, (x % 256) as u8]
}

/// Overwrites `dst` from offset `at` on with `src`.
pub fn copy_into<const N: usize>(dst: &mut [u8; N], at: usize, src: &[u8])
    requires
        at + src.len() <= N,
    ensures
        final(dst)@ == splice(old(dst)@, at as int, src@),
{
    let mut i: usize = 0;
    while i < src.len()
        invariant
            i <= src.len(),
            at + src.len() <= N,
            dst@ == splice(old(dst)@, at as int, src@.take(i as int)),
        decreases src.len() - i,
    {
        dst[at + i] = src[i];
        i = i + 1;
        assert(dst@ =~= splice(old(dst)@, at as int, src@.take(i as int)));
    }
    assert(src@.take(src@.len() as int) =~= src@);
}

/// Appends the bytes of `src` to `dst`.
pub fn append_bytes(dst: &mut Vec<u8>, src: &[u8])
    ensures
        final(dst)@ == old(dst)@ + src@,
{
    let mut i: usize = 0;
    while i < src.len()
        invariant
            i <= src.len(),
            dst@ == old(dst)@ + src@.take(i as int),
        decreases src.len() - i,
    {
        dst.push(src[i]);
        i = i + 1;
        assert(dst@ =~= old(dst)@ + src@.take(i as int));
    }
    assert(src@.take(src@.len() as int) =~= src@);
}

/// Reading a 16-bit field back gives what was encoded.
pub proof fn le16_round_trip(x: u16)
    ensures
        le16(le16_bytes(x), 0) == x,
        be16(be16_bytes(x), 0) == x,
{
}

/// Reading a 32-bit field back gives what was encoded.
pub proof fn le32_round_trip(x: u32)
    ensures
        le32(le32_bytes(x), 0) == x,
        be32(be32_bytes(x), 0) == x,
{
}

/// The number that bytes stand for, the first one the lowest.
pub open spec fn low_first(s: Seq<u8>) -> int
    decreases s.len(),
{
    if s.len() == 0 {
        0
    } else {
        s[0] + 256 * low_first(s.skip(1))
    }
}

/// The number that bytes stand for, the last one the lowest.
pub open spec fn high_first(s: Seq<u8>) -> int
    decreases s.len(),
{
    if s.len() == 0 {
        0
    } else {
        256 * high_first(s.drop_last()) + s.last()
    }
}

proof fn low_first_step(s: Seq<u8>, i: int, n: int)
    requires
        0 <= i,
        0 < n,
        i + n <= s.len(),
    ensures
        low_first(s.subrange(i, i + n)) == s[i] + 256 * low_first(s.subrange(i + 1, i + n)),
{
    assert(s.subrange(i, i + n).skip(1) =~= s.subrange(i + 1, i + n));
}

proof fn high_first_step(s: Seq<u8>, i: int, n: int)
    requires
        0 <= i,
        0 < n,
        i + n <= s.len(),
    ensures
        high_first(s.subrange(i, i + n)) == 256 * high_first(s.subrange(i, i + n - 1)) + s[i + n
            - 1],
{
    assert(s.subrange(i, i + n).drop_last() =~= s.subrange(i, i + n - 1));
}

/// A 16-bit field is the number that its two bytes stand for, and depends on no others.
pub proof fn fields_of_two_bytes(s: Seq<u8>, i: int)
    requires
        0 <= i,
        i + 2 <= s.len(),
    ensures
        le16(s, i) == low_first(s.subrange(i, i + 2)),
        be16(s, i) == high_first(s.subrange(i, i + 2)),
        0 <= le16(s, i) < 0x1_0000,
        0 <= be16(s, i) < 0x1_0000,
{
    low_first_step(s, i, 2);
    low_first_step(s, i + 1, 1);
    high_first_step(s, i, 2);
    high_first_step(s, i, 1);
    assert(s.subrange(i + 2, i + 2) =~= Seq::empty());
    assert(s.subrange(i, i) =~= Seq::empty());
}

/// A 32-bit field is the number that its four bytes stand for, and depends on no others.
pub proof fn fields_of_four_bytes(s: Seq<u8>, i: int)
    requires
        0 <= i,
        i + 4 <= s.len(),
    ensures
        le32(s, i) == low_first(s.subrange(i, i + 4)),
        be32(s, i) == high_first(s.subrange(i, i + 4)),
        0 <= le32(s, i) < 0x1_0000_0000,
        0 <= be32(s, i) < 0x1_0000_0000,
{
    low_first_step(s, i, 4);
    low_first_step(s, i + 1, 3);
    low_first_step(s, i + 2, 2);
    low_first_step(s, i + 3, 1);
    high_first_step(s, i, 4);
    high_first_step(s, i, 3);
    high_first_step(s, i, 2);
    high_first_step(s, i, 1);
    assert(s.subrange(i + 4, i + 4) =~= Seq::empty());
    assert(s.subrange(i, i) =~= Seq::empty());
}

/// A 64-bit field is the number that its eight bytes stand for, and depends on no others.
pub proof fn fields_of_eight_bytes(s: Seq<u8>, i: int)
    requires
        0 <= i,
        i + 8 <= s.len(),
    ensures
        le64(s, i) == low_first(s.subrange(i, i + 8)),
{
    fields_of_four_bytes(s, i + 4);
    low_first_step(s, i, 8);
    low_first_step(s, i + 1, 7);
    low_first_step(s, i + 2, 6);
    low_first_step(s, i + 3, 5);
    assert(i + 3 + 5 == i + 4 + 4);
}

/// The bytes of a number are as many as its width, and stand for that number.
pub proof fn bytes_stand_for_number(a: u16, b: u32, c: u64)
    ensures
        le16_bytes(a).len() == 2 && low_first(le16_bytes(a)) == a,
        be16_bytes(a).len() == 2 && high_first(be16_bytes(a)) == a,
        le32_bytes(b).len() == 4 && low_first(le32_bytes(b)) == b,
        be32_bytes(b).len() == 4 && high_first(be32_bytes(b)) == b,
        le64_bytes(c).len() == 8 && low_first(le64_bytes(c)) == c,
{
    fields_of_two_bytes(le16_bytes(a), 0);
    fields_of_two_bytes(be16_bytes(a), 0);
    assert(le16_bytes(a).subrange(0, 2) =~= le16_bytes(a));
    assert(be16_bytes(a).subrange(0, 2) =~= be16_bytes(a));
    fields_of_four_bytes(le32_bytes(b), 0);
    fields_of_four_bytes(be32_bytes(b), 0);
    assert(le32_bytes(b).subrange(0, 4) =~= le32_bytes(b));
    assert(be32_bytes(b).subrange(0, 4) =~= be32_bytes(b));
    let s = le64_bytes(c);
    fields_of_eight_bytes(s, 0);
    assert(s.subrange(0, 8) =~= s);
    let low = (c % 4294967296) as u32;
    let high = (c / 4294967296) as u32;
    le32_round_trip(low);
    le32_round_trip(high);
    assert(le32(s, 0) == low);
    assert(le32(s, 4) == high);
}

/// Bytes that are put into others stand where they were put, and the others stay.
pub proof fn splice_puts(s: Seq<u8>, at: int, b: Seq<u8>)
    requires
        0 <= at,
        at + b.len() <= s.len(),
    ensures
        splice(s, at, b) == s.take(at) + b + s.skip(at + b.len()),
{
    assert(splice(s, at, b) =~= s.take(at) + b + s.skip(at + b.len()));
}

} // verus!
