//! How weights are packed into blocks, and that the blocks are unpacked to the same weights.
//!
//! Each law takes the numbers that a block is made of, puts their bytes together, and says
//! what the weights of that block are wherever it stands among other blocks.

use crate::bytes::{
    bytes_stand_for_number, fields_of_four_bytes, fields_of_two_bytes, le16, le16_bytes, le32_bytes,
};
use crate::gguf_loader::{
    block_bytes, block_count, block_values, one_bit, packed_scales, plain_term, scale_3k,
    scales_unpack, signed, tensor_term, two_bits, widened, GgufGtype, QuantTerm,
};
use vstd::prelude::*;

verus! {

/// Some numbers, all of them from `low` up to but not including `high`.
pub open spec fn within(s: Seq<int>, n: int, low: int, high: int) -> bool {
    s.len() == n && forall|i: int| 0 <= i < n ==> low <= #[trigger] s[i] < high
}

/// A signed number from -128 to 127 as a byte.
pub open spec fn as_byte(x: int) -> u8 {
    (if x < 0 {
        x + 256
    } else {
        x
    }) as u8
}

/// How many weights so many bytes hold.
pub open spec fn weights_in(gtype: GgufGtype, len: int) -> int {
    block_count(gtype, len) * block_values(gtype)
}

/// So many whole blocks and a rest hold the weights of these blocks.
proof fn weights_add_up(gtype: GgufGtype, n: int, rest: int)
    requires
        0 <= n,
        0 <= rest,
    ensures
        weights_in(gtype, block_bytes(gtype) * (n + 1) + rest) >= block_values(gtype) * (n + 1),
        rest < block_bytes(gtype) ==> weights_in(gtype, block_bytes(gtype) * (n + 1) + rest)
            == block_values(gtype) * (n + 1),
{
    let size = block_bytes(gtype);
    let len = size * (n + 1) + rest;
    let q = len / size;
    assert(q >= n + 1 && (rest < size ==> q == n + 1)) by (nonlinear_arith)
        requires
            size > 0,
            rest >= 0,
            len == size * (n + 1) + rest,
            q == len / size,
    ;
    assert(q * block_values(gtype) >= block_values(gtype) * (n + 1)) by (nonlinear_arith)
        requires
            q >= n + 1,
            block_values(gtype) >= 0,
    ;
    assert(q == n + 1 ==> q * block_values(gtype) == block_values(gtype) * (n + 1))
        by (nonlinear_arith);
}

/// Two half bytes in a byte.
pub open spec fn two_halves(low: int, high: int) -> u8 {
    (low + 16 * high) as u8
}

/// Four bit pairs in a byte.
pub open spec fn four_pairs(a: int, b: int, c: int, d: int) -> u8 {
    (a + 4 * b + 16 * c + 64 * d) as u8
}

/// Eight bits in a byte.
pub open spec fn eight_bits(bit: spec_fn(int) -> int) -> u8 {
    four_pairs(
        bit(0) + 2 * bit(1),
        bit(2) + 2 * bit(3),
        bit(4) + 2 * bit(5),
        bit(6) + 2 * bit(7),
    )
}

proof fn halves(low: int, high: int)
    requires
        0 <= low < 16,
        0 <= high < 16,
    ensures
        two_halves(low, high) as int % 16 == low,
        two_halves(low, high) as int / 16 == high,
{
}

proof fn pairs(a: int, b: int, c: int, d: int)
    requires
        0 <= a < 4,
        0 <= b < 4,
        0 <= c < 4,
        0 <= d < 4,
    ensures
        two_bits(four_pairs(a, b, c, d), 0) == a,
        two_bits(four_pairs(a, b, c, d), 1) == b,
        two_bits(four_pairs(a, b, c, d), 2) == c,
        two_bits(four_pairs(a, b, c, d), 3) == d,
{
    let x = a + 4 * b + 16 * c + 64 * d;
    assert(0 <= x < 256);
    assert(x / 4 == b + 4 * c + 16 * d);
    assert(x / 16 == c + 4 * d);
    assert(x / 64 == d);
}

proof fn bits(bit: spec_fn(int) -> int, k: int)
    requires
        forall|j: int| 0 <= j < 8 ==> 0 <= #[trigger] bit(j) < 2,
        0 <= k < 8,
    ensures
        one_bit(eight_bits(bit), k) == bit(k),
{
    assert(0 <= bit(0) < 2 && 0 <= bit(1) < 2 && 0 <= bit(2) < 2 && 0 <= bit(3) < 2);
    assert(0 <= bit(4) < 2 && 0 <= bit(5) < 2 && 0 <= bit(6) < 2 && 0 <= bit(7) < 2);
    pairs(
        bit(0) + 2 * bit(1),
        bit(2) + 2 * bit(3),
        bit(4) + 2 * bit(5),
        bit(6) + 2 * bit(7),
    );
    assert(k == 0 || k == 1 || k == 2 || k == 3 || k == 4 || k == 5 || k == 6 || k == 7);
}

/// A byte for a signed number is read as that number.
proof fn byte_is_signed(x: int)
    requires
        -128 <= x < 128,
    ensures
        signed(as_byte(x)) == x,
{
}

/// Where weight `i` of the block behind `n` others is.
proof fn in_block(n: int, i: int, count: int)
    requires
        0 <= n,
        0 <= i < count,
    ensures
        (count * n + i) / count == n,
        (count * n + i) % count == i,
{
    assert((count * n + i) / count == n && (count * n + i) % count == i) by (nonlinear_arith)
        requires
            0 <= i < count,
            0 <= n,
    ;
}

/// A 16-bit number among other bytes.
proof fn half_number(b: Seq<u8>, o: int, x: u16)
    requires
        0 <= o,
        o + 2 <= b.len(),
        b.subrange(o, o + 2) == le16_bytes(x),
    ensures
        le16(b, o) == x,
{
    fields_of_two_bytes(b, o);
    bytes_stand_for_number(x, 0, 0);
}

/// Single-precision weights are those that stand in the bytes, each in four.
pub proof fn f32_unpacks(before: Seq<u8>, n: int, x: u32, after: Seq<u8>)
    requires
        0 <= n,
        before.len() == 4 * n,
    ensures
        tensor_term(GgufGtype::F32, before + le32_bytes(x) + after, n) == plain_term(x),
        weights_in(GgufGtype::F32, (before + le32_bytes(x) + after).len() as int)
            >= n + 1,
        after.len() < 4 ==> weights_in(
            GgufGtype::F32,
            (before + le32_bytes(x) + after).len() as int,
        ) == n + 1,
{
    let b = before + le32_bytes(x) + after;
    bytes_stand_for_number(0, x, 0);
    assert(b.subrange(4 * n, 4 * n + 4) =~= le32_bytes(x));
    fields_of_four_bytes(b, 4 * n);
}

/// Half-precision weights are those that stand in the bytes, each in two, widened.
pub proof fn f16_unpacks(before: Seq<u8>, n: int, x: u16, after: Seq<u8>)
    requires
        0 <= n,
        before.len() == 2 * n,
    ensures
        tensor_term(GgufGtype::F16, before + le16_bytes(x) + after, n) == plain_term(
            widened(x) as u32,
        ),
        weights_in(GgufGtype::F16, (before + le16_bytes(x) + after).len() as int)
            >= n + 1,
        after.len() < 2 ==> weights_in(
            GgufGtype::F16,
            (before + le16_bytes(x) + after).len() as int,
        ) == n + 1,
{
    let b = before + le16_bytes(x) + after;
    assert(b.subrange(2 * n, 2 * n + 2) =~= le16_bytes(x));
    half_number(b, 2 * n, x);
}

/// A block of a scale and 32 signed bytes.
pub open spec fn q8_0_block(d: u16, q: Seq<int>) -> Seq<u8> {
    le16_bytes(d) + Seq::new(32, |j: int| as_byte(q[j]))
}

#[verifier::spinoff_prover]
proof fn q8_0_term_unpacks(before: Seq<u8>, n: int, d: u16, q: Seq<int>, after: Seq<u8>, i: int)
    requires
        0 <= n,
        before.len() == 34 * n,
        within(q, 32, -128, 128),
        0 <= i < 32,
    ensures
        tensor_term(GgufGtype::Q8_0, before + q8_0_block(d, q) + after, 32 * n + i) == (QuantTerm {
            d: widened(d) as u32,
            sc: 1,
            q: q[i] as i32,
            dmin: 0,
            m: 0,
        }),
{
    let block = q8_0_block(d, q);
    let b = before + block + after;
    in_block(n, i, 32);
    assert(b.subrange(34 * n, 34 * n + 2) =~= le16_bytes(d));
    half_number(b, 34 * n, d);
    assert(b[34 * n + 2 + i] == block[2 + i]);
    assert(block[2 + i] == as_byte(q[i]));
    byte_is_signed(q[i]);
}

/// Its weights are the scale, times the signed numbers.
pub proof fn q8_0_unpacks(before: Seq<u8>, n: int, d: u16, q: Seq<int>, after: Seq<u8>, i: int)
    requires
        0 <= n,
        before.len() == 34 * n,
        within(q, 32, -128, 128),
        0 <= i < 32,
    ensures
        tensor_term(GgufGtype::Q8_0, before + q8_0_block(d, q) + after, 32 * n + i) == (QuantTerm {
            d: widened(d) as u32,
            sc: 1,
            q: q[i] as i32,
            dmin: 0,
            m: 0,
        }),
        weights_in(GgufGtype::Q8_0, (before + q8_0_block(d, q) + after).len() as int)
            >= 32 * (n + 1),
        after.len() < 34 ==> weights_in(
            GgufGtype::Q8_0,
            (before + q8_0_block(d, q) + after).len() as int,
        ) == 32 * (n + 1),
{
    q8_0_term_unpacks(before, n, d, q, after, i);
    assert(q8_0_block(d, q).len() == 34);
    assert((before + q8_0_block(d, q) + after).len() == 34 * (n + 1) + after.len());
    weights_add_up(GgufGtype::Q8_0, n, after.len() as int);
}

/// Thirty-two half bytes: byte `j` has number `j` in its low half and number `16 + j` in its
/// high half.
pub open spec fn sixteen_bytes(q: Seq<int>) -> Seq<u8> {
    Seq::new(16, |j: int| two_halves(q[j], q[16 + j]))
}

/// A block of a scale and 32 half bytes, in which 8 stands for 0.
pub open spec fn q4_0_block(d: u16, q: Seq<int>) -> Seq<u8> {
    le16_bytes(d) + sixteen_bytes(q.map_values(|x: int| x + 8))
}

#[verifier::spinoff_prover]
proof fn q4_0_term_unpacks(before: Seq<u8>, n: int, d: u16, q: Seq<int>, after: Seq<u8>, i: int)
    requires
        0 <= n,
        before.len() == 18 * n,
        within(q, 32, -8, 8),
        0 <= i < 32,
    ensures
        tensor_term(GgufGtype::Q4_0, before + q4_0_block(d, q) + after, 32 * n + i) == (QuantTerm {
            d: widened(d) as u32,
            sc: 1,
            q: q[i] as i32,
            dmin: 0,
            m: 0,
        }),
{
    let block = q4_0_block(d, q);
    let b = before + block + after;
    in_block(n, i, 32);
    assert(b.subrange(18 * n, 18 * n + 2) =~= le16_bytes(d));
    half_number(b, 18 * n, d);
    let j = i % 16;
    assert(b[18 * n + 2 + j] == block[2 + j]);
    assert(block[2 + j] == two_halves(q[j] + 8, q[16 + j] + 8));
    halves(q[j] + 8, q[16 + j] + 8);
}

/// Its weights are the scale, times the numbers from -8 to 7.
pub proof fn q4_0_unpacks(before: Seq<u8>, n: int, d: u16, q: Seq<int>, after: Seq<u8>, i: int)
    requires
        0 <= n,
        before.len() == 18 * n,
        within(q, 32, -8, 8),
        0 <= i < 32,
    ensures
        tensor_term(GgufGtype::Q4_0, before + q4_0_block(d, q) + after, 32 * n + i) == (QuantTerm {
            d: widened(d) as u32,
            sc: 1,
            q: q[i] as i32,
            dmin: 0,
            m: 0,
        }),
        weights_in(GgufGtype::Q4_0, (before + q4_0_block(d, q) + after).len() as int)
            >= 32 * (n + 1),
        after.len() < 18 ==> weights_in(
            GgufGtype::Q4_0,
            (before + q4_0_block(d, q) + after).len() as int,
        ) == 32 * (n + 1),
{
    q4_0_term_unpacks(before, n, d, q, after, i);
    assert(q4_0_block(d, q).len() == 18);
    assert((before + q4_0_block(d, q) + after).len() == 18 * (n + 1) + after.len());
    weights_add_up(GgufGtype::Q4_0, n, after.len() as int);
}

/// A block of a scale, a minimum and 32 half bytes.
pub open spec fn q4_1_block(d: u16, min: u16, q: Seq<int>) -> Seq<u8> {
    le16_bytes(d) + le16_bytes(min) + sixteen_bytes(q)
}

#[verifier::spinoff_prover]
proof fn q4_1_term_unpacks(
    before: Seq<u8>,
    n: int,
    d: u16,
    min: u16,
    q: Seq<int>,
    after: Seq<u8>,
    i: int,
)
    requires
        0 <= n,
        before.len() == 20 * n,
        within(q, 32, 0, 16),
        0 <= i < 32,
    ensures
        tensor_term(GgufGtype::Q4_1, before + q4_1_block(d, min, q) + after, 32 * n + i) == (
        QuantTerm {
            d: widened(d) as u32,
            sc: 1,
            q: q[i] as i32,
            dmin: widened(min) as u32,
            m: -1i32,
        }),
{
    let block = q4_1_block(d, min, q);
    let b = before + block + after;
    in_block(n, i, 32);
    assert(b.subrange(20 * n, 20 * n + 2) =~= le16_bytes(d));
    assert(b.subrange(20 * n + 2, 20 * n + 4) =~= le16_bytes(min));
    half_number(b, 20 * n, d);
    half_number(b, 20 * n + 2, min);
    let j = i % 16;
    assert(b[20 * n + 4 + j] == block[4 + j]);
    assert(block[4 + j] == two_halves(q[j], q[16 + j]));
    halves(q[j], q[16 + j]);
}

/// Its weights are the scale, times the numbers from 0 to 15, and the minimum.
pub proof fn q4_1_unpacks(
    before: Seq<u8>,
    n: int,
    d: u16,
    min: u16,
    q: Seq<int>,
    after: Seq<u8>,
    i: int,
)
    requires
        0 <= n,
        before.len() == 20 * n,
        within(q, 32, 0, 16),
        0 <= i < 32,
    ensures
        tensor_term(GgufGtype::Q4_1, before + q4_1_block(d, min, q) + after, 32 * n + i) == (
        QuantTerm {
            d: widened(d) as u32,
            sc: 1,
            q: q[i] as i32,
            dmin: widened(min) as u32,
            m: -1i32,
        }),
        weights_in(GgufGtype::Q4_1, (before + q4_1_block(d, min, q) + after).len() as int)
            >= 32 * (n + 1),
        after.len() < 20 ==> weights_in(
            GgufGtype::Q4_1,
            (before + q4_1_block(d, min, q) + after).len() as int,
        ) == 32 * (n + 1),
{
    q4_1_term_unpacks(before, n, d, min, q, after, i);
    assert(q4_1_block(d, min, q).len() == 20);
    assert((before + q4_1_block(d, min, q) + after).len() == 20 * (n + 1) + after.len());
    weights_add_up(GgufGtype::Q4_1, n, after.len() as int);
}

/// 256 half bytes in four runs of 32 bytes: byte `l` of run `c` has number `64 * c + l` in its
/// low half and number `64 * c + 32 + l` in its high half.
pub open spec fn half_runs(q: Seq<int>) -> Seq<u8> {
    Seq::new(
        128,
        |j: int| two_halves(q[64 * (j / 32) + j % 32] % 16, q[64 * (j / 32) + 32 + j % 32] % 16),
    )
}

proof fn half_runs_unpack(q: Seq<int>, i: int)
    requires
        within(q, 256, 0, 32),
        0 <= i < 256,
    ensures
        ({
            let byte = half_runs(q)[32 * (i / 64) + i % 32] as int;
            q[i] % 16 == if i % 64 / 32 == 0 {
                byte % 16
            } else {
                byte / 16
            }
        }),
{
    let c = i / 64;
    let l = i % 32;
    let j = 32 * c + l;
    assert(j / 32 == c && j % 32 == l);
    halves(q[64 * c + l] % 16, q[64 * c + 32 + l] % 16);
    if i % 64 / 32 == 0 {
        assert(i == 64 * c + l);
    } else {
        assert(i == 64 * c + 32 + l);
    }
}

/// A block of 256 weights of four bits: a scale, a minimum, a scale and a minimum for each 32 of
/// them, and the weights.
pub open spec fn q4_k_block(d: u16, dmin: u16, sc: Seq<int>, m: Seq<int>, q: Seq<int>) -> Seq<u8> {
    le16_bytes(d) + le16_bytes(dmin) + packed_scales(sc, m) + half_runs(q)
}

#[verifier::spinoff_prover]
proof fn q4_k_term_unpacks(
    before: Seq<u8>,
    n: int,
    d: u16,
    dmin: u16,
    sc: Seq<int>,
    m: Seq<int>,
    q: Seq<int>,
    after: Seq<u8>,
    i: int,
)
    requires
        0 <= n,
        before.len() == 144 * n,
        within(sc, 8, 0, 64),
        within(m, 8, 0, 64),
        within(q, 256, 0, 16),
        0 <= i < 256,
    ensures
        tensor_term(GgufGtype::Q4_K, before + q4_k_block(d, dmin, sc, m, q) + after, 256 * n + i)
            == (QuantTerm {
            d: widened(d) as u32,
            sc: sc[i / 32] as i32,
            q: q[i] as i32,
            dmin: widened(dmin) as u32,
            m: m[i / 32] as i32,
        }),
{
    let block = q4_k_block(d, dmin, sc, m, q);
    let b = before + block + after;
    let o = 144 * n;
    in_block(n, i, 256);
    assert(b.subrange(o, o + 2) =~= le16_bytes(d));
    assert(b.subrange(o + 2, o + 4) =~= le16_bytes(dmin));
    half_number(b, o, d);
    half_number(b, o + 2, dmin);
    assert(b.subrange(o + 4, o + 16) =~= packed_scales(sc, m));
    scales_unpack(sc, m, i / 32);
    assert(2 * (i / 64) + i % 64 / 32 == i / 32);
    let j = 32 * (i / 64) + i % 32;
    assert(b[o + 16 + j] == half_runs(q)[j]);
    half_runs_unpack(q, i);
    assert(0 <= q[i] < 16);
}

/// Each of its weights is its own number from 0 to 15, with the scale and the minimum of its 32.
pub proof fn q4_k_unpacks(
    before: Seq<u8>,
    n: int,
    d: u16,
    dmin: u16,
    sc: Seq<int>,
    m: Seq<int>,
    q: Seq<int>,
    after: Seq<u8>,
    i: int,
)
    requires
        0 <= n,
        before.len() == 144 * n,
        within(sc, 8, 0, 64),
        within(m, 8, 0, 64),
        within(q, 256, 0, 16),
        0 <= i < 256,
    ensures
        tensor_term(GgufGtype::Q4_K, before + q4_k_block(d, dmin, sc, m, q) + after, 256 * n + i)
            == (QuantTerm {
            d: widened(d) as u32,
            sc: sc[i / 32] as i32,
            q: q[i] as i32,
            dmin: widened(dmin) as u32,
            m: m[i / 32] as i32,
        }),
        weights_in(GgufGtype::Q4_K, (before + q4_k_block(d, dmin, sc, m, q) + after).len() as int)
            >= 256 * (n + 1),
        after.len() < 144 ==> weights_in(
            GgufGtype::Q4_K,
            (before + q4_k_block(d, dmin, sc, m, q) + after).len() as int,
        ) == 256 * (n + 1),
{
    q4_k_term_unpacks(before, n, d, dmin, sc, m, q, after, i);
    assert(q4_k_block(d, dmin, sc, m, q).len() == 144);
    assert((before + q4_k_block(d, dmin, sc, m, q) + after).len() == 144 * (n + 1) + after.len());
    weights_add_up(GgufGtype::Q4_K, n, after.len() as int);
}

/// The fifth bits of 256 numbers in 32 bytes: bit `g` of byte `l` is that of number `32 * g + l`.
pub open spec fn fifth_bits(q: Seq<int>) -> Seq<u8> {
    Seq::new(32, |l: int| eight_bits(|g: int| q[32 * g + l] / 16))
}

/// A block of 256 weights of five bits: as with four bits, but with the fifth bits in front
/// of the others.
pub open spec fn q5_k_block(d: u16, dmin: u16, sc: Seq<int>, m: Seq<int>, q: Seq<int>) -> Seq<u8> {
    le16_bytes(d) + le16_bytes(dmin) + packed_scales(sc, m) + fifth_bits(q) + half_runs(q)
}

#[verifier::spinoff_prover]
proof fn q5_k_term_unpacks(
    before: Seq<u8>,
    n: int,
    d: u16,
    dmin: u16,
    sc: Seq<int>,
    m: Seq<int>,
    q: Seq<int>,
    after: Seq<u8>,
    i: int,
)
    requires
        0 <= n,
        before.len() == 176 * n,
        within(sc, 8, 0, 64),
        within(m, 8, 0, 64),
        within(q, 256, 0, 32),
        0 <= i < 256,
    ensures
        tensor_term(GgufGtype::Q5_K, before + q5_k_block(d, dmin, sc, m, q) + after, 256 * n + i)
            == (QuantTerm {
            d: widened(d) as u32,
            sc: sc[i / 32] as i32,
            q: q[i] as i32,
            dmin: widened(dmin) as u32,
            m: m[i / 32] as i32,
        }),
{
    let block = q5_k_block(d, dmin, sc, m, q);
    let b = before + block + after;
    let o = 176 * n;
    in_block(n, i, 256);
    assert(b.subrange(o, o + 2) =~= le16_bytes(d));
    assert(b.subrange(o + 2, o + 4) =~= le16_bytes(dmin));
    half_number(b, o, d);
    half_number(b, o + 2, dmin);
    assert(b.subrange(o + 4, o + 16) =~= packed_scales(sc, m));
    scales_unpack(sc, m, i / 32);
    assert(2 * (i / 64) + i % 64 / 32 == i / 32);
    let j = 32 * (i / 64) + i % 32;
    assert(b[o + 48 + j] == half_runs(q)[j]);
    half_runs_unpack(q, i);
    let l = i % 32;
    let bit = |g: int| q[32 * g + l] / 16;
    assert(b[o + 16 + l] == fifth_bits(q)[l]);
    assert forall|g: int| 0 <= g < 8 implies 0 <= #[trigger] bit(g) < 2 by {
        assert(0 <= q[32 * g + l] < 32);
    }
    bits(bit, i / 32);
    assert(32 * (i / 32) + l == i);
    assert(0 <= q[i] < 32);
}

/// Each of its weights is its own number from 0 to 31, with the scale and the minimum of its 32.
pub proof fn q5_k_unpacks(
    before: Seq<u8>,
    n: int,
    d: u16,
    dmin: u16,
    sc: Seq<int>,
    m: Seq<int>,
    q: Seq<int>,
    after: Seq<u8>,
    i: int,
)
    requires
        0 <= n,
        before.len() == 176 * n,
        within(sc, 8, 0, 64),
        within(m, 8, 0, 64),
        within(q, 256, 0, 32),
        0 <= i < 256,
    ensures
        tensor_term(GgufGtype::Q5_K, before + q5_k_block(d, dmin, sc, m, q) + after, 256 * n + i)
            == (QuantTerm {
            d: widened(d) as u32,
            sc: sc[i / 32] as i32,
            q: q[i] as i32,
            dmin: widened(dmin) as u32,
            m: m[i / 32] as i32,
        }),
        weights_in(GgufGtype::Q5_K, (before + q5_k_block(d, dmin, sc, m, q) + after).len() as int)
            >= 256 * (n + 1),
        after.len() < 176 ==> weights_in(
            GgufGtype::Q5_K,
            (before + q5_k_block(d, dmin, sc, m, q) + after).len() as int,
        ) == 256 * (n + 1),
{
    q5_k_term_unpacks(before, n, d, dmin, sc, m, q, after, i);
    assert(q5_k_block(d, dmin, sc, m, q).len() == 176);
    assert((before + q5_k_block(d, dmin, sc, m, q) + after).len() == 176 * (n + 1) + after.len());
    weights_add_up(GgufGtype::Q5_K, n, after.len() as int);
}

/// The low half bytes of 256 numbers of six bits: byte `l` of 64, of either half of them, has
/// that of number `l` in its low half and that of number `64 + l` in its high half.
pub open spec fn low_halves(v: Seq<int>) -> Seq<u8> {
    Seq::new(
        128,
        |j: int| two_halves(v[128 * (j / 64) + j % 64] % 16, v[128 * (j / 64) + 64 + j % 64] % 16),
    )
}

/// The high bit pairs of 256 numbers, four in a byte: byte `l` of 32, of either half of them, has
/// those of the numbers `l`, `32 + l`, `64 + l` and `96 + l`.
pub open spec fn pair_runs(v: Seq<int>) -> Seq<u8> {
    Seq::new(
        64,
        |j: int|
            four_pairs(
                v[128 * (j / 32) + j % 32],
                v[128 * (j / 32) + 32 + j % 32],
                v[128 * (j / 32) + 64 + j % 32],
                v[128 * (j / 32) + 96 + j % 32],
            ),
    )
}

proof fn pair_runs_unpack(v: Seq<int>, i: int)
    requires
        within(v, 256, 0, 4),
        0 <= i < 256,
    ensures
        two_bits(pair_runs(v)[32 * (i / 128) + i % 32], i % 128 / 32) == v[i],
{
    let p = i / 128;
    let l = i % 32;
    let k = i % 128 / 32;
    let j = 32 * p + l;
    assert(j / 32 == p && j % 32 == l);
    pairs(v[128 * p + l], v[128 * p + 32 + l], v[128 * p + 64 + l], v[128 * p + 96 + l]);
    assert(i == 128 * p + 32 * k + l);
    assert(k == 0 || k == 1 || k == 2 || k == 3);
}

/// A block of 256 weights of six bits: the low half bytes, the high bit pairs, a signed scale
/// for each 16 of them, and a scale; 32 stands for 0.
pub open spec fn q6_k_block(q: Seq<int>, sc: Seq<int>, d: u16) -> Seq<u8> {
    let v = q.map_values(|x: int| x + 32);
    low_halves(v) + pair_runs(v.map_values(|x: int| x / 16)) + Seq::new(
        16,
        |j: int| as_byte(sc[j]),
    ) + le16_bytes(d)
}

#[verifier::spinoff_prover]
proof fn q6_k_term_unpacks(
    before: Seq<u8>,
    n: int,
    q: Seq<int>,
    sc: Seq<int>,
    d: u16,
    after: Seq<u8>,
    i: int,
)
    requires
        0 <= n,
        before.len() == 210 * n,
        within(q, 256, -32, 32),
        within(sc, 16, -128, 128),
        0 <= i < 256,
    ensures
        tensor_term(GgufGtype::Q6_K, before + q6_k_block(q, sc, d) + after, 256 * n + i) == (
        QuantTerm {
            d: widened(d) as u32,
            sc: sc[i / 16] as i32,
            q: q[i] as i32,
            dmin: 0,
            m: 0,
        }),
{
    let v = q.map_values(|x: int| x + 32);
    let w = v.map_values(|x: int| x / 16);
    let scales = Seq::new(16, |j: int| as_byte(sc[j]));
    let block = q6_k_block(q, sc, d);
    let b = before + block + after;
    let o = 210 * n;
    in_block(n, i, 256);
    assert(b.subrange(o + 208, o + 210) =~= le16_bytes(d));
    half_number(b, o + 208, d);
    let p = i / 128;
    let k = i % 128 / 32;
    let l = i % 32;
    assert(i == 128 * p + 32 * k + l);
    let at = 64 * p + l + 32 * (k % 2);
    assert(b[o + at] == low_halves(v)[at]);
    assert(at / 64 == p && at % 64 == l + 32 * (k % 2));
    halves(v[128 * p + at % 64] % 16, v[128 * p + 64 + at % 64] % 16);
    assert(0 <= q[i] + 32 < 64 && v[i] == q[i] + 32);
    assert forall|x: int| 0 <= x < 256 implies 0 <= #[trigger] w[x] < 4 by {
        assert(-32 <= q[x] < 32);
    }
    pair_runs_unpack(w, i);
    assert(b[o + 128 + (32 * p + l)] == pair_runs(w)[32 * p + l]);
    assert(w[i] == v[i] / 16);
    let s = 8 * p + l / 16 + 2 * k;
    assert(s == i / 16);
    assert(b[o + 192 + s] == scales[s]);
    byte_is_signed(sc[s]);
}

/// Each of its weights is its own number from -32 to 31, with the scale of its 16.
pub proof fn q6_k_unpacks(
    before: Seq<u8>,
    n: int,
    q: Seq<int>,
    sc: Seq<int>,
    d: u16,
    after: Seq<u8>,
    i: int,
)
    requires
        0 <= n,
        before.len() == 210 * n,
        within(q, 256, -32, 32),
        within(sc, 16, -128, 128),
        0 <= i < 256,
    ensures
        tensor_term(GgufGtype::Q6_K, before + q6_k_block(q, sc, d) + after, 256 * n + i) == (
        QuantTerm {
            d: widened(d) as u32,
            sc: sc[i / 16] as i32,
            q: q[i] as i32,
            dmin: 0,
            m: 0,
        }),
        weights_in(GgufGtype::Q6_K, (before + q6_k_block(q, sc, d) + after).len() as int)
            >= 256 * (n + 1),
        after.len() < 210 ==> weights_in(
            GgufGtype::Q6_K,
            (before + q6_k_block(q, sc, d) + after).len() as int,
        ) == 256 * (n + 1),
{
    q6_k_term_unpacks(before, n, q, sc, d, after, i);
    assert(q6_k_block(q, sc, d).len() == 210);
    assert((before + q6_k_block(q, sc, d) + after).len() == 210 * (n + 1) + after.len());
    weights_add_up(GgufGtype::Q6_K, n, after.len() as int);
}

/// A block of 256 weights of eight bits: a scale in single precision, the weights, and 32 bytes
/// that are not looked at.
pub open spec fn q8_k_block(d: u32, q: Seq<int>, sums: Seq<u8>) -> Seq<u8> {
    le32_bytes(d) + Seq::new(256, |j: int| as_byte(q[j])) + sums
}

#[verifier::spinoff_prover]
proof fn q8_k_term_unpacks(
    before: Seq<u8>,
    n: int,
    d: u32,
    q: Seq<int>,
    sums: Seq<u8>,
    after: Seq<u8>,
    i: int,
)
    requires
        0 <= n,
        before.len() == 292 * n,
        within(q, 256, -128, 128),
        sums.len() == 32,
        0 <= i < 256,
    ensures
        tensor_term(GgufGtype::Q8_K, before + q8_k_block(d, q, sums) + after, 256 * n + i) == (
        QuantTerm { d, sc: 1, q: q[i] as i32, dmin: 0, m: 0 }),
{
    let block = q8_k_block(d, q, sums);
    let b = before + block + after;
    let o = 292 * n;
    in_block(n, i, 256);
    assert(b.subrange(o, o + 4) =~= le32_bytes(d));
    fields_of_four_bytes(b, o);
    bytes_stand_for_number(0, d, 0);
    assert(b[o + 4 + i] == block[4 + i]);
    assert(block[4 + i] == as_byte(q[i]));
    byte_is_signed(q[i]);
}

/// Each of its weights is its own signed number.
pub proof fn q8_k_unpacks(
    before: Seq<u8>,
    n: int,
    d: u32,
    q: Seq<int>,
    sums: Seq<u8>,
    after: Seq<u8>,
    i: int,
)
    requires
        0 <= n,
        before.len() == 292 * n,
        within(q, 256, -128, 128),
        sums.len() == 32,
        0 <= i < 256,
    ensures
        tensor_term(GgufGtype::Q8_K, before + q8_k_block(d, q, sums) + after, 256 * n + i) == (
        QuantTerm { d, sc: 1, q: q[i] as i32, dmin: 0, m: 0 }),
        weights_in(GgufGtype::Q8_K, (before + q8_k_block(d, q, sums) + after).len() as int)
            >= 256 * (n + 1),
        after.len() < 292 ==> weights_in(
            GgufGtype::Q8_K,
            (before + q8_k_block(d, q, sums) + after).len() as int,
        ) == 256 * (n + 1),
{
    q8_k_term_unpacks(before, n, d, q, sums, after, i);
    assert(q8_k_block(d, q, sums).len() == 292);
    assert((before + q8_k_block(d, q, sums) + after).len() == 292 * (n + 1) + after.len());
    weights_add_up(GgufGtype::Q8_K, n, after.len() as int);
}

/// A block of 256 weights of two bits: a scale and a minimum of four bits for each 16 of them,
/// the weights, a scale and a minimum.
pub open spec fn q2_k_block(sc: Seq<int>, m: Seq<int>, q: Seq<int>, d: u16, dmin: u16) -> Seq<u8> {
    Seq::new(16, |j: int| two_halves(sc[j], m[j])) + pair_runs(q) + le16_bytes(d) + le16_bytes(dmin)
}

#[verifier::spinoff_prover]
proof fn q2_k_term_unpacks(
    before: Seq<u8>,
    n: int,
    sc: Seq<int>,
    m: Seq<int>,
    q: Seq<int>,
    d: u16,
    dmin: u16,
    after: Seq<u8>,
    i: int,
)
    requires
        0 <= n,
        before.len() == 84 * n,
        within(sc, 16, 0, 16),
        within(m, 16, 0, 16),
        within(q, 256, 0, 4),
        0 <= i < 256,
    ensures
        tensor_term(GgufGtype::Q2_K, before + q2_k_block(sc, m, q, d, dmin) + after, 256 * n + i)
            == (QuantTerm {
            d: widened(d) as u32,
            sc: sc[i / 16] as i32,
            q: q[i] as i32,
            dmin: widened(dmin) as u32,
            m: m[i / 16] as i32,
        }),
{
    let scales = Seq::new(16, |j: int| two_halves(sc[j], m[j]));
    let b = before + q2_k_block(sc, m, q, d, dmin) + after;
    assert(q2_k_block(sc, m, q, d, dmin).len() == 84);
    let o = 84 * n;
    in_block(n, i, 256);
    assert(b.subrange(o + 80, o + 82) =~= le16_bytes(d));
    assert(b.subrange(o + 82, o + 84) =~= le16_bytes(dmin));
    half_number(b, o + 80, d);
    half_number(b, o + 82, dmin);
    let s = i / 16;
    assert(s == 8 * (i / 128) + 2 * (i % 128 / 32) + i % 32 / 16);
    assert(b[o + s] == scales[s]);
    halves(sc[s], m[s]);
    let j = 32 * (i / 128) + i % 32;
    assert(j == 32 * (i / 128) + 16 * (i % 32 / 16) + i % 16);
    assert(b[o + 16 + j] == pair_runs(q)[j]);
    pair_runs_unpack(q, i);
}

/// Each of its weights is its own number from 0 to 3, with the scale and the minimum of its 16.
pub proof fn q2_k_unpacks(
    before: Seq<u8>,
    n: int,
    sc: Seq<int>,
    m: Seq<int>,
    q: Seq<int>,
    d: u16,
    dmin: u16,
    after: Seq<u8>,
    i: int,
)
    requires
        0 <= n,
        before.len() == 84 * n,
        within(sc, 16, 0, 16),
        within(m, 16, 0, 16),
        within(q, 256, 0, 4),
        0 <= i < 256,
    ensures
        tensor_term(GgufGtype::Q2_K, before + q2_k_block(sc, m, q, d, dmin) + after, 256 * n + i)
            == (QuantTerm {
            d: widened(d) as u32,
            sc: sc[i / 16] as i32,
            q: q[i] as i32,
            dmin: widened(dmin) as u32,
            m: m[i / 16] as i32,
        }),
        weights_in(GgufGtype::Q2_K, (before + q2_k_block(sc, m, q, d, dmin) + after).len() as int)
            >= 256 * (n + 1),
        after.len() < 84 ==> weights_in(
            GgufGtype::Q2_K,
            (before + q2_k_block(sc, m, q, d, dmin) + after).len() as int,
        ) == 256 * (n + 1),
{
    q2_k_term_unpacks(before, n, sc, m, q, d, dmin, after, i);
    assert(q2_k_block(sc, m, q, d, dmin).len() == 84);
    assert((before + q2_k_block(sc, m, q, d, dmin) + after).len() == 84 * (n + 1) + after.len());
    weights_add_up(GgufGtype::Q2_K, n, after.len() as int);
}

/// Sixteen scales of six bits in twelve bytes: the low half bytes of scale `k` and scale
/// `8 + k` in byte `k`, and the high bit pairs of the scales `k`, `4 + k`, `8 + k` and `12 + k`
/// in byte `8 + k`.
pub open spec fn sixteen_scales(s: Seq<int>) -> Seq<u8> {
    Seq::new(
        12,
        |k: int|
            if k < 8 {
                two_halves(s[k] % 16, s[8 + k] % 16)
            } else {
                four_pairs(s[k - 8] / 16, s[k - 4] / 16, s[k] / 16, s[k + 4] / 16)
            },
    )
}

proof fn sixteen_scales_unpack(b: Seq<u8>, at: int, s: Seq<int>, k: int)
    requires
        within(s, 16, 0, 64),
        0 <= at,
        at + 12 <= b.len(),
        b.subrange(at, at + 12) == sixteen_scales(s),
        0 <= k < 16,
    ensures
        scale_3k(b, at, k) == s[k],
{
    let p = sixteen_scales(s);
    let j = k % 8;
    let c = k % 4;
    assert(b.subrange(at, at + 12)[j] == b[at + j]);
    assert(b.subrange(at, at + 12)[8 + c] == b[at + 8 + c]);
    assert(0 <= s[k] < 64 && 0 <= s[j] < 64 && 0 <= s[8 + j] < 64);
    assert(0 <= s[c] < 64 && 0 <= s[4 + c] < 64 && 0 <= s[8 + c] < 64 && 0 <= s[12 + c] < 64);
    halves(s[j] % 16, s[8 + j] % 16);
    assert(p[8 + c] == four_pairs(s[c] / 16, s[4 + c] / 16, s[8 + c] / 16, s[12 + c] / 16));
    pairs(s[c] / 16, s[4 + c] / 16, s[8 + c] / 16, s[12 + c] / 16);
    let r = k / 4;
    assert(k == 4 * r + c);
    assert(r == 0 || r == 1 || r == 2 || r == 3);
}

/// The third bits of 256 numbers in 32 bytes: bit `g` of byte `l` is that of number `32 * g + l`.
pub open spec fn third_bits(v: Seq<int>) -> Seq<u8> {
    Seq::new(32, |l: int| eight_bits(|g: int| v[32 * g + l] / 4))
}

/// A block of 256 weights of three bits: the third bits, the bit pairs, a scale of six bits for
/// each 16 of them, in which 32 stands for 0, and a scale; 4 stands for 0.
pub open spec fn q3_k_block(q: Seq<int>, sc: Seq<int>, d: u16) -> Seq<u8> {
    let v = q.map_values(|x: int| x + 4);
    third_bits(v) + pair_runs(v.map_values(|x: int| x % 4)) + sixteen_scales(
        sc.map_values(|x: int| x + 32),
    ) + le16_bytes(d)
}

#[verifier::spinoff_prover]
proof fn q3_k_term_unpacks(
    before: Seq<u8>,
    n: int,
    q: Seq<int>,
    sc: Seq<int>,
    d: u16,
    after: Seq<u8>,
    i: int,
)
    requires
        0 <= n,
        before.len() == 110 * n,
        within(q, 256, -4, 4),
        within(sc, 16, -32, 32),
        0 <= i < 256,
    ensures
        tensor_term(GgufGtype::Q3_K, before + q3_k_block(q, sc, d) + after, 256 * n + i) == (
        QuantTerm {
            d: widened(d) as u32,
            sc: sc[i / 16] as i32,
            q: q[i] as i32,
            dmin: 0,
            m: 0,
        }),
{
    let v = q.map_values(|x: int| x + 4);
    let w = v.map_values(|x: int| x % 4);
    let s = sc.map_values(|x: int| x + 32);
    let b = before + q3_k_block(q, sc, d) + after;
    let o = 110 * n;
    in_block(n, i, 256);
    assert(b.subrange(o + 108, o + 110) =~= le16_bytes(d));
    half_number(b, o + 108, d);
    let l = i % 32;
    assert(l == 16 * (i % 32 / 16) + i % 16);
    let bit = |g: int| v[32 * g + l] / 4;
    assert(b[o + l] == third_bits(v)[l]);
    assert forall|g: int| 0 <= g < 8 implies 0 <= #[trigger] bit(g) < 2 by {
        assert(-4 <= q[32 * g + l] < 4);
    }
    bits(bit, i / 32);
    assert(4 * (i / 128) + i % 128 / 32 == i / 32);
    assert(32 * (i / 32) + l == i);
    let j = 32 * (i / 128) + l;
    assert(b[o + 32 + j] == pair_runs(w)[j]);
    pair_runs_unpack(w, i);
    assert(-4 <= q[i] < 4 && v[i] == q[i] + 4 && w[i] == v[i] % 4);
    assert(b.subrange(o + 96, o + 108) =~= sixteen_scales(s));
    assert forall|k: int| 0 <= k < 16 implies 0 <= #[trigger] s[k] < 64 by {
        assert(-32 <= sc[k] < 32);
    }
    sixteen_scales_unpack(b, o + 96, s, i / 16);
    assert(8 * (i / 128) + 2 * (i % 128 / 32) + i % 32 / 16 == i / 16);
    assert(-32 <= sc[i / 16] < 32);
}

/// Each of its weights is its own number from -4 to 3, with the scale of its 16.
pub proof fn q3_k_unpacks(
    before: Seq<u8>,
    n: int,
    q: Seq<int>,
    sc: Seq<int>,
    d: u16,
    after: Seq<u8>,
    i: int,
)
    requires
        0 <= n,
        before.len() == 110 * n,
        within(q, 256, -4, 4),
        within(sc, 16, -32, 32),
        0 <= i < 256,
    ensures
        tensor_term(GgufGtype::Q3_K, before + q3_k_block(q, sc, d) + after, 256 * n + i) == (
        QuantTerm {
            d: widened(d) as u32,
            sc: sc[i / 16] as i32,
            q: q[i] as i32,
            dmin: 0,
            m: 0,
        }),
        weights_in(GgufGtype::Q3_K, (before + q3_k_block(q, sc, d) + after).len() as int)
            >= 256 * (n + 1),
        after.len() < 110 ==> weights_in(
            GgufGtype::Q3_K,
            (before + q3_k_block(q, sc, d) + after).len() as int,
        ) == 256 * (n + 1),
{
    q3_k_term_unpacks(before, n, q, sc, d, after, i);
    assert(q3_k_block(q, sc, d).len() == 110);
    assert((before + q3_k_block(q, sc, d) + after).len() == 110 * (n + 1) + after.len());
    weights_add_up(GgufGtype::Q3_K, n, after.len() as int);
}

} // verus!
