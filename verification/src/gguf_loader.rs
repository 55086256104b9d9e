//! Model files: their header, their tensor table, and the unpacking of quantized weights.
//!
//! A decoded weight is a product of a scale and small integers, less a product
//! for its minimum. The integers and the bit patterns of the scales are worked out
//! here; `QuantTerm` holds them, and whoever uses the weight multiplies.

use crate::bytes::{get_le16, get_le32, get_le64, le16, le32, le64};
use vstd::arithmetic::power2::{lemma2_to64, lemma_pow2_adds, pow2};
use vstd::prelude::*;
use vstd::utf8::{decode_utf8, encode_utf8, encode_utf8_decode_utf8, valid_utf8};

pub mod layout;
pub mod packing;

verus! {

/// "GGUF" in little-endian order.
pub const GGUF_MAGIC: u32 = 0x46554747;

/// How the weights of a tensor are stored.
#[allow(non_camel_case_types)]
#[derive(Debug, Clone, Copy, PartialEq, Eq, Structural)]
pub enum GgufGtype {
    F32,
    F16,
    Q4_0,
    Q4_1,
    Q8_0,
    Q2_K,
    Q3_K,
    Q4_K,
    Q5_K,
    Q6_K,
    Q8_K,
}

/// The number that stands for a storage type in a file.
pub open spec fn gtype_number(g: GgufGtype) -> int {
    match g {
        GgufGtype::F32 => 0,
        GgufGtype::F16 => 1,
        GgufGtype::Q4_0 => 2,
        GgufGtype::Q4_1 => 3,
        GgufGtype::Q8_0 => 8,
        GgufGtype::Q2_K => 10,
        GgufGtype::Q3_K => 11,
        GgufGtype::Q4_K => 12,
        GgufGtype::Q5_K => 13,
        GgufGtype::Q6_K => 14,
        GgufGtype::Q8_K => 15,
    }
}

/// A number that stands for some storage type.
pub open spec fn known_gtype(raw: int) -> bool {
    0 <= raw <= 3 || raw == 8 || 10 <= raw <= 15
}

impl GgufGtype {
    /// The storage type with this number.
    pub fn from_u32(raw: u32) -> (r: Result<GgufGtype, &'static str>)
        ensures
            known_gtype(raw as int) ==> (r matches Ok(g) && gtype_number(g) == raw),
            !known_gtype(raw as int) ==> r == Err::<GgufGtype, &'static str>(
                "GGUF: unknown tensor gtype",
            ),
    {
        match raw {
            0 => Ok(GgufGtype::F32),
            1 => Ok(GgufGtype::F16),
            2 => Ok(GgufGtype::Q4_0),
            3 => Ok(GgufGtype::Q4_1),
            8 => Ok(GgufGtype::Q8_0),
            10 => Ok(GgufGtype::Q2_K),
            11 => Ok(GgufGtype::Q3_K),
            12 => Ok(GgufGtype::Q4_K),
            13 => Ok(GgufGtype::Q5_K),
            14 => Ok(GgufGtype::Q6_K),
            15 => Ok(GgufGtype::Q8_K),
            _ => Err("GGUF: unknown tensor gtype"),
        }
    }
}

/// Different storage types have different numbers, all of them known.
pub proof fn gtype_numbers_differ(a: GgufGtype, b: GgufGtype)
    ensures
        known_gtype(gtype_number(a)),
        gtype_number(a) == gtype_number(b) ==> a == b,
{
}

/// An entry of the tensor table.
pub struct GgufTensorInfo {
    pub name: String,
    pub dimensions: [usize; 2],
    pub gtype: GgufGtype,
    pub offset: usize,
}

/// `std::str::from_utf8`: a string with exactly these bytes if they are valid UTF-8,
/// and an error otherwise.
#[verifier::external_body]
fn utf8_text(bytes: &[u8]) -> (r: Option<&str>)
    ensures
        r is Some <==> valid_utf8(bytes@),
        r matches Some(s) ==> encode_utf8(s@) == bytes@,
{
    match std::str::from_utf8(bytes) {
        Ok(s) => Some(s),
        Err(_) => None,
    }
}

/// What is wrong with the tensor entry at the start of `b`, if anything is.
pub open spec fn info_error(b: Seq<u8>) -> Option<&'static str> {
    let name_len = le32(b, 0);
    if b.len() < 4 {
        Some("GGUF: tensor-info buffer too small for name length")
    } else if b.len() < 4 + name_len + 16 {
        Some("GGUF: tensor-info buffer too small for name + fields")
    } else if !valid_utf8(b.subrange(4, 4 + name_len)) {
        Some("GGUF: tensor name is not valid UTF-8")
    } else if !known_gtype(le32(b, 4 + name_len + 8)) {
        Some("GGUF: unknown tensor gtype")
    } else {
        None
    }
}

/// The number of bytes of the tensor entry at the start of `b`: a length, the name,
/// and four numbers.
pub open spec fn info_len(b: Seq<u8>) -> int {
    4 + le32(b, 0) + 16
}

/// `info` is the tensor entry at the start of `b`.
pub open spec fn is_info(info: GgufTensorInfo, b: Seq<u8>) -> bool {
    let at = 4 + le32(b, 0);
    &&& info.name@ == decode_utf8(b.subrange(4, at))
    &&& info.dimensions@ == seq![le32(b, at) as usize, le32(b, at + 4) as usize]
    &&& gtype_number(info.gtype) == le32(b, at + 8)
    &&& info.offset == le32(b, at + 12)
}

impl GgufTensorInfo {
    /// Reads the tensor entry at the start of `bytes`. The entry, and how many bytes it
    /// takes.
    pub fn parse(bytes: &[u8]) -> (r: Result<(GgufTensorInfo, usize), &'static str>)
        ensures
            match info_error(bytes@) {
                Some(m) => r == Err::<(GgufTensorInfo, usize), &'static str>(m),
                None => r matches Ok(got) && is_info(got.0, bytes@) && got.1 == info_len(bytes@)
                    && got.1 <= bytes.len(),
            },
    {
        if bytes.len() < 4 {
            return Err("GGUF: tensor-info buffer too small for name length");
        }
        let name_len: u32 = get_le32(bytes, 0);
        if (bytes.len() as u64) < 4 + name_len as u64 + 16 {
            return Err("GGUF: tensor-info buffer too small for name + fields");
        }
        let at: usize = 4 + name_len as usize;
        let name_bytes = vstd::slice::slice_subrange(bytes, 4, at);
        let name: &str = match utf8_text(name_bytes) {
            Some(s) => s,
            None => {
                return Err("GGUF: tensor name is not valid UTF-8");
            },
        };
        let dim0: usize = get_le32(bytes, at) as usize;
        let dim1: usize = get_le32(bytes, at + 4) as usize;
        let gtype = match GgufGtype::from_u32(get_le32(bytes, at + 8)) {
            Ok(g) => g,
            Err(e) => {
                return Err(e);
            },
        };
        let offset: usize = get_le32(bytes, at + 12) as usize;
        proof {
            encode_utf8_decode_utf8(name@);
        }
        let info = GgufTensorInfo {
            name: name.to_owned(),
            dimensions: [dim0, dim1],
            gtype,
            offset,
        };
        assert(info.dimensions@ =~= seq![dim0, dim1]);
        Ok((info, at + 16))
    }

    /// Reads `count` tensor entries in a row. The entries, and how many bytes they take
    /// together.
    pub fn parse_many(bytes: &[u8], count: usize) -> (r: Result<
        (Vec<GgufTensorInfo>, usize),
        &'static str,
    >)
        ensures
            match infos_end(bytes@, 0, count as nat) {
                Err(m) => r == Err::<(Vec<GgufTensorInfo>, usize), &'static str>(m),
                Ok(end) => r matches Ok(got) && got.1 == end && got.1 == info_start(
                    bytes@,
                    count as nat,
                ) && got.1 <= bytes.len() && got.0@.len() == count && forall|
                    i: int,
                |
                    0 <= i < count ==> is_info(
                        #[trigger] got.0@[i],
                        bytes@.skip(info_start(bytes@, i as nat)),
                    ),
            },
    {
        let mut infos: Vec<GgufTensorInfo> = Vec::new();
        let mut offset: usize = 0;
        let mut n: usize = 0;
        while n < count
            invariant
                n <= count,
                offset <= bytes.len(),
                infos@.len() == n,
                offset == info_start(bytes@, n as nat),
                infos_end(bytes@, 0, count as nat) == infos_end(
                    bytes@,
                    offset as int,
                    (count - n) as nat,
                ),
                forall|i: int|
                    0 <= i < n ==> is_info(
                        #[trigger] infos@[i],
                        bytes@.skip(info_start(bytes@, i as nat)),
                    ),
            decreases count - n,
        {
            let rest = vstd::slice::slice_subrange(bytes, offset, bytes.len());
            assert(rest@ =~= bytes@.skip(offset as int));
            match GgufTensorInfo::parse(rest) {
                Ok((info, consumed)) => {
                    infos.push(info);
                    offset = offset + consumed;
                },
                Err(e) => {
                    return Err(e);
                },
            }
            n = n + 1;
        }
        Ok((infos, offset))
    }
}

/// Where tensor entry number `n` of a table starts.
pub open spec fn info_start(b: Seq<u8>, n: nat) -> int
    decreases n,
{
    if n == 0 {
        0
    } else {
        let before = info_start(b, (n - 1) as nat);
        before + info_len(b.skip(before))
    }
}

/// Where `count` tensor entries from offset `at` on end, or what is wrong with one of them.
pub open spec fn infos_end(b: Seq<u8>, at: int, count: nat) -> Result<int, &'static str>
    decreases count,
{
    if count == 0 {
        Ok(at)
    } else {
        match info_error(b.skip(at)) {
            Some(m) => Err(m),
            None => infos_end(b, at + info_len(b.skip(at)), (count - 1) as nat),
        }
    }
}

/// A 10-bit mantissa shifted left until its leading bit is in place, and by how much.
pub open spec fn normalized(m: int, k: int) -> (int, int)
    decreases 2048 - m,
{
    if m <= 0 || m >= 1024 {
        (m, k)
    } else {
        normalized(2 * m, k + 1)
    }
}

/// The single-precision bit pattern with the value of the half-precision number `bits`.
pub open spec fn widened(bits: u16) -> int {
    let sign = bits / 32768;
    let e = bits as int / 1024 % 32;
    let m = bits as int % 1024;
    let (exponent, mantissa) = if e == 0 && m == 0 {
        (0int, 0int)
    } else if e == 0 {
        let (n, k) = normalized(m, 0);
        (113 - k, (n - 1024) * 8192)
    } else if e == 31 {
        (255int, m * 8192)
    } else {
        (e + 112, m * 8192)
    };
    sign * 0x8000_0000 + exponent * 0x80_0000 + mantissa
}

/// The bit pattern of the single-precision number with the value of the half-precision
/// number `bits`. A number too small to be normal in half precision is normal in single
/// precision.
pub fn f16_to_f32(bits: u16) -> (r: u32)
    ensures
        r == widened(bits),
{
    let sign: u32 = bits as u32 / 32768;
    let exp16: u32 = bits as u32 / 1024 % 32;
    let mant16: u32 = bits as u32 % 1024;
    let mut exp32: u32 = 0;
    let mut mant32: u32 = 0;
    if exp16 == 0 {
        if mant16 != 0 {
            let mut m: u32 = mant16;
            let mut e: u32 = 113;
            while m < 1024
                invariant
                    0 < m < 2048,
                    103 <= e <= 113,
                    m >= small_floor(e as int),
                    normalized(mant16 as int, 0) == normalized(m as int, 113 - e),
                decreases 2048 - m,
            {
                m = m * 2;
                e = e - 1;
            }
            exp32 = e;
            mant32 = (m - 1024) * 8192;
        }
    } else if exp16 == 31 {
        exp32 = 255;
        mant32 = mant16 * 8192;
    } else {
        exp32 = exp16 + 112;
        mant32 = mant16 * 8192;
    }
    sign * 0x8000_0000 + exp32 * 0x80_0000 + mant32
}

/// The least a mantissa can be after it was shifted so often.
spec fn small_floor(e: int) -> int {
    if e >= 113 {
        1
    } else if e == 112 {
        2
    } else if e == 111 {
        4
    } else if e == 110 {
        8
    } else if e == 109 {
        16
    } else if e == 108 {
        32
    } else if e == 107 {
        64
    } else if e == 106 {
        128
    } else if e == 105 {
        256
    } else if e == 104 {
        512
    } else {
        1024
    }
}

/// The value of a finite half-precision number, without its sign, in units of 2^-24.
pub open spec fn half_magnitude(bits: u16) -> int {
    let e = bits as int / 1024 % 32;
    let m = bits as int % 1024;
    if e == 0 {
        m
    } else {
        (1024 + m) * pow2((e - 1) as nat)
    }
}

/// Shifting keeps the product of the mantissa and the power of two.
proof fn normalized_value(m: int, k: int)
    requires
        0 < m < 2048,
        0 <= k,
        m * pow2((10 - k) as nat) <= 2048 * 1024,
        k <= 10,
        m >= small_floor(113 - k),
    ensures
        ({
            let (n, j) = normalized(m, k);
            &&& 1024 <= n < 2048
            &&& k <= j <= 10
            &&& n * pow2((10 - j) as nat) == m * pow2((10 - k) as nat)
        }),
    decreases 2048 - m,
{
    lemma2_to64();
    if m < 1024 {
        assert(k < 10);
        lemma_pow2_adds((10 - k - 1) as nat, 1);
        let p = pow2((10 - k - 1) as nat) as int;
        assert(pow2((10 - k) as nat) == p * 2);
        assert(2 * m * p == m * (p * 2)) by (nonlinear_arith);
        normalized_value(2 * m, k + 1);
    }
}

/// Widening keeps the value of every finite number but zero: its significand of 24
/// bits, times the power of two that its exponent stands for, is the same number.
pub proof fn widening_keeps_value(bits: u16)
    requires
        bits / 1024 % 32 != 31,
        bits % 0x8000 != 0,
    ensures
        ({
            let exponent = widened(bits) / 0x80_0000 % 256;
            let mantissa = widened(bits) % 0x80_0000;
            &&& 103 <= exponent < 255
            &&& (0x80_0000 + mantissa) * pow2((exponent - 103) as nat) == half_magnitude(bits) * pow2(
                23,
            )
            &&& widened(bits) / 0x8000_0000 == bits / 0x8000
        }),
{
    let sign = bits as int / 32768;
    let e = bits as int / 1024 % 32;
    let m = bits as int % 1024;
    lemma2_to64();
    if e == 0 {
        assert(m > 0);
        assert(m * pow2(10) <= 2048 * 1024) by (nonlinear_arith)
            requires
                m <= 1023,
                pow2(10) == 1024,
        ;
        normalized_value(m, 0);
        let (n, k) = normalized(m, 0);
        widened_fields(sign, 113 - k, (n - 1024) * 8192, widened(bits));
        let p = pow2((10 - k) as nat) as int;
        assert(8192 * n * p == m * 1024 * 8192) by (nonlinear_arith)
            requires
                n * p == m * 1024,
        ;
    } else {
        widened_fields(sign, e + 112, m * 8192, widened(bits));
        lemma_pow2_adds((e - 1) as nat, 10);
        let p = pow2((e - 1) as nat) as int;
        assert(pow2((e + 9) as nat) == p * 1024);
        assert((1024 + m) * 8192 * (p * 1024) == (1024 + m) * p * 0x80_0000) by (nonlinear_arith);
    }
}

/// A widened number has 32 bits, and the fields of one that is not finite are in place.
pub proof fn widening_in_range(bits: u16)
    ensures
        0 <= widened(bits) <= u32::MAX,
        bits / 1024 % 32 == 31 ==> {
            &&& widened(bits) / 0x80_0000 % 256 == 255
            &&& widened(bits) / 0x8000_0000 == bits / 0x8000
            &&& widened(bits) % 0x80_0000 == (bits % 1024) * 0x2000
        },
{
    let sign = bits as int / 32768;
    let e = bits as int / 1024 % 32;
    let m = bits as int % 1024;
    if e == 31 {
        widened_fields(sign, 255, m * 8192, widened(bits));
    } else if e == 0 && m != 0 {
        lemma2_to64();
        assert(m * pow2(10) <= 2048 * 1024) by (nonlinear_arith)
            requires
                m <= 1023,
                pow2(10) == 1024,
        ;
        normalized_value(m, 0);
    }
}

proof fn widened_fields(sign: int, exponent: int, mantissa: int, w: int)
    requires
        0 <= sign <= 1,
        0 <= exponent < 256,
        0 <= mantissa < 0x80_0000,
        w == sign * 0x8000_0000 + exponent * 0x80_0000 + mantissa,
    ensures
        w / 0x80_0000 % 256 == exponent,
        w % 0x80_0000 == mantissa,
        w / 0x8000_0000 == sign,
{
    let high = sign * 256 + exponent;
    assert(w == high * 0x80_0000 + mantissa);
    assert(w / 0x80_0000 == high && w % 0x80_0000 == mantissa);
    assert(high % 256 == exponent);
    let low = exponent * 0x80_0000 + mantissa;
    assert(w == sign * 0x8000_0000 + low && 0 <= low < 0x8000_0000);
}

/// The 6-bit scale and the 6-bit minimum number `j` in twelve packed bytes: those of
/// the first four have bytes of their own, and those of the last four are put
/// together from a half byte and the top two bits of another byte.
pub open spec fn scale_min(j: int, q: Seq<u8>) -> (int, int) {
    if j < 4 {
        (q[j] as int % 64, q[j + 4] as int % 64)
    } else {
        (
            q[j + 4] as int % 16 + q[j - 4] as int / 64 * 16,
            q[j + 4] as int / 16 + q[j] as int / 64 * 16,
        )
    }
}

pub fn get_scale_min_k4(j: usize, q: &[u8]) -> (r: (u8, u8))
    requires
        j + 4 < q.len(),
    ensures
        r.0 == scale_min(j as int, q@).0,
        r.1 == scale_min(j as int, q@).1,
        r.0 < 64,
        r.1 < 64,
{
    if j < 4 {
        (q[j] % 64, q[j + 4] % 64)
    } else {
        let d: u8 = q[j + 4] % 16 + q[j - 4] / 64 * 16;
        let m: u8 = q[j + 4] / 16 + q[j] / 64 * 16;
        (d, m)
    }
}

/// The twelve bytes that pack eight scales and eight minima.
pub open spec fn packed_scales(sc: Seq<int>, m: Seq<int>) -> Seq<u8> {
    Seq::new(
        12,
        |i: int|
            if i < 4 {
                (sc[i] + sc[i + 4] / 16 * 64) as u8
            } else if i < 8 {
                (m[i - 4] + m[i] / 16 * 64) as u8
            } else {
                (sc[i - 4] % 16 + m[i - 4] % 16 * 16) as u8
            },
    )
}

/// Six bits below two others.
proof fn six_bits_below(low: int, high: int)
    requires
        0 <= low < 64,
        0 <= high < 64,
    ensures
        0 <= low + high / 16 * 64 < 256,
        (low + high / 16 * 64) % 64 == low,
        (low + high / 16 * 64) / 64 == high / 16,
{
    let h = high / 16;
    assert(0 <= h < 4);
    assert(low + h * 64 == 64 * h + low);
}

/// Two half bytes.
proof fn half_bytes(low: int, high: int)
    requires
        0 <= low < 64,
        0 <= high < 64,
    ensures
        0 <= low % 16 + high % 16 * 16 < 256,
        (low % 16 + high % 16 * 16) % 16 == low % 16,
        (low % 16 + high % 16 * 16) / 16 == high % 16,
{
    let l = low % 16;
    let h = high % 16;
    assert(0 <= l < 16 && 0 <= h < 16);
    assert(l + h * 16 == 16 * h + l);
}

/// Scales and minima that were packed are unpacked again.
pub proof fn scales_unpack(sc: Seq<int>, m: Seq<int>, j: int)
    requires
        sc.len() == 8,
        m.len() == 8,
        forall|i: int| 0 <= i < 8 ==> 0 <= #[trigger] sc[i] < 64,
        forall|i: int| 0 <= i < 8 ==> 0 <= #[trigger] m[i] < 64,
        0 <= j < 8,
    ensures
        scale_min(j, packed_scales(sc, m)) == (sc[j], m[j]),
{
    let q = packed_scales(sc, m);
    assert(0 <= sc[j] < 64 && 0 <= m[j] < 64);
    if j < 4 {
        six_bits_below(sc[j], sc[j + 4]);
        six_bits_below(m[j], m[j + 4]);
        assert(q[j] == sc[j] + sc[j + 4] / 16 * 64);
        assert(q[j + 4] == m[j] + m[j + 4] / 16 * 64);
    } else {
        six_bits_below(sc[j - 4], sc[j]);
        six_bits_below(m[j - 4], m[j]);
        half_bytes(sc[j], m[j]);
        assert(q[j + 4] == sc[j] % 16 + m[j] % 16 * 16);
        assert(q[j - 4] == sc[j - 4] + sc[j] / 16 * 64);
        assert(q[j] == m[j - 4] + m[j] / 16 * 64);
    }
}

/// A weight before it is multiplied out. It is the number with the bit pattern `d`, times
/// `sc`, times `q`, less the number with the bit pattern `dmin`, times `m`.
#[derive(Debug, Clone, Copy, PartialEq, Eq, Structural)]
pub struct QuantTerm {
    pub d: u32,
    pub sc: i32,
    pub q: i32,
    pub dmin: u32,
    pub m: i32,
}

/// What a model file says about itself in its first 24 bytes.
#[derive(Debug)]
pub struct GgufModelLoader {
    pub magic: u32,
    pub version: u32,
    pub tensor_count: usize,
    pub kv_count: usize,
    pub architecture: &'static str,
    pub context_length: usize,
    pub embedding_length: usize,
}

/// A byte as a signed number.
pub open spec fn signed(b: u8) -> int {
    if b < 128 {
        b as int
    } else {
        b - 256
    }
}

fn to_signed(b: u8) -> (r: i32)
    ensures
        r == signed(b),
{
    if b < 128 {
        b as i32
    } else {
        b as i32 - 256
    }
}

/// Two bits of a byte: those above the lowest `2 * j`.
pub open spec fn two_bits(b: u8, j: int) -> int {
    if j == 0 {
        b as int % 4
    } else if j == 1 {
        b as int / 4 % 4
    } else if j == 2 {
        b as int / 16 % 4
    } else {
        b as int / 64
    }
}

fn get_two_bits(b: u8, j: usize) -> (r: u8)
    ensures
        r == two_bits(b, j as int),
        r < 4,
{
    if j == 0 {
        b % 4
    } else if j == 1 {
        b / 4 % 4
    } else if j == 2 {
        b / 16 % 4
    } else {
        b / 64
    }
}

/// Bit `k` of a byte.
pub open spec fn one_bit(b: u8, k: int) -> int {
    two_bits(b, k / 2) / (if k % 2 == 0 { 1 } else { 2 }) % 2
}

fn get_one_bit(b: u8, k: usize) -> (r: u8)
    ensures
        r == one_bit(b, k as int),
        r < 2,
{
    let pair: u8 = get_two_bits(b, k / 2);
    if k % 2 == 0 {
        pair % 2
    } else {
        pair / 2 % 2
    }
}

/// Scale number `k` of the sixteen 6-bit scales packed in the twelve bytes from `at` on:
/// a half byte, and a bit pair of the last four bytes.
pub open spec fn scale_3k(b: Seq<u8>, at: int, k: int) -> int {
    let byte = b[at + k % 8] as int;
    let half = if k < 8 {
        byte % 16
    } else {
        byte / 16
    };
    half + 16 * two_bits(b[at + 8 + k % 4], k / 4)
}

fn get_scale_3k(b: &[u8], at: usize, k: usize) -> (r: u8)
    requires
        at + 12 <= b.len(),
        k < 16,
    ensures
        r == scale_3k(b@, at as int, k as int),
        r < 64,
{
    let byte: u8 = b[at + k % 8];
    let half: u8 = if k < 8 {
        byte % 16
    } else {
        byte / 16
    };
    half + 16 * get_two_bits(b[at + 8 + k % 4], k / 4)
}

/// Value `i` of the Q8_0 block at offset `o`: a scale in half precision and 32 signed bytes.
pub open spec fn q8_0_term(b: Seq<u8>, o: int, i: int) -> QuantTerm {
    QuantTerm {
        d: widened(le16(b, o) as u16) as u32,
        sc: 1,
        q: signed(b[o + 2 + i]) as i32,
        dmin: 0,
        m: 0,
    }
}

fn q8_0_value(b: &[u8], o: usize, i: usize) -> (t: QuantTerm)
    requires
        o + 34 <= b.len(),
        i < 32,
    ensures
        t == q8_0_term(b@, o as int, i as int),
{
    QuantTerm {
        d: f16_to_f32(get_le16(b, o)),
        sc: 1,
        q: to_signed(b[o + 2 + i]),
        dmin: 0,
        m: 0,
    }
}

/// Value `i` of the Q4_0 block at offset `o`: a scale in half precision and 32 half bytes,
/// of which 8 stands for 0: the low halves come first.
pub open spec fn q4_0_term(b: Seq<u8>, o: int, i: int) -> QuantTerm {
    QuantTerm {
        d: widened(le16(b, o) as u16) as u32,
        sc: 1,
        q: if i < 16 {
            b[o + 2 + i] as int % 16 - 8
        } else {
            b[o + 2 + i - 16] as int / 16 - 8
        } as i32,
        dmin: 0,
        m: 0,
    }
}

fn q4_0_value(b: &[u8], o: usize, i: usize) -> (t: QuantTerm)
    requires
        o + 18 <= b.len(),
        i < 32,
    ensures
        t == q4_0_term(b@, o as int, i as int),
{
    QuantTerm {
        d: f16_to_f32(get_le16(b, o)),
        sc: 1,
        q: if i < 16 {
            b[o + 2 + i] as i32 % 16 - 8
        } else {
            b[o + (i - 14)] as i32 / 16 - 8
        },
        dmin: 0,
        m: 0,
    }
}

/// Value `i` of the Q4_1 block at offset `o`: a scale and a minimum in half precision and 32 half
/// bytes. The minimum is added.
pub open spec fn q4_1_term(b: Seq<u8>, o: int, i: int) -> QuantTerm {
    QuantTerm {
        d: widened(le16(b, o) as u16) as u32,
        sc: 1,
        q: if i < 16 {
            b[o + 4 + i] as int % 16
        } else {
            b[o + 4 + i - 16] as int / 16
        } as i32,
        dmin: widened(le16(b, o + 2) as u16) as u32,
        m: -1i32,
    }
}

fn q4_1_value(b: &[u8], o: usize, i: usize) -> (t: QuantTerm)
    requires
        o + 20 <= b.len(),
        i < 32,
    ensures
        t == q4_1_term(b@, o as int, i as int),
{
    QuantTerm {
        d: f16_to_f32(get_le16(b, o)),
        sc: 1,
        q: if i < 16 {
            b[o + 4 + i] as i32 % 16
        } else {
            b[o + (i - 12)] as i32 / 16
        },
        dmin: f16_to_f32(get_le16(b, o + 2)),
        m: -1,
    }
}

/// Value `i` of the Q4_K block at offset `o`: a scale and a minimum in half precision,
/// eight packed scales and minima, and 256 half bytes.
pub open spec fn q4_k_term(b: Seq<u8>, o: int, i: int) -> QuantTerm {
    let chunk = i / 64;
    let high = i % 64 / 32;
    let byte = b[o + 16 + 32 * chunk + i % 32] as int;
    let (sc, m) = scale_min(2 * chunk + high, b.subrange(o + 4, o + 16));
    QuantTerm {
        d: widened(le16(b, o) as u16) as u32,
        sc: sc as i32,
        q: if high == 0 {
            byte % 16
        } else {
            byte / 16
        } as i32,
        dmin: widened(le16(b, o + 2) as u16) as u32,
        m: m as i32,
    }
}

fn q4_k_value(b: &[u8], o: usize, i: usize) -> (t: QuantTerm)
    requires
        o + 144 <= b.len(),
        i < 256,
    ensures
        t == q4_k_term(b@, o as int, i as int),
{
    let chunk: usize = i / 64;
    let high: usize = i % 64 / 32;
    let byte: u8 = b[o + 16 + 32 * chunk + i % 32];
    let (sc, m): (u8, u8) = get_scale_min_k4(
        2 * chunk + high,
        vstd::slice::slice_subrange(b, o + 4, o + 16),
    );
    QuantTerm {
        d: f16_to_f32(get_le16(b, o)),
        sc: sc as i32,
        q: if high == 0 {
            byte as i32 % 16
        } else {
            byte as i32 / 16
        },
        dmin: f16_to_f32(get_le16(b, o + 2)),
        m: m as i32,
    }
}

/// Value `i` of the Q5_K block at offset `o`: a scale and a minimum in half precision,
/// eight packed scales and minima, 32 bytes of fifth bits, and 256 half bytes.
pub open spec fn q5_k_term(b: Seq<u8>, o: int, i: int) -> QuantTerm {
    let chunk = i / 64;
    let high = i % 64 / 32;
    let l = i % 32;
    let byte = b[o + 48 + 32 * chunk + l] as int;
    let fifth = one_bit(b[o + 16 + l], 2 * chunk + high);
    let (sc, m) = scale_min(2 * chunk + high, b.subrange(o + 4, o + 16));
    QuantTerm {
        d: widened(le16(b, o) as u16) as u32,
        sc: sc as i32,
        q: (if high == 0 {
            byte % 16
        } else {
            byte / 16
        } + 16 * fifth) as i32,
        dmin: widened(le16(b, o + 2) as u16) as u32,
        m: m as i32,
    }
}

fn q5_k_value(b: &[u8], o: usize, i: usize) -> (t: QuantTerm)
    requires
        o + 176 <= b.len(),
        i < 256,
    ensures
        t == q5_k_term(b@, o as int, i as int),
{
    let chunk: usize = i / 64;
    let high: usize = i % 64 / 32;
    let l: usize = i % 32;
    let byte: u8 = b[o + 48 + 32 * chunk + l];
    let fifth: u8 = get_one_bit(b[o + 16 + l], 2 * chunk + high);
    let (sc, m): (u8, u8) = get_scale_min_k4(
        2 * chunk + high,
        vstd::slice::slice_subrange(b, o + 4, o + 16),
    );
    let half: i32 = if high == 0 {
        byte as i32 % 16
    } else {
        byte as i32 / 16
    };
    QuantTerm {
        d: f16_to_f32(get_le16(b, o)),
        sc: sc as i32,
        q: half + 16 * (fifth as i32),
        dmin: f16_to_f32(get_le16(b, o + 2)),
        m: m as i32,
    }
}

/// Value `i` of the Q6_K block at offset `o`: 128 bytes of low half bytes, 64 bytes of high
/// bit pairs, 16 signed scales, and a scale in half precision; of the six bits 32 stands
/// for 0.
pub open spec fn q6_k_term(b: Seq<u8>, o: int, i: int) -> QuantTerm {
    let part = i / 128;
    let quarter = i % 128 / 32;
    let l = i % 32;
    let byte = b[o + 64 * part + l + 32 * (quarter % 2)] as int;
    let pair = two_bits(b[o + 128 + 32 * part + l], quarter);
    QuantTerm {
        d: widened(le16(b, o + 208) as u16) as u32,
        sc: signed(b[o + 192 + 8 * part + l / 16 + 2 * quarter]) as i32,
        q: (if quarter < 2 {
            byte % 16
        } else {
            byte / 16
        } + 16 * pair - 32) as i32,
        dmin: 0,
        m: 0,
    }
}

fn q6_k_value(b: &[u8], o: usize, i: usize) -> (t: QuantTerm)
    requires
        o + 210 <= b.len(),
        i < 256,
    ensures
        t == q6_k_term(b@, o as int, i as int),
{
    let part: usize = i / 128;
    let quarter: usize = i % 128 / 32;
    let l: usize = i % 32;
    let byte: u8 = b[o + 64 * part + l + 32 * (quarter % 2)];
    let pair: u8 = get_two_bits(b[o + 128 + 32 * part + l], quarter);
    let half: i32 = if quarter < 2 {
        byte as i32 % 16
    } else {
        byte as i32 / 16
    };
    QuantTerm {
        d: f16_to_f32(get_le16(b, o + 208)),
        sc: to_signed(b[o + 192 + 8 * part + l / 16 + 2 * quarter]),
        q: half + 16 * (pair as i32) - 32,
        dmin: 0,
        m: 0,
    }
}

/// Value `i` of the Q8_K block at offset `o`: a scale in single precision, 256 signed
/// bytes, and 32 bytes that are not needed.
pub open spec fn q8_k_term(b: Seq<u8>, o: int, i: int) -> QuantTerm {
    QuantTerm {
        d: le32(b, o) as u32,
        sc: 1,
        q: signed(b[o + 4 + i]) as i32,
        dmin: 0,
        m: 0,
    }
}

fn q8_k_value(b: &[u8], o: usize, i: usize) -> (t: QuantTerm)
    requires
        o + 292 <= b.len(),
        i < 256,
    ensures
        t == q8_k_term(b@, o as int, i as int),
{
    QuantTerm {
        d: get_le32(b, o),
        sc: 1,
        q: to_signed(b[o + 4 + i]),
        dmin: 0,
        m: 0,
    }
}

/// Value `i` of the Q2_K block at offset `o`: 16 scales and minima in half bytes, 64 bytes
/// of bit pairs, and a scale and a minimum in half precision.
pub open spec fn q2_k_term(b: Seq<u8>, o: int, i: int) -> QuantTerm {
    let part = i / 128;
    let j = i % 128 / 32;
    let side = i % 32 / 16;
    let l = i % 16;
    let sc = b[o + 8 * part + 2 * j + side] as int;
    QuantTerm {
        d: widened(le16(b, o + 80) as u16) as u32,
        sc: (sc % 16) as i32,
        q: two_bits(b[o + 16 + 32 * part + 16 * side + l], j) as i32,
        dmin: widened(le16(b, o + 82) as u16) as u32,
        m: (sc / 16) as i32,
    }
}

fn q2_k_value(b: &[u8], o: usize, i: usize) -> (t: QuantTerm)
    requires
        o + 84 <= b.len(),
        i < 256,
    ensures
        t == q2_k_term(b@, o as int, i as int),
{
    let part: usize = i / 128;
    let j: usize = i % 128 / 32;
    let side: usize = i % 32 / 16;
    let l: usize = i % 16;
    let sc: u8 = b[o + 8 * part + 2 * j + side];
    QuantTerm {
        d: f16_to_f32(get_le16(b, o + 80)),
        sc: sc as i32 % 16,
        q: get_two_bits(b[o + 16 + 32 * part + 16 * side + l], j) as i32,
        dmin: f16_to_f32(get_le16(b, o + 82)),
        m: sc as i32 / 16,
    }
}

/// Value `i` of the Q3_K block at offset `o`: 32 bytes of third bits, 64 bytes of bit
/// pairs, 16 packed scales, and a scale in half precision; a third bit that is not set
/// takes 4 away.
pub open spec fn q3_k_term(b: Seq<u8>, o: int, i: int) -> QuantTerm {
    let part = i / 128;
    let j = i % 128 / 32;
    let side = i % 32 / 16;
    let l = i % 16;
    let third = one_bit(b[o + 16 * side + l], 4 * part + j);
    QuantTerm {
        d: widened(le16(b, o + 108) as u16) as u32,
        sc: (scale_3k(b, o + 96, 8 * part + 2 * j + side) - 32) as i32,
        q: (two_bits(b[o + 32 + 32 * part + 16 * side + l], j) - (if third == 1 {
            0
        } else {
            4int
        })) as i32,
        dmin: 0,
        m: 0,
    }
}

fn q3_k_value(b: &[u8], o: usize, i: usize) -> (t: QuantTerm)
    requires
        o + 110 <= b.len(),
        i < 256,
    ensures
        t == q3_k_term(b@, o as int, i as int),
{
    let part: usize = i / 128;
    let j: usize = i % 128 / 32;
    let side: usize = i % 32 / 16;
    let l: usize = i % 16;
    let third: u8 = get_one_bit(b[o + 16 * side + l], 4 * part + j);
    let pair: u8 = get_two_bits(b[o + 32 + 32 * part + 16 * side + l], j);
    let missing: i32 = if third == 1 {
        0
    } else {
        4
    };
    QuantTerm {
        d: f16_to_f32(get_le16(b, o + 108)),
        sc: get_scale_3k(b, o + 96, 8 * part + 2 * j + side) as i32 - 32,
        q: pair as i32 - missing,
        dmin: 0,
        m: 0,
    }
}

/// The block that value `k` is in, of those that fit in so many bytes, is one of them.
proof fn block_inside(len: int, size: int, count: int, k: int)
    requires
        size > 0,
        count > 0,
        0 <= len,
        0 <= k < len / size * count,
    ensures
        0 <= size * (k / count),
        size * (k / count) + size <= len,
        0 <= k % count < count,
{
    let blocks = len / size;
    let block = k / count;
    assert(size * blocks <= len) by (nonlinear_arith)
        requires
            size > 0,
            blocks == len / size,
    ;
    assert(0 <= block < blocks && 0 <= k % count < count) by (nonlinear_arith)
        requires
            count > 0,
            0 <= k < blocks * count,
            block == k / count,
    ;
    assert(0 <= size * block && size * block + size <= size * blocks) by (nonlinear_arith)
        requires
            size > 0,
            0 <= block < blocks,
    ;
}

/// What the header of a model file says, or what is wrong with it.
pub open spec fn header_of(b: Seq<u8>) -> Result<GgufModelLoader, &'static str> {
    if b.len() < 24 {
        Err("Header buffer too small")
    } else if le32(b, 0) != GGUF_MAGIC {
        Err("Invalid GGUF Magic Header (expected 'GGUF')")
    } else {
        Ok(
            GgufModelLoader {
                magic: GGUF_MAGIC,
                version: le32(b, 4) as u32,
                tensor_count: le64(b, 8) as usize,
                kv_count: le64(b, 16) as usize,
                architecture: "llama",
                context_length: 4096,
                embedding_length: 2048,
            },
        )
    }
}

impl GgufModelLoader {
    /// Reads the header of a model file.
    pub fn parse_header(bytes: &[u8]) -> (r: Result<GgufModelLoader, &'static str>)
        ensures
            r == header_of(bytes@),
    {
        if bytes.len() < 24 {
            return Err("Header buffer too small");
        }
        let magic: u32 = get_le32(bytes, 0);
        if magic != GGUF_MAGIC {
            return Err("Invalid GGUF Magic Header (expected 'GGUF')");
        }
        Ok(
            GgufModelLoader {
                magic,
                version: get_le32(bytes, 4),
                tensor_count: get_le64(bytes, 8) as usize,
                kv_count: get_le64(bytes, 16) as usize,
                architecture: "llama",
                context_length: 4096,
                embedding_length: 2048,
            },
        )
    }

    /// The bit patterns of single-precision weights. Bytes behind the last whole one are
    /// passed over.
    pub fn decode_f32_le(bytes: &[u8]) -> (values: Vec<u32>)
        ensures
            values@.len() == bytes.len() / 4,
            forall|k: int| 0 <= k < values@.len() ==> #[trigger] values@[k] == le32(bytes@, 4 * k),
    {
        let n: usize = bytes.len() / 4;
        let mut values: Vec<u32> = Vec::new();
        let mut k: usize = 0;
        while k < n
            invariant
                k <= n,
                n == bytes.len() / 4,
                values@.len() == k,
                forall|j: int| 0 <= j < k ==> #[trigger] values@[j] == le32(bytes@, 4 * j),
            decreases n - k,
        {
            values.push(get_le32(bytes, 4 * k));
            k = k + 1;
        }
        values
    }

    /// The single-precision bit patterns of half-precision weights.
    pub fn decode_f16_le(bytes: &[u8]) -> (values: Vec<u32>)
        ensures
            values@.len() == bytes.len() / 2,
            forall|k: int|
                0 <= k < values@.len() ==> #[trigger] values@[k] == widened(
                    le16(bytes@, 2 * k) as u16,
                ),
    {
        let n: usize = bytes.len() / 2;
        let mut values: Vec<u32> = Vec::new();
        let mut k: usize = 0;
        while k < n
            invariant
                k <= n,
                n == bytes.len() / 2,
                values@.len() == k,
                forall|j: int|
                    0 <= j < k ==> #[trigger] values@[j] == widened(le16(bytes@, 2 * j) as u16),
            decreases n - k,
        {
            values.push(f16_to_f32(get_le16(bytes, 2 * k)));
            k = k + 1;
        }
        values
    }

    /// The weights in blocks of a scale and 32 signed bytes. Bytes behind the last whole
    /// block are passed over.
    pub fn decode_q8_0(bytes: &[u8]) -> (values: Vec<QuantTerm>)
        requires
            bytes.len() / 34 * 32 <= usize::MAX,
        ensures
            values@.len() == bytes.len() / 34 * 32,
            forall|k: int|
                0 <= k < values@.len() ==> #[trigger] values@[k] == q8_0_term(
                    bytes@,
                    34 * (k / 32),
                    k % 32,
                ),
    {
        let n: usize = bytes.len() / 34 * 32;
        let mut values: Vec<QuantTerm> = Vec::new();
        let mut k: usize = 0;
        while k < n
            invariant
                k <= n,
                n == bytes.len() / 34 * 32,
                values@.len() == k,
                forall|j: int|
                    0 <= j < k ==> #[trigger] values@[j] == q8_0_term(
                        bytes@,
                        34 * (j / 32),
                        j % 32,
                    ),
            decreases n - k,
        {
            proof {
                block_inside(bytes.len() as int, 34, 32, k as int);
            }
            values.push(q8_0_value(bytes, 34 * (k / 32), k % 32));
            k = k + 1;
        }
        values
    }

    /// The weights in blocks of a scale and 32 half bytes. Bytes behind the last whole
    /// block are passed over.
    pub fn decode_q4_0(bytes: &[u8]) -> (values: Vec<QuantTerm>)
        requires
            bytes.len() / 18 * 32 <= usize::MAX,
        ensures
            values@.len() == bytes.len() / 18 * 32,
            forall|k: int|
                0 <= k < values@.len() ==> #[trigger] values@[k] == q4_0_term(
                    bytes@,
                    18 * (k / 32),
                    k % 32,
                ),
    {
        let n: usize = bytes.len() / 18 * 32;
        let mut values: Vec<QuantTerm> = Vec::new();
        let mut k: usize = 0;
        while k < n
            invariant
                k <= n,
                n == bytes.len() / 18 * 32,
                values@.len() == k,
                forall|j: int|
                    0 <= j < k ==> #[trigger] values@[j] == q4_0_term(
                        bytes@,
                        18 * (j / 32),
                        j % 32,
                    ),
            decreases n - k,
        {
            proof {
                block_inside(bytes.len() as int, 18, 32, k as int);
            }
            values.push(q4_0_value(bytes, 18 * (k / 32), k % 32));
            k = k + 1;
        }
        values
    }

    /// The weights in blocks of a scale, a minimum and 32 half bytes. Bytes behind the last
    /// whole block are passed over.
    pub fn decode_q4_1(bytes: &[u8]) -> (values: Vec<QuantTerm>)
        requires
            bytes.len() / 20 * 32 <= usize::MAX,
        ensures
            values@.len() == bytes.len() / 20 * 32,
            forall|k: int|
                0 <= k < values@.len() ==> #[trigger] values@[k] == q4_1_term(
                    bytes@,
                    20 * (k / 32),
                    k % 32,
                ),
    {
        let n: usize = bytes.len() / 20 * 32;
        let mut values: Vec<QuantTerm> = Vec::new();
        let mut k: usize = 0;
        while k < n
            invariant
                k <= n,
                n == bytes.len() / 20 * 32,
                values@.len() == k,
                forall|j: int|
                    0 <= j < k ==> #[trigger] values@[j] == q4_1_term(
                        bytes@,
                        20 * (j / 32),
                        j % 32,
                    ),
            decreases n - k,
        {
            proof {
                block_inside(bytes.len() as int, 20, 32, k as int);
            }
            values.push(q4_1_value(bytes, 20 * (k / 32), k % 32));
            k = k + 1;
        }
        values
    }

    /// The weights of four bits in blocks of 256. Bytes behind the last whole block are
    /// passed over.
    pub fn decode_q4_k(bytes: &[u8]) -> (values: Vec<QuantTerm>)
        requires
            bytes.len() / 144 * 256 <= usize::MAX,
        ensures
            values@.len() == bytes.len() / 144 * 256,
            forall|k: int|
                0 <= k < values@.len() ==> #[trigger] values@[k] == q4_k_term(
                    bytes@,
                    144 * (k / 256),
                    k % 256,
                ),
    {
        let n: usize = bytes.len() / 144 * 256;
        let mut values: Vec<QuantTerm> = Vec::new();
        let mut k: usize = 0;
        while k < n
            invariant
                k <= n,
                n == bytes.len() / 144 * 256,
                values@.len() == k,
                forall|j: int|
                    0 <= j < k ==> #[trigger] values@[j] == q4_k_term(
                        bytes@,
                        144 * (j / 256),
                        j % 256,
                    ),
            decreases n - k,
        {
            proof {
                block_inside(bytes.len() as int, 144, 256, k as int);
            }
            values.push(q4_k_value(bytes, 144 * (k / 256), k % 256));
            k = k + 1;
        }
        values
    }

    /// The weights of five bits in blocks of 256. Bytes behind the last whole block are
    /// passed over.
    pub fn decode_q5_k(bytes: &[u8]) -> (values: Vec<QuantTerm>)
        requires
            bytes.len() / 176 * 256 <= usize::MAX,
        ensures
            values@.len() == bytes.len() / 176 * 256,
            forall|k: int|
                0 <= k < values@.len() ==> #[trigger] values@[k] == q5_k_term(
                    bytes@,
                    176 * (k / 256),
                    k % 256,
                ),
    {
        let n: usize = bytes.len() / 176 * 256;
        let mut values: Vec<QuantTerm> = Vec::new();
        let mut k: usize = 0;
        while k < n
            invariant
                k <= n,
                n == bytes.len() / 176 * 256,
                values@.len() == k,
                forall|j: int|
                    0 <= j < k ==> #[trigger] values@[j] == q5_k_term(
                        bytes@,
                        176 * (j / 256),
                        j % 256,
                    ),
            decreases n - k,
        {
            proof {
                block_inside(bytes.len() as int, 176, 256, k as int);
            }
            values.push(q5_k_value(bytes, 176 * (k / 256), k % 256));
            k = k + 1;
        }
        values
    }

    /// The weights of six bits in blocks of 256. Bytes behind the last whole block are passed over.
    pub fn decode_q6_k(bytes: &[u8]) -> (values: Vec<QuantTerm>)
        requires
            bytes.len() / 210 * 256 <= usize::MAX,
        ensures
            values@.len() == bytes.len() / 210 * 256,
            forall|k: int|
                0 <= k < values@.len() ==> #[trigger] values@[k] == q6_k_term(
                    bytes@,
                    210 * (k / 256),
                    k % 256,
                ),
    {
        let n: usize = bytes.len() / 210 * 256;
        let mut values: Vec<QuantTerm> = Vec::new();
        let mut k: usize = 0;
        while k < n
            invariant
                k <= n,
                n == bytes.len() / 210 * 256,
                values@.len() == k,
                forall|j: int|
                    0 <= j < k ==> #[trigger] values@[j] == q6_k_term(
                        bytes@,
                        210 * (j / 256),
                        j % 256,
                    ),
            decreases n - k,
        {
            proof {
                block_inside(bytes.len() as int, 210, 256, k as int);
            }
            values.push(q6_k_value(bytes, 210 * (k / 256), k % 256));
            k = k + 1;
        }
        values
    }

    /// The weights of eight bits in blocks of 256. Bytes behind the last whole block are
    /// passed over.
    pub fn decode_q8_k(bytes: &[u8]) -> (values: Vec<QuantTerm>)
        requires
            bytes.len() / 292 * 256 <= usize::MAX,
        ensures
            values@.len() == bytes.len() / 292 * 256,
            forall|k: int|
                0 <= k < values@.len() ==> #[trigger] values@[k] == q8_k_term(
                    bytes@,
                    292 * (k / 256),
                    k % 256,
                ),
    {
        let n: usize = bytes.len() / 292 * 256;
        let mut values: Vec<QuantTerm> = Vec::new();
        let mut k: usize = 0;
        while k < n
            invariant
                k <= n,
                n == bytes.len() / 292 * 256,
                values@.len() == k,
                forall|j: int|
                    0 <= j < k ==> #[trigger] values@[j] == q8_k_term(
                        bytes@,
                        292 * (j / 256),
                        j % 256,
                    ),
            decreases n - k,
        {
            proof {
                block_inside(bytes.len() as int, 292, 256, k as int);
            }
            values.push(q8_k_value(bytes, 292 * (k / 256), k % 256));
            k = k + 1;
        }
        values
    }

    /// The weights of two bits in blocks of 256. Bytes behind the last whole block are passed over.
    pub fn decode_q2_k(bytes: &[u8]) -> (values: Vec<QuantTerm>)
        requires
            bytes.len() / 84 * 256 <= usize::MAX,
        ensures
            values@.len() == bytes.len() / 84 * 256,
            forall|k: int|
                0 <= k < values@.len() ==> #[trigger] values@[k] == q2_k_term(
                    bytes@,
                    84 * (k / 256),
                    k % 256,
                ),
    {
        let n: usize = bytes.len() / 84 * 256;
        let mut values: Vec<QuantTerm> = Vec::new();
        let mut k: usize = 0;
        while k < n
            invariant
                k <= n,
                n == bytes.len() / 84 * 256,
                values@.len() == k,
                forall|j: int|
                    0 <= j < k ==> #[trigger] values@[j] == q2_k_term(
                        bytes@,
                        84 * (j / 256),
                        j % 256,
                    ),
            decreases n - k,
        {
            proof {
                block_inside(bytes.len() as int, 84, 256, k as int);
            }
            values.push(q2_k_value(bytes, 84 * (k / 256), k % 256));
            k = k + 1;
        }
        values
    }

    /// The weights of three bits in blocks of 256. Bytes behind the last whole block are
    /// passed over.
    pub fn decode_q3_k(bytes: &[u8]) -> (values: Vec<QuantTerm>)
        requires
            bytes.len() / 110 * 256 <= usize::MAX,
        ensures
            values@.len() == bytes.len() / 110 * 256,
            forall|k: int|
                0 <= k < values@.len() ==> #[trigger] values@[k] == q3_k_term(
                    bytes@,
                    110 * (k / 256),
                    k % 256,
                ),
    {
        let n: usize = bytes.len() / 110 * 256;
        let mut values: Vec<QuantTerm> = Vec::new();
        let mut k: usize = 0;
        while k < n
            invariant
                k <= n,
                n == bytes.len() / 110 * 256,
                values@.len() == k,
                forall|j: int|
                    0 <= j < k ==> #[trigger] values@[j] == q3_k_term(
                        bytes@,
                        110 * (j / 256),
                        j % 256,
                    ),
            decreases n - k,
        {
            proof {
                block_inside(bytes.len() as int, 110, 256, k as int);
            }
            values.push(q3_k_value(bytes, 110 * (k / 256), k % 256));
            k = k + 1;
        }
        values
    }

    /// The weights of a tensor stored as `gtype`.
    pub fn decode_tensor(bytes: &[u8], gtype: GgufGtype) -> (r: Result<
        Vec<QuantTerm>,
        &'static str,
    >)
        requires
            block_count(gtype, bytes.len() as int) * block_values(gtype) <= usize::MAX,
        ensures
            r matches Ok(values) && values@.len() == block_count(gtype, bytes.len() as int)
                * block_values(gtype) && forall|k: int|
                0 <= k < values@.len() ==> #[trigger] values@[k] == tensor_term(gtype, bytes@, k),
    {
        match gtype {
            GgufGtype::F32 => Ok(plain_terms(&Self::decode_f32_le(bytes))),
            GgufGtype::F16 => Ok(plain_terms(&Self::decode_f16_le(bytes))),
            GgufGtype::Q8_0 => Ok(Self::decode_q8_0(bytes)),
            GgufGtype::Q4_0 => Ok(Self::decode_q4_0(bytes)),
            GgufGtype::Q4_1 => Ok(Self::decode_q4_1(bytes)),
            GgufGtype::Q2_K => Ok(Self::decode_q2_k(bytes)),
            GgufGtype::Q3_K => Ok(Self::decode_q3_k(bytes)),
            GgufGtype::Q4_K => Ok(Self::decode_q4_k(bytes)),
            GgufGtype::Q5_K => Ok(Self::decode_q5_k(bytes)),
            GgufGtype::Q6_K => Ok(Self::decode_q6_k(bytes)),
            GgufGtype::Q8_K => Ok(Self::decode_q8_k(bytes)),
        }
    }
}

/// A weight that is its scale.
pub open spec fn plain_term(d: u32) -> QuantTerm {
    QuantTerm { d, sc: 1, q: 1, dmin: 0, m: 0 }
}

fn plain_terms(bits: &Vec<u32>) -> (values: Vec<QuantTerm>)
    ensures
        values@.len() == bits@.len(),
        forall|k: int| 0 <= k < bits@.len() ==> #[trigger] values@[k] == plain_term(bits@[k]),
{
    let mut values: Vec<QuantTerm> = Vec::new();
    let mut k: usize = 0;
    while k < bits.len()
        invariant
            k <= bits.len(),
            values@.len() == k,
            forall|j: int| 0 <= j < k ==> #[trigger] values@[j] == plain_term(bits@[j]),
        decreases bits.len() - k,
    {
        values.push(QuantTerm { d: bits[k], sc: 1, q: 1, dmin: 0, m: 0 });
        k = k + 1;
    }
    values
}

/// The bytes of a block of weights.
pub open spec fn block_bytes(gtype: GgufGtype) -> int {
    match gtype {
        GgufGtype::F32 => 4,
        GgufGtype::F16 => 2,
        GgufGtype::Q8_0 => 34,
        GgufGtype::Q4_0 => 18,
        GgufGtype::Q4_1 => 20,
        GgufGtype::Q4_K => 144,
        GgufGtype::Q5_K => 176,
        GgufGtype::Q6_K => 210,
        GgufGtype::Q8_K => 292,
        GgufGtype::Q2_K => 84,
        GgufGtype::Q3_K => 110,
    }
}

/// The weights in a block.
pub open spec fn block_values(gtype: GgufGtype) -> int {
    match gtype {
        GgufGtype::F32 => 1,
        GgufGtype::F16 => 1,
        GgufGtype::Q8_0 => 32,
        GgufGtype::Q4_0 => 32,
        GgufGtype::Q4_1 => 32,
        GgufGtype::Q4_K => 256,
        GgufGtype::Q5_K => 256,
        GgufGtype::Q6_K => 256,
        GgufGtype::Q8_K => 256,
        GgufGtype::Q2_K => 256,
        GgufGtype::Q3_K => 256,
    }
}

/// The whole blocks in so many bytes.
pub open spec fn block_count(gtype: GgufGtype, len: int) -> int {
    len / block_bytes(gtype)
}

/// Weight `k` of a tensor stored as `gtype`.
pub open spec fn tensor_term(gtype: GgufGtype, b: Seq<u8>, k: int) -> QuantTerm {
    match gtype {
        GgufGtype::F32 => plain_term(le32(b, 4 * k) as u32),
        GgufGtype::F16 => plain_term(widened(le16(b, 2 * k) as u16) as u32),
        GgufGtype::Q8_0 => q8_0_term(b, 34 * (k / 32), k % 32),
        GgufGtype::Q4_0 => q4_0_term(b, 18 * (k / 32), k % 32),
        GgufGtype::Q4_1 => q4_1_term(b, 20 * (k / 32), k % 32),
        GgufGtype::Q4_K => q4_k_term(b, 144 * (k / 256), k % 256),
        GgufGtype::Q5_K => q5_k_term(b, 176 * (k / 256), k % 256),
        GgufGtype::Q6_K => q6_k_term(b, 210 * (k / 256), k % 256),
        GgufGtype::Q8_K => q8_k_term(b, 292 * (k / 256), k % 256),
        GgufGtype::Q2_K => q2_k_term(b, 84 * (k / 256), k % 256),
        GgufGtype::Q3_K => q3_k_term(b, 110 * (k / 256), k % 256),
    }
}

} // verus!
