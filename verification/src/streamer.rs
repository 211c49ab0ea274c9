//! Decoding of stored tensors, whole or by rows.
//!
//! A stored element is decoded to a `Weight`: the number itself, or the scale
//! and the integer code whose product it is.
use crate::loader::{LoadError, MmapLoader};
use crate::model::{self, GgmlType, GgufFile, TensorInfo};
use crate::single::{self, Single, INFINITY_BITS, SIGN_BIT};
use crate::text::string_copy;
use vstd::arithmetic::div_mod::*;
use vstd::arithmetic::power2::*;
use vstd::hash_map::StringHashMap;
use vstd::prelude::*;

verus! {

/// A decoded element.
#[derive(Clone, Copy, Debug, PartialEq, Eq, Structural)]
pub enum Weight {
    /// The number.
    Plain(Single),
    /// `factor * code`.
    Scaled { factor: Single, code: i32 },
    /// `(d * scale) * code - dmin * min`.
    Shifted { d: Single, scale: i32, code: i32, dmin: Single, min: i32 },
    /// `(d * scale) * code`.
    Graded { d: Single, scale: i32, code: i32 },
}

/// The element of a part that is not stored.
pub open spec fn zero_weight() -> Weight {
    Weight::Plain(Single { bits: 0 })
}

/// The absolute value of a finite half-precision number, in units of the least
/// positive one.
pub open spec fn half_units(h: u16) -> int {
    let fraction = h as int % 1024;
    let exponent = h as int / 1024 % 32;
    if exponent == 0 {
        fraction
    } else {
        (fraction + 1024) * pow2((exponent - 1) as nat)
    }
}

/// Position of the highest bit of a positive number.
pub open spec fn top_bit(m: nat) -> nat
    decreases m,
{
    if m <= 1 {
        0
    } else {
        1 + top_bit(m / 2)
    }
}

/// Bit pattern, without the sign, of the single-precision number that a
/// half-precision bit pattern converts to. What is not a number keeps its
/// fraction and is made quiet.
pub open spec fn half_magnitude(h: u16) -> int {
    let fraction = h as int % 1024;
    let exponent = h as int / 1024 % 32;
    let k = top_bit(fraction as nat);
    if exponent == 31 {
        if fraction == 0 {
            INFINITY_BITS as int
        } else {
            0x7FC0_0000 + fraction % 512 * 0x2000
        }
    } else if exponent > 0 {
        (exponent + 112) * 0x80_0000 + fraction * 0x2000
    } else if fraction == 0 {
        0
    } else {
        (k + 103) * 0x80_0000 + (fraction - pow2(k)) * pow2((23 - k) as nat)
    }
}

/// The single-precision number that a half-precision bit pattern converts to.
pub open spec fn half_single(h: u16) -> Single {
    if h >= 0x8000 {
        Single { bits: (half_magnitude(h) + SIGN_BIT) as u32 }
    } else {
        Single { bits: half_magnitude(h) as u32 }
    }
}

proof fn lemma_top_bit(m: nat)
    requires
        0 < m < 1024,
    ensures
        top_bit(m) <= 9,
        pow2(top_bit(m)) <= m < 2 * pow2(top_bit(m)),
{
    reveal_with_fuel(top_bit, 11);
    lemma2_to64();
}

/// Conversion is lossless: a finite half-precision number keeps its sign and
/// its value. The least positive half-precision number is 2^125 times the least
/// positive single-precision one.
pub proof fn lemma_half_is_lossless(h: u16)
    requires
        h % 0x8000 < 0x7C00,
    ensures
        half_single(h).finite(),
        half_single(h).magnitude() == half_magnitude(h),
        (half_single(h).bits >= SIGN_BIT) == (h >= 0x8000),
        single::units(half_magnitude(h)) == half_units(h) * pow2(125),
{
    let fraction = h as int % 1024;
    let exponent = h as int / 1024 % 32;
    let mag = half_magnitude(h);
    assert(exponent < 31);
    lemma2_to64();
    if exponent > 0 {
        assert(mag / 0x80_0000 == exponent + 112);
        assert(mag % 0x80_0000 == fraction * 0x2000);
        lemma_pow2_adds(13, (exponent + 111) as nat);
        lemma_pow2_adds((exponent - 1) as nat, 125);
        let p = pow2((exponent + 111) as nat) as int;
        let q = pow2((exponent - 1) as nat) as int;
        let r = pow2(125) as int;
        assert((fraction * 0x2000 + 0x80_0000) * p == (fraction + 1024) * (0x2000 * p))
            by (nonlinear_arith);
        assert(((fraction + 1024) * q) * r == (fraction + 1024) * (q * r)) by (nonlinear_arith);
        assert(13 + (exponent + 111) as nat == (exponent - 1) as nat + 125);
        assert(0x2000 * p == q * r);
        assert((mag / 0x80_0000 - 1) as nat == (exponent + 111) as nat);
    } else if fraction > 0 {
        let k = top_bit(fraction as nat);
        lemma_top_bit(fraction as nat);
        let low = pow2(k) as int;
        let high = pow2((23 - k) as nat) as int;
        let p = pow2((k + 102) as nat) as int;
        lemma_pow2_adds(k, (23 - k) as nat);
        lemma_pow2_adds((23 - k) as nat, (k + 102) as nat);
        lemma_pow2_pos((23 - k) as nat);
        let rest = (fraction - low) * high;
        assert(0 <= rest < 0x80_0000) by (nonlinear_arith)
            requires
                rest == (fraction - low) * high,
                0 <= fraction - low < low,
                low * high == 0x80_0000,
                high > 0,
        ;
        assert(mag / 0x80_0000 == k + 103);
        assert(mag % 0x80_0000 == rest);
        assert(rest + 0x80_0000 == fraction * high) by (nonlinear_arith)
            requires
                rest == (fraction - low) * high,
                low * high == 0x80_0000,
        ;
        assert((fraction * high) * p == fraction * (high * p)) by (nonlinear_arith);
        assert((23 - k) as nat + (k + 102) as nat == 125);
        assert((mag / 0x80_0000 - 1) as nat == (k + 102) as nat);
        assert(single::units(mag) == (rest + 0x80_0000) * p);
    } else {
        let units = half_units(h);
        assert(units * pow2(125) == 0) by (nonlinear_arith)
            requires
                units == 0,
        ;
    }
}

fn highest_bit(m: u32) -> (k: u32)
    requires
        0 < m < 1024,
    ensures
        k == top_bit(m as nat),
        k <= 9,
    decreases m,
{
    if m <= 1 {
        0
    } else {
        proof {
            lemma_top_bit(m as nat);
            reveal_with_fuel(top_bit, 2);
        }
        1 + highest_bit(m / 2)
    }
}

fn power_of_two(k: u32) -> (p: u32)
    requires
        k < 32,
    ensures
        p == pow2(k as nat),
    decreases k,
{
    proof {
        lemma2_to64();
    }
    if k == 0 {
        1
    } else {
        proof {
            lemma_pow2_unfold(k as nat);
            if k < 31 {
                lemma_pow2_strictly_increases(k as nat, 31);
            }
        }
        2 * power_of_two(k - 1)
    }
}

/// Converts a half-precision bit pattern.
pub fn half_to_single(h: u16) -> (r: Single)
    ensures
        r == half_single(h),
{
    let fraction: u32 = h as u32 % 1024;
    let exponent: u32 = h as u32 / 1024 % 32;
    let magnitude: u32 = if exponent == 31 {
        if fraction == 0 {
            INFINITY_BITS
        } else {
            0x7FC0_0000 + fraction % 512 * 0x2000
        }
    } else if exponent > 0 {
        (exponent + 112) * 0x80_0000 + fraction * 0x2000
    } else if fraction == 0 {
        0
    } else {
        let k: u32 = highest_bit(fraction);
        let low: u32 = power_of_two(k);
        let high: u32 = power_of_two(23 - k);
        proof {
            lemma2_to64();
            lemma_top_bit(fraction as nat);
            lemma_pow2_adds(k as nat, (23 - k) as nat);
            lemma_pow2_pos((23 - k) as nat);
            assert((fraction - low) * high < 0x80_0000) by (nonlinear_arith)
                requires
                    0 <= fraction - low < low,
                    low * high == 0x80_0000,
                    high > 0,
            ;
        }
        (k + 103) * 0x80_0000 + (fraction - low) * high
    };
    if h >= 0x8000 {
        Single { bits: magnitude + SIGN_BIT }
    } else {
        Single { bits: magnitude }
    }
}

/// The little-endian 16-bit number at a position.
pub open spec fn word(data: Seq<u8>, at: int) -> u16 {
    (data[at] + 256 * data[at + 1]) as u16
}

/// The little-endian 32-bit number at a position.
pub open spec fn double_word(data: Seq<u8>, at: int) -> u32 {
    (data[at] + 0x100 * data[at + 1] + 0x1_0000 * data[at + 2] + 0x100_0000 * data[at + 3]) as u32
}

/// A byte as a signed number.
pub open spec fn signed(b: u8) -> int {
    if b < 128 {
        b as int
    } else {
        b - 256
    }
}

fn read_word(data: &[u8], at: usize) -> (r: u16)
    requires
        at + 2 <= data@.len(),
    ensures
        r == word(data@, at as int),
{
    data[at] as u16 + 256 * data[at + 1] as u16
}

/// Reads a little-endian 32-bit number.
pub fn read_double_word(data: &[u8], at: usize) -> (r: u32)
    requires
        at + 4 <= data@.len(),
    ensures
        r == double_word(data@, at as int),
{
    data[at] as u32 + 0x100 * data[at + 1] as u32 + 0x1_0000 * data[at + 2] as u32 + 0x100_0000
        * data[at + 3] as u32
}

fn to_signed(b: u8) -> (r: i32)
    ensures
        r == signed(b),
{
    if b < 128 {
        b as i32
    } else {
        b as i32 - 256
    }
}

/// Block `b` is stored: it is one of the `n / size` whole blocks of `n`
/// elements, and it ends within the data.
pub open spec fn stored(data: Seq<u8>, n: int, b: int, size: int, bytes: int) -> bool {
    b < n / size && (b + 1) * bytes <= data.len()
}

/// Q8_0: 34 bytes for 32 elements, a half-precision scale and 32 signed bytes.
pub open spec fn q8_0_at(data: Seq<u8>, n: int, i: int) -> Weight {
    let b = i / 32;
    if stored(data, n, b, 32, 34) {
        Weight::Scaled {
            factor: half_single(word(data, b * 34)),
            code: signed(data[b * 34 + 2 + i % 32]) as i32,
        }
    } else {
        zero_weight()
    }
}

/// Q4_0: 18 bytes for 32 elements, a half-precision scale and 16 bytes. Each
/// byte holds two elements, the low nibble first, each less eight.
pub open spec fn q4_0_at(data: Seq<u8>, n: int, i: int) -> Weight {
    let b = i / 32;
    if stored(data, n, b, 32, 18) {
        let byte = data[b * 18 + 2 + i % 32 / 2] as int;
        let nibble = if i % 2 == 0 {
            byte % 16
        } else {
            byte / 16
        };
        Weight::Scaled { factor: half_single(word(data, b * 18)), code: (nibble - 8) as i32 }
    } else {
        zero_weight()
    }
}

/// Scale of sub-block `s` of a Q4_K block whose twelve scale bytes start at
/// `at`.
pub open spec fn q4_k_scale(data: Seq<u8>, at: int, s: int) -> int {
    if s < 4 {
        data[at + s] as int % 64
    } else {
        data[at + s + 4] as int % 16 + 16 * (data[at + s - 4] as int / 64)
    }
}

/// Minimum of sub-block `s` of a Q4_K block.
pub open spec fn q4_k_min(data: Seq<u8>, at: int, s: int) -> int {
    if s < 4 {
        data[at + s + 4] as int % 64
    } else {
        data[at + s + 4] as int / 16 + 16 * (data[at + s] as int / 64)
    }
}

/// Q4_K: 144 bytes for 256 elements in eight sub-blocks of 32: two
/// half-precision numbers, twelve bytes of six-bit scales and minima, and 128
/// bytes. Two sub-blocks share 32 bytes; the even one has the low nibbles.
pub open spec fn q4_k_at(data: Seq<u8>, n: int, i: int) -> Weight {
    let b = i / 256;
    let s = i % 256 / 32;
    if stored(data, n, b, 256, 144) {
        let base = b * 144;
        let byte = data[base + 16 + s / 2 * 32 + i % 32] as int;
        let nibble = if s % 2 == 0 {
            byte % 16
        } else {
            byte / 16
        };
        Weight::Shifted {
            d: half_single(word(data, base)),
            scale: q4_k_scale(data, base + 4, s) as i32,
            code: nibble as i32,
            dmin: half_single(word(data, base + 2)),
            min: q4_k_min(data, base + 4, s) as i32,
        }
    } else {
        zero_weight()
    }
}

/// Code of an element of group `g` from its low and its high byte.
pub open spec fn q6_k_code(low: int, high: int, g: int) -> int {
    let nibble = if g < 2 {
        low % 16
    } else {
        low / 16
    };
    let pair = if g == 0 {
        high % 4
    } else if g == 1 {
        high / 4 % 4
    } else if g == 2 {
        high / 16 % 4
    } else {
        high / 64
    };
    nibble + 16 * pair - 32
}

/// Q6_K: 210 bytes for 256 elements: 128 bytes of low nibbles, 64 bytes of
/// high pairs, 16 signed scales and a half-precision number. Each half of the
/// block has four groups of 32 elements. Groups 0 and 2 take the nibbles of the
/// first 32 low bytes, groups 1 and 3 those of the second 32; groups 0 and 1
/// take the lower nibble. The high byte at the same place gives two bits to
/// each group. Sixteen elements share a scale. The code is less 32.
pub open spec fn q6_k_at(data: Seq<u8>, n: int, i: int) -> Weight {
    let b = i / 256;
    let side = i % 256 / 128;
    let g = i % 128 / 32;
    let l = i % 32;
    if stored(data, n, b, 256, 210) {
        let base = b * 210;
        let low = data[base + side * 64 + g % 2 * 32 + l] as int;
        let high = data[base + 128 + side * 32 + l] as int;
        Weight::Graded {
            d: half_single(word(data, base + 208)),
            scale: signed(data[base + 192 + side * 8 + l / 16 + 2 * g]) as i32,
            code: q6_k_code(low, high, g) as i32,
        }
    } else {
        zero_weight()
    }
}

/// Element `i` of `n` that are stored in a format.
pub open spec fn element(data: Seq<u8>, dtype: GgmlType, n: int, i: int) -> Weight {
    match dtype {
        GgmlType::F32 => if 4 * i + 4 <= data.len() {
            Weight::Plain(Single { bits: double_word(data, 4 * i) })
        } else {
            zero_weight()
        },
        GgmlType::F16 => if 2 * i + 2 <= data.len() {
            Weight::Plain(half_single(word(data, 2 * i)))
        } else {
            zero_weight()
        },
        GgmlType::BF16 => if 2 * i + 2 <= data.len() {
            Weight::Plain(Single { bits: (word(data, 2 * i) * 0x1_0000) as u32 })
        } else {
            zero_weight()
        },
        GgmlType::Q8_0 => q8_0_at(data, n, i),
        GgmlType::Q4_0 => q4_0_at(data, n, i),
        GgmlType::Q4K => q4_k_at(data, n, i),
        GgmlType::Q6K => q6_k_at(data, n, i),
        GgmlType::Other(_, _) => zero_weight(),
    }
}

/// All elements that are stored in a format.
pub open spec fn elements(data: Seq<u8>, dtype: GgmlType, n: int) -> Seq<Weight> {
    Seq::new(n as nat, |i: int| element(data, dtype, n, i))
}

/// The start of a stored block, if it is stored.
fn block_start(data: &[u8], n: usize, b: usize, size: usize, bytes: usize) -> (r: Option<usize>)
    requires
        0 < size,
        0 < bytes,
    ensures
        r is Some <==> stored(data@, n as int, b as int, size as int, bytes as int),
        r matches Some(at) ==> at == b * bytes && at + bytes <= data@.len() <= usize::MAX,
{
    let len: usize = data.len();
    assert((b + 1) * bytes == b * bytes + bytes) by (nonlinear_arith);
    if b >= n / size {
        return None;
    }
    match b.checked_mul(bytes) {
        Some(at) => {
            if len >= bytes && at <= len - bytes {
                Some(at)
            } else {
                None
            }
        },
        None => None,
    }
}

fn zero() -> (w: Weight)
    ensures
        w == zero_weight(),
{
    Weight::Plain(Single { bits: 0 })
}

fn decode_q8_0(data: &[u8], n: usize, i: usize) -> (w: Weight)
    ensures
        w == q8_0_at(data@, n as int, i as int),
{
    let b: usize = i / 32;
    match block_start(data, n, b, 32, 34) {
        Some(at) => Weight::Scaled {
            factor: half_to_single(read_word(data, at)),
            code: to_signed(data[at + 2 + i % 32]),
        },
        None => zero(),
    }
}

fn decode_q4_0(data: &[u8], n: usize, i: usize) -> (w: Weight)
    ensures
        w == q4_0_at(data@, n as int, i as int),
{
    let b: usize = i / 32;
    match block_start(data, n, b, 32, 18) {
        Some(at) => {
            let byte: u8 = data[at + 2 + i % 32 / 2];
            let nibble: u8 = if i % 2 == 0 {
                byte % 16
            } else {
                byte / 16
            };
            Weight::Scaled { factor: half_to_single(read_word(data, at)), code: nibble as i32 - 8 }
        },
        None => zero(),
    }
}

fn decode_q4_k(data: &[u8], n: usize, i: usize) -> (w: Weight)
    ensures
        w == q4_k_at(data@, n as int, i as int),
{
    let b: usize = i / 256;
    let s: usize = i % 256 / 32;
    match block_start(data, n, b, 256, 144) {
        Some(base) => {
            let byte: u8 = data[base + 16 + s / 2 * 32 + i % 32];
            let code: u8 = if s % 2 == 0 {
                byte % 16
            } else {
                byte / 16
            };
            let at: usize = base + 4;
            let (scale, min): (u8, u8) = if s < 4 {
                (data[at + s] % 64, data[at + s + 4] % 64)
            } else {
                let shared: u8 = data[at + s + 4];
                (shared % 16 + 16 * (data[at + s - 4] / 64), shared / 16 + 16 * (data[at + s] / 64))
            };
            Weight::Shifted {
                d: half_to_single(read_word(data, base)),
                scale: scale as i32,
                code: code as i32,
                dmin: half_to_single(read_word(data, base + 2)),
                min: min as i32,
            }
        },
        None => zero(),
    }
}

fn decode_q6_k(data: &[u8], n: usize, i: usize) -> (w: Weight)
    ensures
        w == q6_k_at(data@, n as int, i as int),
{
    let b: usize = i / 256;
    let side: usize = i % 256 / 128;
    let g: usize = i % 128 / 32;
    let l: usize = i % 32;
    match block_start(data, n, b, 256, 210) {
        Some(base) => {
            let low: u8 = data[base + side * 64 + g % 2 * 32 + l];
            let high: u8 = data[base + 128 + side * 32 + l];
            let nibble: u8 = if g < 2 {
                low % 16
            } else {
                low / 16
            };
            let pair: u8 = if g == 0 {
                high % 4
            } else if g == 1 {
                high / 4 % 4
            } else if g == 2 {
                high / 16 % 4
            } else {
                high / 64
            };
            Weight::Graded {
                d: half_to_single(read_word(data, base + 208)),
                scale: to_signed(data[base + 192 + side * 8 + l / 16 + 2 * g]),
                code: nibble as i32 + 16 * pair as i32 - 32,
            }
        },
        None => zero(),
    }
}

fn decode(data: &[u8], dtype: &GgmlType, n: usize, i: usize) -> (w: Weight)
    ensures
        w == element(data@, *dtype, n as int, i as int),
{
    match dtype {
        GgmlType::F32 => {
            if i < data.len() / 4 {
                Weight::Plain(Single { bits: read_double_word(data, 4 * i) })
            } else {
                zero()
            }
        },
        GgmlType::F16 => {
            if i < data.len() / 2 {
                Weight::Plain(half_to_single(read_word(data, 2 * i)))
            } else {
                zero()
            }
        },
        GgmlType::BF16 => {
            if i < data.len() / 2 {
                Weight::Plain(Single { bits: read_word(data, 2 * i) as u32 * 0x1_0000 })
            } else {
                zero()
            }
        },
        GgmlType::Q8_0 => decode_q8_0(data, n, i),
        GgmlType::Q4_0 => decode_q4_0(data, n, i),
        GgmlType::Q4K => decode_q4_k(data, n, i),
        GgmlType::Q6K => decode_q6_k(data, n, i),
        GgmlType::Other(_, _) => zero(),
    }
}

/// Decodes `n_elements` elements. What the data does not hold is zero, and so
/// is everything in a format that is not decoded.
pub fn dequantize(data: &[u8], dtype: &GgmlType, n_elements: usize) -> (r: Vec<Weight>)
    ensures
        r@ == elements(data@, *dtype, n_elements as int),
{
    let mut r: Vec<Weight> = Vec::new();
    for i in 0..n_elements
        invariant
            r@ == elements(data@, *dtype, n_elements as int).take(i as int),
    {
        r.push(decode(data, dtype, n_elements, i));
        assert(r@ == elements(data@, *dtype, n_elements as int).take(i + 1));
    }
    assert(r@ == elements(data@, *dtype, n_elements as int));
    r
}

/// `n` zeros.
pub open spec fn zeros(n: int) -> Seq<Weight> {
    Seq::new(n as nat, |i: int| zero_weight())
}

/// A row of zeros.
pub fn zero_row(n: usize) -> (r: Vec<Weight>)
    ensures
        r@ == zeros(n as int),
{
    let mut r: Vec<Weight> = Vec::new();
    for i in 0..n
        invariant
            r@ == zeros(i as int),
    {
        r.push(zero());
        assert(r@ == zeros(i + 1));
    }
    r
}

/// Bytes of a row of `row_dim` elements in whole blocks.
pub open spec fn row_bytes(dtype: GgmlType, row_dim: int) -> int {
    row_dim / (dtype.elements() as int) * dtype.bytes()
}

/// Row `id` of data that is stored in whole blocks per row, or zeros where the
/// data ends before the row does.
pub open spec fn stored_row(data: Seq<u8>, dtype: GgmlType, id: int, row_dim: int) -> Seq<Weight> {
    let size = row_bytes(dtype, row_dim);
    if id * size + size <= data.len() {
        elements(data.subrange(id * size, id * size + size), dtype, row_dim)
    } else {
        zeros(row_dim)
    }
}

/// Row `id` of decoded elements, or zeros where there are not so many.
pub open spec fn decoded_row(all: Seq<Weight>, id: int, row_dim: int) -> Seq<Weight> {
    if id * row_dim + row_dim <= all.len() {
        all.subrange(id * row_dim, id * row_dim + row_dim)
    } else {
        zeros(row_dim)
    }
}

/// Row `id` of a tensor with the given data. A row that is not made of whole
/// blocks is cut from the decoded tensor.
pub open spec fn tensor_row(data: Seq<u8>, tensor: TensorInfo, id: int, row_dim: int) -> Seq<
    Weight,
> {
    if row_dim % (tensor.dtype.elements() as int) != 0 {
        decoded_row(
            elements(data, tensor.dtype, model::product(tensor.dimensions@) as int),
            id,
            row_dim,
        )
    } else {
        stored_row(data, tensor.dtype, id, row_dim)
    }
}

/// Element `i` of row `id` stands in block `i / size` of the row, which is block
/// `id * q + i / size` of the tensor, at the same place of the block.
proof fn lemma_row_block(id: int, q: int, size: int, bytes: int, i: int, n: int, len: int)
    requires
        0 <= id,
        0 < size,
        0 < bytes,
        0 <= i < q * size,
        (id * q + q) * size <= n,
        (id * q + q) * bytes <= len,
    ensures
        (id * (q * size) + i) / size == id * q + i / size,
        (id * (q * size) + i) % size == i % size,
        0 <= i / size < q,
        (q * size) / size == q,
        (i / size) * bytes + bytes <= q * bytes,
        (i / size + 1) * bytes <= q * bytes,
        id * q + i / size < n / size,
        (id * q + i / size + 1) * bytes <= len,
        (id * q + i / size) * bytes == id * (q * bytes) + (i / size) * bytes,
{
    let b = i / size;
    let r = i % size;
    lemma_fundamental_div_mod(i, size);
    assert(id * (q * size) + i == (id * q + b) * size + r) by (nonlinear_arith)
        requires
            i == size * b + r,
    ;
    lemma_fundamental_div_mod_converse(id * (q * size) + i, size, id * q + b, r);
    assert(b < q) by (nonlinear_arith)
        requires
            size * b + r < q * size,
            0 <= r,
            0 < size,
    ;
    lemma_div_multiples_vanish(q, size);
    assert(size * q == q * size) by (nonlinear_arith);
    assert((b + 1) * bytes <= q * bytes) by (nonlinear_arith)
        requires
            b + 1 <= q,
            0 < bytes,
    ;
    assert((b + 1) * bytes == b * bytes + bytes) by (nonlinear_arith);
    lemma_div_multiples_vanish(id * q + q, size);
    assert(size * (id * q + q) == (id * q + q) * size) by (nonlinear_arith);
    lemma_div_is_ordered((id * q + q) * size, n, size);
    assert((id * q + b + 1) * bytes <= (id * q + q) * bytes) by (nonlinear_arith)
        requires
            b + 1 <= q,
            0 < bytes,
    ;
    assert((id * q + b) * bytes == id * (q * bytes) + b * bytes) by (nonlinear_arith);
}

/// Two sequences agree on `bytes` bytes.
spec fn same_bytes(part: Seq<u8>, p: int, data: Seq<u8>, d: int, bytes: int) -> bool {
    forall|k: int| 0 <= k < bytes ==> #[trigger] part[p + k] == data[d + k]
}

proof fn lemma_same_q8_0(part: Seq<u8>, data: Seq<u8>, row_dim: int, n: int, i: int, at: int)
    requires
        0 <= i,
        0 <= at,
        i % 32 == at % 32,
        stored(part, row_dim, i / 32, 32, 34),
        stored(data, n, at / 32, 32, 34),
        same_bytes(part, i / 32 * 34, data, at / 32 * 34, 34),
    ensures
        q8_0_at(part, row_dim, i) == q8_0_at(data, n, at),
{
    let p = i / 32 * 34;
    let d = at / 32 * 34;
    assert(part[p + 0] == data[d + 0]);
    assert(part[p + 1] == data[d + 1]);
    assert(part[p + (2 + i % 32)] == data[d + (2 + i % 32)]);
}

proof fn lemma_same_q4_0(part: Seq<u8>, data: Seq<u8>, row_dim: int, n: int, i: int, at: int)
    requires
        0 <= i,
        0 <= at,
        i % 32 == at % 32,
        stored(part, row_dim, i / 32, 32, 18),
        stored(data, n, at / 32, 32, 18),
        same_bytes(part, i / 32 * 18, data, at / 32 * 18, 18),
    ensures
        q4_0_at(part, row_dim, i) == q4_0_at(data, n, at),
{
    let p = i / 32 * 18;
    let d = at / 32 * 18;
    assert(i % 2 == at % 2);
    assert(part[p + 0] == data[d + 0]);
    assert(part[p + 1] == data[d + 1]);
    assert(part[p + (2 + i % 32 / 2)] == data[d + (2 + i % 32 / 2)]);
}

proof fn lemma_same_q4_k(part: Seq<u8>, data: Seq<u8>, row_dim: int, n: int, i: int, at: int)
    requires
        0 <= i,
        0 <= at,
        i % 256 == at % 256,
        stored(part, row_dim, i / 256, 256, 144),
        stored(data, n, at / 256, 256, 144),
        same_bytes(part, i / 256 * 144, data, at / 256 * 144, 144),
    ensures
        q4_k_at(part, row_dim, i) == q4_k_at(data, n, at),
{
    let p = i / 256 * 144;
    let d = at / 256 * 144;
    let s = i % 256 / 32;
    lemma_mod_mod(i, 32, 8);
    lemma_mod_mod(at, 32, 8);
    let q = 16 + s / 2 * 32 + i % 32;
    assert(part[p + 0] == data[d + 0]);
    assert(part[p + 1] == data[d + 1]);
    assert(part[p + 2] == data[d + 2]);
    assert(part[p + 3] == data[d + 3]);
    assert(part[p + q] == data[d + q]);
    assert(part[p + (4 + s)] == data[d + (4 + s)]);
    assert(part[p + (8 + s)] == data[d + (8 + s)]);
    if s >= 4 {
        assert(part[p + s] == data[d + s]);
    }
}

proof fn lemma_same_q6_k(part: Seq<u8>, data: Seq<u8>, row_dim: int, n: int, i: int, at: int)
    requires
        0 <= i,
        0 <= at,
        i % 256 == at % 256,
        stored(part, row_dim, i / 256, 256, 210),
        stored(data, n, at / 256, 256, 210),
        same_bytes(part, i / 256 * 210, data, at / 256 * 210, 210),
    ensures
        q6_k_at(part, row_dim, i) == q6_k_at(data, n, at),
{
    let p = i / 256 * 210;
    let d = at / 256 * 210;
    let side = i % 256 / 128;
    lemma_mod_mod(i, 128, 2);
    lemma_mod_mod(at, 128, 2);
    lemma_mod_mod(i, 32, 8);
    lemma_mod_mod(at, 32, 8);
    let g = i % 128 / 32;
    let l = i % 32;
    let low = side * 64 + g % 2 * 32 + l;
    let high = 128 + side * 32 + l;
    let scale = 192 + side * 8 + l / 16 + 2 * g;
    assert(part[p + low] == data[d + low]);
    assert(part[p + high] == data[d + high]);
    assert(part[p + scale] == data[d + scale]);
    assert(part[p + 208] == data[d + 208]);
    assert(part[p + 209] == data[d + 209]);
}

proof fn lemma_same_full(
    part: Seq<u8>,
    data: Seq<u8>,
    dtype: GgmlType,
    row_dim: int,
    n: int,
    i: int,
    at: int,
)
    requires
        dtype == GgmlType::F32,
        0 <= i,
        0 <= at,
        stored(part, row_dim, i / 1, 1, 4),
        stored(data, n, at / 1, 1, 4),
        same_bytes(part, i / 1 * 4, data, at / 1 * 4, 4),
    ensures
        element(part, dtype, row_dim, i) == element(data, dtype, n, at),
{
    assert(part[i / 1 * 4 + 0] == data[at / 1 * 4 + 0]);
    assert(part[i / 1 * 4 + 1] == data[at / 1 * 4 + 1]);
    assert(part[i / 1 * 4 + 2] == data[at / 1 * 4 + 2]);
    assert(part[i / 1 * 4 + 3] == data[at / 1 * 4 + 3]);
}

proof fn lemma_same_short(
    part: Seq<u8>,
    data: Seq<u8>,
    dtype: GgmlType,
    row_dim: int,
    n: int,
    i: int,
    at: int,
)
    requires
        dtype == GgmlType::F16 || dtype == GgmlType::BF16,
        0 <= i,
        0 <= at,
        stored(part, row_dim, i / 1, 1, 2),
        stored(data, n, at / 1, 1, 2),
        same_bytes(part, i / 1 * 2, data, at / 1 * 2, 2),
    ensures
        element(part, dtype, row_dim, i) == element(data, dtype, n, at),
{
    assert(part[i / 1 * 2 + 0] == data[at / 1 * 2 + 0]);
    assert(part[i / 1 * 2 + 1] == data[at / 1 * 2 + 1]);
}

/// Elements at the same place of equal blocks are equal.
proof fn lemma_same_block(
    part: Seq<u8>,
    data: Seq<u8>,
    dtype: GgmlType,
    row_dim: int,
    n: int,
    i: int,
    at: int,
)
    requires
        0 <= i,
        0 <= at,
        ({
            let size = dtype.elements() as int;
            let bytes = dtype.bytes() as int;
            &&& 0 < size
            &&& i % size == at % size
            &&& stored(part, row_dim, i / size, size, bytes)
            &&& stored(data, n, at / size, size, bytes)
            &&& same_bytes(part, i / size * bytes, data, at / size * bytes, bytes)
        }),
    ensures
        element(part, dtype, row_dim, i) == element(data, dtype, n, at),
{
    match dtype {
        GgmlType::F32 => {
            lemma_same_full(part, data, dtype, row_dim, n, i, at);
        },
        GgmlType::F16 => {
            lemma_same_short(part, data, dtype, row_dim, n, i, at);
        },
        GgmlType::BF16 => {
            lemma_same_short(part, data, dtype, row_dim, n, i, at);
        },
        GgmlType::Q8_0 => {
            lemma_same_q8_0(part, data, row_dim, n, i, at);
        },
        GgmlType::Q4_0 => {
            lemma_same_q4_0(part, data, row_dim, n, i, at);
        },
        GgmlType::Q4K => {
            lemma_same_q4_k(part, data, row_dim, n, i, at);
        },
        GgmlType::Q6K => {
            lemma_same_q6_k(part, data, row_dim, n, i, at);
        },
        GgmlType::Other(_, _) => {},
    }
}

/// Reading one row is reading the whole tensor and cutting the row out of it,
/// for a row of whole blocks that the tensor holds.
pub proof fn lemma_row_is_cut(data: Seq<u8>, dtype: GgmlType, n: int, id: int, row_dim: int)
    requires
        dtype.elements() > 0,
        dtype.bytes() > 0,
        0 <= id,
        0 <= row_dim,
        row_dim % (dtype.elements() as int) == 0,
        id * row_dim + row_dim <= n,
        id * row_bytes(dtype, row_dim) + row_bytes(dtype, row_dim) <= data.len(),
    ensures
        stored_row(data, dtype, id, row_dim) == decoded_row(elements(data, dtype, n), id, row_dim),
{
    let size = dtype.elements() as int;
    let bytes = dtype.bytes() as int;
    let q = row_dim / size;
    let from = id * row_bytes(dtype, row_dim);
    let part = data.subrange(from, from + row_bytes(dtype, row_dim));
    lemma_fundamental_div_mod(row_dim, size);
    assert(row_dim == q * size) by (nonlinear_arith)
        requires
            row_dim == size * q,
    ;
    assert(id * row_dim + row_dim == (id * q + q) * size) by (nonlinear_arith)
        requires
            row_dim == q * size,
    ;
    assert(id * (q * bytes) + q * bytes == (id * q + q) * bytes) by (nonlinear_arith);
    assert(0 <= from) by (nonlinear_arith)
        requires
            from == id * (q * bytes),
            0 <= id,
            0 <= q,
            0 < bytes,
    ;
    assert(0 <= id * row_dim) by (nonlinear_arith)
        requires
            0 <= id,
            0 <= row_dim,
    ;
    let whole = elements(data, dtype, n);
    let row = whole.subrange(id * row_dim, id * row_dim + row_dim);
    assert forall|i: int| 0 <= i < row_dim implies elements(part, dtype, row_dim)[i] == row[i] by {
        lemma_row_block(id, q, size, bytes, i, n, data.len() as int);
        let at = id * row_dim + i;
        assert(row[i] == element(data, dtype, n, at));
        assert(same_bytes(part, i / size * bytes, data, at / size * bytes, bytes));
        lemma_same_block(part, data, dtype, row_dim, n, i, at);
    }
    assert(stored_row(data, dtype, id, row_dim) == elements(part, dtype, row_dim));
    assert(elements(part, dtype, row_dim) == row);
}

/// Start of row `id` of `size` items, if the row ends within `len`.
pub fn row_start(id: u32, size: usize, len: usize) -> (r: Option<usize>)
    ensures
        r is Some <==> id * size + size <= len,
        r matches Some(at) ==> at == id * size,
{
    match (id as usize).checked_mul(size) {
        Some(at) => {
            if size <= len && at <= len - size {
                Some(at)
            } else {
                None
            }
        },
        None => None,
    }
}

fn cut_row(all: &[Weight], id: u32, row_dim: usize) -> (r: Vec<Weight>)
    ensures
        r@ == decoded_row(all@, id as int, row_dim as int),
{
    match row_start(id, row_dim, all.len()) {
        Some(at) => {
            let part = &all[at..at + row_dim];
            vstd::slice::slice_to_vec(part)
        },
        None => zero_row(row_dim),
    }
}

/// Decoded tensors of a layer.
pub struct CachedLayer {
    pub layer_idx: u32,
    pub tensors: StringHashMap<Vec<Weight>>,
    /// Size of the decoded elements as single-precision numbers.
    pub size_bytes: usize,
}

impl CachedLayer {
    /// The elements of each tensor by name.
    pub open spec fn contents(self) -> Map<Seq<char>, Seq<Weight>> {
        self.tensors@.map_values(|v: Vec<Weight>| v@)
    }
}

/// Number of elements of the tensors at some positions.
pub open spec fn total_elements(tensors: Seq<TensorInfo>, positions: Seq<usize>) -> nat
    decreases positions.len(),
{
    if positions.len() == 0 {
        0
    } else {
        total_elements(tensors, positions.drop_last()) + model::product(
            tensors[positions.last() as int].dimensions@,
        )
    }
}

proof fn lemma_total_increases(tensors: Seq<TensorInfo>, positions: Seq<usize>, k: int)
    requires
        0 <= k <= positions.len(),
    ensures
        total_elements(tensors, positions.take(k)) <= total_elements(tensors, positions),
    decreases positions.len(),
{
    if k < positions.len() {
        lemma_total_increases(tensors, positions.drop_last(), k);
        assert(positions.drop_last().take(k) == positions.take(k));
    } else {
        assert(positions.take(k) == positions);
    }
}

/// Reads tensors of a mapped model file on demand.
pub struct SsdStreamer<'a> {
    pub loader: MmapLoader<'a>,
    pub budget: usize,
}

impl<'a> SsdStreamer<'a> {
    /// The tensor's position in the file can be computed without overflow.
    pub open spec fn addressable(self, tensor: TensorInfo) -> bool {
        self.loader.addressable(tensor.offset, tensor.size_bytes)
    }

    /// The tensor's data lies within the file.
    pub open spec fn within(self, tensor: TensorInfo) -> bool {
        self.loader.within(tensor.offset, tensor.size_bytes)
    }

    /// The tensor's data.
    pub open spec fn data(self, tensor: TensorInfo) -> Seq<u8> {
        self.loader.data(tensor.offset, tensor.size_bytes)
    }

    /// The error for a tensor whose data does not lie within the file.
    pub open spec fn bounds_error(self, tensor: TensorInfo) -> LoadError {
        LoadError::OutOfBounds(
            (self.loader.data_offset + tensor.offset) as u64,
            tensor.size_bytes,
            self.loader.bytes@.len() as usize,
        )
    }

    /// The decoded elements of a tensor.
    pub open spec fn decoded(self, tensor: TensorInfo) -> Seq<Weight> {
        elements(self.data(tensor), tensor.dtype, model::product(tensor.dimensions@) as int)
    }

    /// The decoded tensors at some positions, by name.
    pub open spec fn decoded_by_name(
        self,
        tensors: Seq<TensorInfo>,
        positions: Seq<usize>,
    ) -> Map<Seq<char>, Seq<Weight>>
        decreases positions.len(),
    {
        if positions.len() == 0 {
            Map::empty()
        } else {
            let tensor = tensors[positions.last() as int];
            self.decoded_by_name(tensors, positions.drop_last()).insert(
                tensor.name@,
                self.decoded(tensor),
            )
        }
    }

    /// A streamer over a mapped file.
    pub fn new(loader: MmapLoader<'a>, budget: usize) -> (r: Self)
        ensures
            r.loader == loader,
            r.budget == budget,
    {
        SsdStreamer { loader, budget }
    }

    /// The stored bytes of a tensor.
    pub fn raw_tensor_data(&self, tensor: &TensorInfo) -> (r: Result<&'a [u8], LoadError>)
        requires
            self.addressable(*tensor),
        ensures
            match r {
                Ok(d) => self.within(*tensor) && d@ == self.data(*tensor),
                Err(e) => !self.within(*tensor) && e == self.bounds_error(*tensor),
            },
    {
        self.loader.get_tensor_data(tensor.offset, tensor.size_bytes)
    }

    /// Decodes a tensor.
    pub fn load_tensor_f32(&self, tensor: &TensorInfo) -> (r: Result<Vec<Weight>, LoadError>)
        requires
            self.addressable(*tensor),
            tensor.countable(),
        ensures
            match r {
                Ok(v) => self.within(*tensor) && v@ == self.decoded(*tensor),
                Err(e) => !self.within(*tensor) && e == self.bounds_error(*tensor),
            },
    {
        let data = match self.raw_tensor_data(tensor) {
            Ok(d) => d,
            Err(e) => {
                return Err(e);
            },
        };
        match tensor.element_count() {
            Some(n) => Ok(dequantize(data, &tensor.dtype, n)),
            None => Ok(Vec::new()),
        }
    }

    /// Decodes the tensor with a name.
    pub fn load_named_tensor_f32(&self, gguf: &GgufFile, name: &str) -> (r: Result<
        Vec<Weight>,
        LoadError,
    >)
        requires
            gguf.position(name@) matches Some(i) ==> self.addressable(gguf.tensors@[i])
                && gguf.tensors@[i].countable(),
        ensures
            match gguf.position(name@) {
                Some(i) => match r {
                    Ok(v) => self.within(gguf.tensors@[i]) && v@ == self.decoded(gguf.tensors@[i]),
                    Err(e) => !self.within(gguf.tensors@[i]) && e == self.bounds_error(
                        gguf.tensors@[i],
                    ),
                },
                None => r matches Err(LoadError::NotFound(n)) && n@ == name@,
            },
    {
        match gguf.find_tensor(name) {
            Some(tensor) => self.load_tensor_f32(tensor),
            None => Err(LoadError::NotFound(string_copy(name))),
        }
    }

    /// Decodes the tensors of a layer. Fails at the first whose data does not
    /// lie within the file.
    pub fn load_layer(&self, gguf: &GgufFile, layer_idx: u32) -> (r: Result<CachedLayer, LoadError>)
        requires
            forall|i: int|
                0 <= i < gguf.tensors@.len() ==> self.addressable(#[trigger] gguf.tensors@[i])
                    && gguf.tensors@[i].countable(),
            4 * total_elements(
                gguf.tensors@,
                model::layer_positions(gguf.tensors@, layer_idx as nat),
            ) <= usize::MAX,
        ensures
            ({
                let positions = model::layer_positions(gguf.tensors@, layer_idx as nat);
                match r {
                    Ok(c) => {
                        &&& forall|k: int|
                            0 <= k < positions.len() ==> self.within(
                                gguf.tensors@[#[trigger] positions[k] as int],
                            )
                        &&& c.layer_idx == layer_idx
                        &&& c.contents() == self.decoded_by_name(gguf.tensors@, positions)
                        &&& c.size_bytes == 4 * total_elements(gguf.tensors@, positions)
                    },
                    Err(e) => exists|k: int|
                        0 <= k < positions.len() && !self.within(
                            gguf.tensors@[#[trigger] positions[k] as int],
                        ) && e == self.bounds_error(gguf.tensors@[positions[k] as int])
                            && forall|m: int|
                            0 <= m < k ==> self.within(gguf.tensors@[#[trigger] positions[m] as int]),
                }
            }),
    {
        let positions = gguf.layer_tensors(layer_idx);
        let mut tensors: StringHashMap<Vec<Weight>> = StringHashMap::new();
        let mut size_bytes: usize = 0;
        assert(positions@.take(0) == Seq::<usize>::empty());
        assert(tensors@.map_values(|v: Vec<Weight>| v@) == Map::<Seq<char>, Seq<Weight>>::empty());
        for k in 0..positions.len()
            invariant
                positions@ == model::layer_positions(gguf.tensors@, layer_idx as nat),
                forall|i: int|
                    0 <= i < gguf.tensors@.len() ==> self.addressable(#[trigger] gguf.tensors@[i])
                        && gguf.tensors@[i].countable(),
                forall|m: int| 0 <= m < positions@.len() ==> (#[trigger] positions@[m])
                    < gguf.tensors@.len(),
                forall|m: int|
                    0 <= m < k ==> self.within(gguf.tensors@[#[trigger] positions@[m] as int]),
                4 * total_elements(gguf.tensors@, positions@) <= usize::MAX,
                tensors@.map_values(|v: Vec<Weight>| v@) == self.decoded_by_name(
                    gguf.tensors@,
                    positions@.take(k as int),
                ),
                size_bytes == 4 * total_elements(gguf.tensors@, positions@.take(k as int)),
        {
            let tensor = &gguf.tensors[positions[k]];
            let ghost next = positions@.take(k + 1);
            assert(next.drop_last() == positions@.take(k as int));
            let data = match self.load_tensor_f32(tensor) {
                Ok(v) => v,
                Err(e) => {
                    assert(!self.within(gguf.tensors@[positions@[k as int] as int]));
                    return Err(e);
                },
            };
            proof {
                lemma_total_increases(gguf.tensors@, positions@, k + 1);
            }
            size_bytes = size_bytes + data.len() * 4;
            let ghost before = tensors@;
            let ghost view = data@;
            tensors.insert(string_copy(tensor.name.as_str()), data);
            assert(tensors@.map_values(|v: Vec<Weight>| v@) == before.map_values(
                |v: Vec<Weight>| v@,
            ).insert(tensor.name@, view));
        }
        assert(positions@.take(positions@.len() as int) == positions@);
        Ok(CachedLayer { layer_idx, tensors, size_bytes })
    }

    /// The ranges of the file that memory hints for a layer cover: start and
    /// length for each of its tensors.
    pub fn layer_ranges(&self, gguf: &GgufFile, layer_idx: u32) -> (r: Vec<(u64, u64)>)
        requires
            forall|i: int|
                0 <= i < gguf.tensors@.len() ==> self.addressable(#[trigger] gguf.tensors@[i]),
        ensures
            r@ == model::layer_positions(gguf.tensors@, layer_idx as nat).map_values(
                |p: usize|
                    (
                        (self.loader.data_offset + gguf.tensors@[p as int].offset) as u64,
                        gguf.tensors@[p as int].size_bytes,
                    ),
            ),
    {
        let positions = gguf.layer_tensors(layer_idx);
        let mut r: Vec<(u64, u64)> = Vec::new();
        let ghost range = |p: usize|
            (
                (self.loader.data_offset + gguf.tensors@[p as int].offset) as u64,
                gguf.tensors@[p as int].size_bytes,
            );
        for k in 0..positions.len()
            invariant
                forall|i: int|
                    0 <= i < gguf.tensors@.len() ==> self.addressable(#[trigger] gguf.tensors@[i]),
                forall|m: int| 0 <= m < positions@.len() ==> (#[trigger] positions@[m])
                    < gguf.tensors@.len(),
                range == (|p: usize|
                    (
                        (self.loader.data_offset + gguf.tensors@[p as int].offset) as u64,
                        gguf.tensors@[p as int].size_bytes,
                    )),
                r@ == positions@.map_values(range).take(k as int),
        {
            let tensor = &gguf.tensors[positions[k]];
            r.push(self.loader.advice_range(tensor.offset, tensor.size_bytes));
            assert(r@ == positions@.map_values(range).take(k + 1));
        }
        assert(r@ == positions@.map_values(range));
        r
    }

    /// Decodes some rows of a tensor, each of `row_dim` elements. Rows that the
    /// tensor does not hold are zero.
    pub fn load_tensor_rows(
        &self,
        tensor: &TensorInfo,
        row_ids: &[u32],
        row_dim: usize,
    ) -> (r: Result<Vec<Vec<Weight>>, LoadError>)
        requires
            self.addressable(*tensor),
            tensor.dtype.elements() > 0,
            row_dim as int % (tensor.dtype.elements() as int) != 0 ==> tensor.countable(),
        ensures
            match r {
                Ok(rows) => self.within(*tensor) && rows@.len() == row_ids@.len() && forall|k: int|
                    0 <= k < row_ids@.len() ==> (#[trigger] rows@[k])@ == tensor_row(
                        self.data(*tensor),
                        *tensor,
                        row_ids@[k] as int,
                        row_dim as int,
                    ),
                Err(e) => !self.within(*tensor) && e == self.bounds_error(*tensor),
            },
    {
        let block_size: usize = tensor.dtype.block_size();
        let block_bytes: usize = tensor.dtype.type_size();
        let mut rows: Vec<Vec<Weight>> = Vec::new();
        if row_dim % block_size != 0 {
            let full = match self.load_tensor_f32(tensor) {
                Ok(v) => v,
                Err(e) => {
                    return Err(e);
                },
            };
            for k in 0..row_ids.len()
                invariant
                    rows@.len() == k,
                    row_dim as int % (tensor.dtype.elements() as int) != 0,
                    full@ == self.decoded(*tensor),
                    forall|m: int|
                        0 <= m < k ==> (#[trigger] rows@[m])@ == tensor_row(
                            self.data(*tensor),
                            *tensor,
                            row_ids@[m] as int,
                            row_dim as int,
                        ),
            {
                rows.push(cut_row(full.as_slice(), row_ids[k], row_dim));
            }
            return Ok(rows);
        }
        let data = match self.raw_tensor_data(tensor) {
            Ok(d) => d,
            Err(e) => {
                return Err(e);
            },
        };
        let len: usize = data.len();
        let size: Option<usize> = (row_dim / block_size).checked_mul(block_bytes);
        for k in 0..row_ids.len()
            invariant
                rows@.len() == k,
                row_dim as int % (tensor.dtype.elements() as int) == 0,
                data@ == self.data(*tensor),
                len == data@.len(),
                size is Some <==> row_bytes(tensor.dtype, row_dim as int) <= usize::MAX,
                size matches Some(n) ==> n == row_bytes(tensor.dtype, row_dim as int),
                forall|m: int|
                    0 <= m < k ==> (#[trigger] rows@[m])@ == tensor_row(
                        self.data(*tensor),
                        *tensor,
                        row_ids@[m] as int,
                        row_dim as int,
                    ),
        {
            let id: u32 = row_ids[k];
            let ghost bytes = row_bytes(tensor.dtype, row_dim as int);
            let row = match size {
                Some(n) => match row_start(id, n, len) {
                    Some(at) => dequantize(&data[at..at + n], &tensor.dtype, row_dim),
                    None => zero_row(row_dim),
                },
                None => {
                    assert(id * bytes >= 0) by (nonlinear_arith)
                        requires
                            id >= 0,
                            bytes >= 0,
                    ;
                    zero_row(row_dim)
                },
            };
            assert(row@ == stored_row(data@, tensor.dtype, id as int, row_dim as int));
            rows.push(row);
        }
        Ok(rows)
    }
}

/// Numbers that are stored as such are read with their least byte first; a short
/// one gives the upper half of a single-precision number, or is of half precision.
/// What the data does not hold is zero.
pub proof fn lemma_plain_numbers_are_read(
    data: &[u8],
    dtype: GgmlType,
    n: usize,
    r: Vec<Weight>,
    i: int,
    half: u16,
    x: Single,
)
    requires
        call_ensures(dequantize, (data, &dtype, n), r),
        0 <= i < n,
        2 * i + 2 <= data@.len() ==> half == data@[2 * i] + 0x100 * data@[2 * i + 1],
        call_ensures(half_to_single, (half,), x),
    ensures
        r@.len() == n,
        dtype == GgmlType::F32 && 4 * i + 4 <= data@.len() ==> (r@[i] matches Weight::Plain(y)
            && y.bits == data@[4 * i] + 0x100 * data@[4 * i + 1] + 0x1_0000 * data@[4 * i + 2]
            + 0x100_0000 * data@[4 * i + 3]),
        dtype == GgmlType::F32 && 4 * i + 4 > data@.len() ==> r@[i] == Weight::Plain(
            Single { bits: 0 },
        ),
        dtype == GgmlType::F16 && 2 * i + 2 <= data@.len() ==> r@[i] == Weight::Plain(x),
        dtype == GgmlType::BF16 && 2 * i + 2 <= data@.len() ==> (r@[i] matches Weight::Plain(y)
            && y.bits == 0x1_0000 * half),
        (dtype == GgmlType::F16 || dtype == GgmlType::BF16) && 2 * i + 2 > data@.len() ==> r@[i]
            == Weight::Plain(Single { bits: 0 }),
        dtype is Other ==> r@[i] == Weight::Plain(Single { bits: 0 }),
{
    assert(r@[i] == element(data@, dtype, n as int, i));
}

/// In a format of blocks, what lies in no whole block of the elements, or in one
/// that ends behind the data, is zero.
pub proof fn lemma_missing_blocks_are_zero(
    data: &[u8],
    dtype: GgmlType,
    n: usize,
    r: Vec<Weight>,
    size: int,
    bytes: int,
    b: int,
    j: int,
)
    requires
        call_ensures(dequantize, (data, &dtype, n), r),
        dtype == GgmlType::Q8_0 && size == 32 && bytes == 34 || dtype == GgmlType::Q4_0 && size
            == 32 && bytes == 18 || dtype == GgmlType::Q4K && size == 256 && bytes == 144 || dtype
            == GgmlType::Q6K && size == 256 && bytes == 210,
        0 <= b,
        0 <= j < size,
        size * b + j < n,
        size * b + size > n || bytes * b + bytes > data@.len(),
    ensures
        r@[size * b + j] == Weight::Plain(Single { bits: 0 }),
{
    let i = size * b + j;
    assert(r@[i] == element(data@, dtype, n as int, i));
    assert(i / size == b) by {
        lemma_fundamental_div_mod_converse(i, size, b, j);
    }
    assert((b + 1) * bytes == bytes * b + bytes) by (nonlinear_arith);
    if size * b + size > n {
        assert(n as int / size <= b) by {
            lemma_fundamental_div_mod(n as int, size);
            let q = n as int / size;
            assert(q <= b) by (nonlinear_arith)
                requires
                    size * q <= n,
                    size * b + size > n,
                    size > 0,
            ;
        }
    }
}

/// A Q8_0 block is a half-precision factor and a byte for each of its 32 elements,
/// the code in two's complement.
pub proof fn lemma_q8_0_block(
    data: &[u8],
    n: usize,
    r: Vec<Weight>,
    b: int,
    scale: u16,
    factor: Single,
    j: int,
)
    requires
        call_ensures(dequantize, (data, &GgmlType::Q8_0, n), r),
        0 <= b,
        32 * b + 32 <= n,
        34 * b + 34 <= data@.len(),
        scale == data@[34 * b] + 0x100 * data@[34 * b + 1],
        call_ensures(half_to_single, (scale,), factor),
        0 <= j < 32,
    ensures
        r@[32 * b + j] matches Weight::Scaled { factor: f, code } && f == factor && -128 <= code
            < 128 && (code - data@[34 * b + 2 + j]) % 256 == 0,
{
    let i = 32 * b + j;
    assert(i / 32 == b && i % 32 == j);
    assert(b < n as int / 32);
    assert(r@[i] == element(data@, GgmlType::Q8_0, n as int, i));
}

/// A Q4_0 block is a half-precision factor and a byte for each two neighbours of
/// its 32 elements: eight is added to the codes, and the first one stands below.
pub proof fn lemma_q4_0_block(
    data: &[u8],
    n: usize,
    r: Vec<Weight>,
    b: int,
    scale: u16,
    factor: Single,
    j: int,
    first: i32,
    second: i32,
)
    requires
        call_ensures(dequantize, (data, &GgmlType::Q4_0, n), r),
        0 <= b,
        32 * b + 32 <= n,
        18 * b + 18 <= data@.len(),
        scale == data@[18 * b] + 0x100 * data@[18 * b + 1],
        call_ensures(half_to_single, (scale,), factor),
        0 <= j < 16,
        -8 <= first < 8,
        -8 <= second < 8,
        data@[18 * b + 2 + j] == (first + 8) + 16 * (second + 8),
    ensures
        r@[32 * b + 2 * j] == (Weight::Scaled { factor, code: first }),
        r@[32 * b + 2 * j + 1] == (Weight::Scaled { factor, code: second }),
{
    let i = 32 * b + 2 * j;
    assert(i / 32 == b && i % 32 == 2 * j && i % 2 == 0);
    assert((i + 1) / 32 == b && (i + 1) % 32 == 2 * j + 1 && (i + 1) % 2 == 1);
    assert(b < n as int / 32);
    assert(r@[i] == element(data@, GgmlType::Q4_0, n as int, i));
    assert(r@[i + 1] == element(data@, GgmlType::Q4_0, n as int, i + 1));
}

/// Twelve bytes hold eight scales and eight minima of six bits: the first four of
/// each stand in bytes of their own; of the others the lower four bits share a
/// byte, and the upper two stand above the first ones.
pub open spec fn holds_scales(data: Seq<u8>, at: int, scales: Seq<i32>, mins: Seq<i32>) -> bool {
    &&& scales.len() == 8 && mins.len() == 8
    &&& forall|s: int| 0 <= s < 8 ==> 0 <= #[trigger] scales[s] < 64
    &&& forall|s: int| 0 <= s < 8 ==> 0 <= #[trigger] mins[s] < 64
    &&& forall|j: int|
        0 <= j < 4 ==> {
            &&& #[trigger] data[at + j] == scales[j] + 64 * (scales[j + 4] as int / 16)
            &&& data[at + 4 + j] == mins[j] + 64 * (mins[j + 4] as int / 16)
            &&& data[at + 8 + j] == scales[j + 4] as int % 16 + 16 * (mins[j + 4] as int % 16)
        }
}

proof fn lemma_scales(data: Seq<u8>, at: int, scales: Seq<i32>, mins: Seq<i32>, s: int)
    requires
        holds_scales(data, at, scales, mins),
        0 <= s < 8,
    ensures
        q4_k_scale(data, at, s) == scales[s],
        q4_k_min(data, at, s) == mins[s],
{
    let j = if s < 4 {
        s
    } else {
        s - 4
    };
    assert(0 <= scales[j] < 64 && 0 <= mins[j] < 64);
    assert(0 <= scales[j + 4] < 64 && 0 <= mins[j + 4] < 64);
    assert(data[at + j] == scales[j] + 64 * (scales[j + 4] as int / 16));
    if s < 4 {
        assert(data[at + s + 4] == data[at + 4 + j]);
    } else {
        assert(data[at + s - 4] == data[at + j]);
        assert(data[at + s] == data[at + 4 + j]);
        assert(data[at + s + 4] == data[at + 8 + j]);
    }
}

/// A Q4_K block has two half-precision numbers, scales and minima for eight
/// sub-blocks of 32 elements, and a byte for each element of a sub-block and the
/// one at its place in the next: the first code stands below.
pub proof fn lemma_q4_k_block(
    data: &[u8],
    n: usize,
    r: Vec<Weight>,
    b: int,
    words: (u16, u16),
    d: Single,
    dmin: Single,
    scales: Seq<i32>,
    mins: Seq<i32>,
    pair: int,
    l: int,
    first: i32,
    second: i32,
)
    requires
        call_ensures(dequantize, (data, &GgmlType::Q4K, n), r),
        0 <= b,
        256 * b + 256 <= n,
        144 * b + 144 <= data@.len(),
        words.0 == data@[144 * b] + 0x100 * data@[144 * b + 1],
        words.1 == data@[144 * b + 2] + 0x100 * data@[144 * b + 3],
        call_ensures(half_to_single, (words.0,), d),
        call_ensures(half_to_single, (words.1,), dmin),
        holds_scales(data@, 144 * b + 4, scales, mins),
        0 <= pair < 4,
        0 <= l < 32,
        0 <= first < 16,
        0 <= second < 16,
        data@[144 * b + 16 + 32 * pair + l] == first + 16 * second,
    ensures
        r@[256 * b + 64 * pair + l] == (Weight::Shifted {
            d,
            scale: scales[2 * pair],
            code: first,
            dmin,
            min: mins[2 * pair],
        }),
        r@[256 * b + 64 * pair + 32 + l] == (Weight::Shifted {
            d,
            scale: scales[2 * pair + 1],
            code: second,
            dmin,
            min: mins[2 * pair + 1],
        }),
{
    let at = 144 * b + 4;
    lemma_scales(data@, at, scales, mins, 2 * pair);
    lemma_scales(data@, at, scales, mins, 2 * pair + 1);
    lemma_q4_k_place(b, pair, 0, l, n as int);
    lemma_q4_k_place(b, pair, 1, l, n as int);
    let i = 256 * b + 32 * (2 * pair) + l;
    let k = 256 * b + 32 * (2 * pair + 1) + l;
    assert(r@[i] == q4_k_at(data@, n as int, i));
    assert(r@[k] == q4_k_at(data@, n as int, k));
    assert(data@[b * 144 + 16 + pair * 32 + l] == first + 16 * second);
}

proof fn lemma_q4_k_place(b: int, pair: int, odd: int, l: int, n: int)
    requires
        0 <= b,
        0 <= pair < 4,
        0 <= odd < 2,
        0 <= l < 32,
        256 * b + 256 <= n,
    ensures
        ({
            let i = 256 * b + 32 * (2 * pair + odd) + l;
            &&& i / 256 == b
            &&& i % 256 / 32 == 2 * pair + odd
            &&& i % 32 == l
            &&& (2 * pair + odd) / 2 == pair
            &&& (2 * pair + odd) % 2 == odd
            &&& b < n / 256
        }),
{
    let i = 256 * b + 32 * (2 * pair + odd) + l;
    assert(i % 256 == 32 * (2 * pair + odd) + l);
}

/// In half a Q6_K block four codes, each with 32 added, share three bytes: two of
/// lower halves and one of upper pairs of bits.
pub open spec fn holds_codes(low: int, next: int, high: int, codes: Seq<i32>) -> bool {
    &&& codes.len() == 4
    &&& forall|g: int| 0 <= g < 4 ==> -32 <= #[trigger] codes[g] < 32
    &&& low == (codes[0] + 32) % 16 + 16 * ((codes[2] + 32) % 16)
    &&& next == (codes[1] + 32) % 16 + 16 * ((codes[3] + 32) % 16)
    &&& high == (codes[0] + 32) / 16 + 4 * ((codes[1] + 32) / 16) + 16 * ((codes[2] + 32) / 16) + 64
        * ((codes[3] + 32) / 16)
}

/// A Q6_K block has the lower halves of its codes, their upper pairs of bits, a
/// scale in two's complement for each 16 elements, and a half-precision number. The
/// four codes that share bytes are 32 elements apart.
pub proof fn lemma_q6_k_block(
    data: &[u8],
    n: usize,
    r: Vec<Weight>,
    b: int,
    word: u16,
    d: Single,
    side: int,
    l: int,
    codes: Seq<i32>,
    g: int,
)
    requires
        call_ensures(dequantize, (data, &GgmlType::Q6K, n), r),
        0 <= b,
        256 * b + 256 <= n,
        210 * b + 210 <= data@.len(),
        word == data@[210 * b + 208] + 0x100 * data@[210 * b + 209],
        call_ensures(half_to_single, (word,), d),
        0 <= side < 2,
        0 <= l < 32,
        holds_codes(
            data@[210 * b + 64 * side + l] as int,
            data@[210 * b + 64 * side + 32 + l] as int,
            data@[210 * b + 128 + 32 * side + l] as int,
            codes,
        ),
        0 <= g < 4,
    ensures
        r@[256 * b + 128 * side + 32 * g + l] matches Weight::Graded { d: e, scale, code } && e == d
            && code == codes[g] && -128 <= scale < 128 && (scale - data@[210 * b + 192 + 8 * side
            + 2 * g + l / 16]) % 256 == 0,
{
    let i = 256 * b + 128 * side + 32 * g + l;
    let low = data@[210 * b + 64 * side + l] as int;
    let next = data@[210 * b + 64 * side + 32 + l] as int;
    let high = data@[210 * b + 128 + 32 * side + l] as int;
    lemma_q6_k_place(b, side, g, l, n as int);
    lemma_codes(low, next, high, codes, g);
    assert(r@[i] == q6_k_at(data@, n as int, i));
    assert(data@[b * 210 + side * 64 + g % 2 * 32 + l] == if g % 2 == 0 {
        low
    } else {
        next
    });
    assert(data@[b * 210 + 128 + side * 32 + l] == high);
}

proof fn lemma_q6_k_place(b: int, side: int, g: int, l: int, n: int)
    requires
        0 <= b,
        0 <= side < 2,
        0 <= g < 4,
        0 <= l < 32,
        256 * b + 256 <= n,
    ensures
        ({
            let i = 256 * b + 128 * side + 32 * g + l;
            &&& i / 256 == b
            &&& i % 256 / 128 == side
            &&& i % 128 / 32 == g
            &&& i % 32 == l
            &&& b < n / 256
        }),
{
    let i = 256 * b + 128 * side + 32 * g + l;
    assert(i % 256 == 128 * side + 32 * g + l);
    assert(i % 128 == 32 * g + l);
}

proof fn lemma_codes(low: int, next: int, high: int, codes: Seq<i32>, g: int)
    requires
        holds_codes(low, next, high, codes),
        0 <= g < 4,
    ensures
        q6_k_code(
            if g % 2 == 0 {
                low
            } else {
                next
            },
            high,
            g,
        ) == codes[g],
{
    assert(-32 <= codes[0] < 32 && -32 <= codes[1] < 32);
    assert(-32 <= codes[2] < 32 && -32 <= codes[3] < 32);
    let a = (codes[0] + 32) / 16;
    let b = (codes[1] + 32) / 16;
    let c = (codes[2] + 32) / 16;
    let d = (codes[3] + 32) / 16;
    assert(high == a + 4 * (b + 4 * (c + 4 * d)));
    assert(high / 4 == b + 4 * (c + 4 * d));
    assert(high / 16 == c + 4 * d);
    assert(high / 64 == d);
    assert(g == 0 || g == 1 || g == 2 || g == 3);
}

/// What is infinite stays infinite. What is not a number stays none: it is made
/// quiet, and the rest of its fraction stands at the upper end.
pub proof fn lemma_half_keeps_the_infinite(h: u16, r: Single)
    requires
        call_ensures(half_to_single, (h,), r),
        h % 0x8000 >= 0x7C00,
    ensures
        h % 0x8000 == 0x7C00 ==> r.bits % 0x8000_0000 == 0x7F80_0000,
        h % 0x8000 > 0x7C00 ==> r.bits % 0x8000_0000 == 0x7FC0_0000 + 0x2000 * (h % 0x200),
        r.bits >= 0x8000_0000 <==> h >= 0x8000,
{
}

/// A row that is read by itself is the one that the whole tensor has there; rows
/// of whole blocks that end behind the data are zero.
pub proof fn lemma_rows_are_those_of_the_tensor(
    streamer: &SsdStreamer<'_>,
    tensor: &TensorInfo,
    full: Vec<Weight>,
    row_ids: &[u32],
    row_dim: usize,
    rows: Vec<Vec<Weight>>,
    k: int,
)
    requires
        tensor.dtype.elements() > 0,
        tensor.dtype.bytes() > 0,
        call_ensures(SsdStreamer::load_tensor_f32, (streamer, tensor), Ok(full)),
        call_ensures(
            SsdStreamer::load_tensor_rows,
            (streamer, tensor, row_ids, row_dim),
            Ok(rows),
        ),
        0 <= k < row_ids@.len(),
    ensures
        rows@.len() == row_ids@.len(),
        ({
            let blocks = row_dim as int / tensor.dtype.elements() as int;
            let whole = row_dim as int % tensor.dtype.elements() as int == 0;
            let from = row_ids@[k] * row_dim;
            let end = (row_ids@[k] + 1) * (blocks * tensor.dtype.bytes());
            &&& from + row_dim <= full@.len() && (!whole || end <= tensor.size_bytes)
                ==> rows@[k]@ == full@.subrange(from, from + row_dim)
            &&& (whole && end > tensor.size_bytes) || (!whole && from + row_dim > full@.len())
                ==> rows@[k]@ == Seq::new(
                row_dim as nat,
                |i: int| Weight::Plain(Single { bits: 0 }),
            )
        }),
{
    let id = row_ids@[k] as int;
    let size = tensor.dtype.elements() as int;
    let data = streamer.data(*tensor);
    let zeros = Seq::new(row_dim as nat, |i: int| Weight::Plain(Single { bits: 0 }));
    assert(self::zeros(row_dim as int) == zeros);
    assert(data.len() == tensor.size_bytes);
    assert(rows@[k]@ == tensor_row(data, *tensor, id, row_dim as int));
    let bytes = row_bytes(tensor.dtype, row_dim as int);
    assert((id + 1) * bytes == id * bytes + bytes) by (nonlinear_arith);
    assert(full@.len() == model::product(tensor.dimensions@));
    if row_dim as int % size == 0 && id * row_dim + row_dim <= full@.len() && id * bytes + bytes
        <= data.len() {
        lemma_row_is_cut(data, tensor.dtype, full@.len() as int, id, row_dim as int);
    }
}

proof fn lemma_decoded_by_name(
    streamer: SsdStreamer<'_>,
    tensors: Seq<TensorInfo>,
    positions: Seq<usize>,
)
    ensures
        forall|name: Seq<char>| #[trigger]
            streamer.decoded_by_name(tensors, positions).contains_key(name) <==> exists|k: int|
                0 <= k < positions.len() && tensors[#[trigger] positions[k] as int].name@ == name,
        forall|k: int|
            #![trigger positions[k]]
            0 <= k < positions.len() && (forall|m: int|
                k < m < positions.len() ==> tensors[#[trigger] positions[m] as int].name@
                    != tensors[positions[k] as int].name@) ==> streamer.decoded_by_name(
                tensors,
                positions,
            )[tensors[positions[k] as int].name@] == streamer.decoded(
                tensors[positions[k] as int],
            ),
    decreases positions.len(),
{
    if positions.len() > 0 {
        let init = positions.drop_last();
        lemma_decoded_by_name(streamer, tensors, init);
        let all = streamer.decoded_by_name(tensors, positions);
        let before = streamer.decoded_by_name(tensors, init);
        assert forall|name: Seq<char>| #[trigger] all.contains_key(name) <==> exists|k: int|
            0 <= k < positions.len() && tensors[#[trigger] positions[k] as int].name@ == name by {
            if before.contains_key(name) {
                let k = choose|k: int|
                    0 <= k < init.len() && tensors[#[trigger] init[k] as int].name@ == name;
                assert(positions[k] == init[k]);
            }
            if exists|k: int|
                0 <= k < positions.len() && tensors[#[trigger] positions[k] as int].name@ == name {
                let k = choose|k: int|
                    0 <= k < positions.len() && tensors[#[trigger] positions[k] as int].name@
                        == name;
                if k < init.len() {
                    assert(init[k] == positions[k]);
                }
            }
        }
        assert forall|k: int|
            #![trigger positions[k]]
            0 <= k < positions.len() && (forall|m: int|
                k < m < positions.len() ==> tensors[#[trigger] positions[m] as int].name@
                    != tensors[positions[k] as int].name@) implies all[tensors[positions[k] as int].name@]
            == streamer.decoded(tensors[positions[k] as int]) by {
            if k < init.len() {
                assert(init[k] == positions[k]);
                assert(tensors[positions[init.len() as int] as int].name@
                    != tensors[positions[k] as int].name@);
                assert forall|m: int| k < m < init.len() implies tensors[#[trigger] init[m] as int].name@
                    != tensors[init[k] as int].name@ by {
                    assert(init[m] == positions[m]);
                }
            }
        }
    }
}

/// A loaded layer has the tensors that belong to it and no other, each with the
/// elements that it has when it is loaded by itself; where two have one name, the
/// last. Its size is four bytes for each element of all of them.
pub proof fn lemma_layer_is_loaded(
    streamer: &SsdStreamer<'_>,
    gguf: &GgufFile,
    layer: u32,
    positions: Vec<usize>,
    c: CachedLayer,
    k: int,
    v: Vec<Weight>,
)
    requires
        call_ensures(GgufFile::layer_tensors, (gguf, layer), positions),
        call_ensures(SsdStreamer::load_layer, (streamer, gguf, layer), Ok(c)),
    ensures
        c.layer_idx == layer,
        forall|name: Seq<char>| #[trigger]
            c.contents().contains_key(name) <==> exists|j: int|
                0 <= j < positions@.len() && gguf.tensors@[#[trigger] positions@[j] as int].name@
                    == name,
        0 <= k < positions@.len() && (forall|m: int|
            k < m < positions@.len() ==> gguf.tensors@[#[trigger] positions@[m] as int].name@
                != gguf.tensors@[positions@[k] as int].name@) && call_ensures(
            SsdStreamer::load_tensor_f32,
            (streamer, &gguf.tensors@[positions@[k] as int]),
            Ok(v),
        ) ==> c.contents()[gguf.tensors@[positions@[k] as int].name@] == v@,
        c.size_bytes == 4 * positions@.fold_left(
            0int,
            |sum: int, p: usize| sum + model::product(gguf.tensors@[p as int].dimensions@),
        ),
{
    lemma_decoded_by_name(*streamer, gguf.tensors@, positions@);
    lemma_total(gguf.tensors@, positions@);
}

proof fn lemma_total(tensors: Seq<TensorInfo>, positions: Seq<usize>)
    ensures
        total_elements(tensors, positions) == positions.fold_left(
            0int,
            |sum: int, p: usize| sum + model::product(tensors[p as int].dimensions@),
        ),
    decreases positions.len(),
{
    reveal_with_fuel(Seq::fold_left, 2);
    if positions.len() > 0 {
        lemma_total(tensors, positions.drop_last());
    }
}

/// Memory hints for a layer cover each of its tensors, from where it starts in the
/// file and with its size.
pub proof fn lemma_ranges_cover_the_layer(
    streamer: &SsdStreamer<'_>,
    gguf: &GgufFile,
    layer: u32,
    positions: Vec<usize>,
    r: Vec<(u64, u64)>,
    k: int,
)
    requires
        call_ensures(GgufFile::layer_tensors, (gguf, layer), positions),
        call_ensures(SsdStreamer::layer_ranges, (streamer, gguf, layer), r),
    ensures
        r@.len() == positions@.len(),
        0 <= k < positions@.len() && streamer.addressable(gguf.tensors@[positions@[k] as int])
            ==> r@[k].0 == streamer.loader.data_offset + gguf.tensors@[positions@[k] as int].offset
            && r@[k].1 == gguf.tensors@[positions@[k] as int].size_bytes,
{
}

} // verus!
