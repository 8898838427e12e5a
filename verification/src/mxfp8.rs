//! MXFP8 E4M3 weights with shared E8M0 block scales, expanded to BF16.
//!
//! A weight row holds one E4M3 byte per element and one E8M0 scale byte per 32 elements. An
//! element stands for its E4M3 value times two to the power of its scale byte less 127.
use vstd::arithmetic::power2::{
    lemma2_to64, lemma_pow2_adds, lemma_pow2_pos, lemma_pow2_strictly_increases, pow2,
};
use vstd::prelude::*;

verus! {

/// Elements that share one scale byte.
pub const GROUP_SIZE: usize = 32;

/// Whether the sign bit of an E4M3 byte is set.
pub open spec fn e4m3_negative(b: u8) -> bool {
    b >= 128
}

/// Exponent field of an E4M3 byte.
pub open spec fn e4m3_exponent(b: u8) -> int {
    (b as int / 8) % 16
}

/// Significand of an E4M3 byte; below eight for a subnormal value.
pub open spec fn e4m3_significand(b: u8) -> int {
    if e4m3_exponent(b) == 0 {
        b as int % 8
    } else {
        8 + b as int % 8
    }
}

/// Whether an E4M3 byte holds no number: all exponent bits are set.
pub open spec fn e4m3_nan(b: u8) -> bool {
    e4m3_exponent(b) == 15
}

/// Magnitude of an element in units of `2^-136`, the finest step that any element needs.
///
/// A normal E4M3 byte is worth its significand times `2^(exponent - 10)`, a subnormal one its
/// significand times `2^-9`; the block scale is `2^(scale - 127)`.
pub open spec fn element_units(b: u8, scale: u8) -> nat {
    let exponent = if e4m3_exponent(b) == 0 {
        1
    } else {
        e4m3_exponent(b)
    };
    (e4m3_significand(b) * pow2((exponent + scale - 1) as nat)) as nat
}

/// Magnitude of a BF16 value in the same units, from the fifteen bits below its sign.
pub open spec fn bf16_units(bits: int) -> nat {
    let exponent = bits / 128;
    let fraction = bits % 128;
    if exponent == 0 {
        (fraction * 8) as nat
    } else {
        ((128 + fraction) * pow2((exponent + 2) as nat)) as nat
    }
}

/// The fifteen bits of BF16 infinity.
pub const BF16_INFINITY: u16 = 0x7F80;

/// Whether `bits` is the BF16 magnitude of `units`: infinity from `2^128` on, else the largest BF16
/// magnitude that does not pass the value.
pub open spec fn floors_to(units: int, bits: int) -> bool {
    if units >= pow2(264) {
        bits == BF16_INFINITY
    } else {
        &&& 0 <= bits < BF16_INFINITY
        &&& bf16_units(bits) <= units < bf16_units(bits + 1)
    }
}

/// Whether `r` is the BF16 form of an element. What is not a number counts as zero.
pub open spec fn is_bf16_of(b: u8, scale: u8, r: u16) -> bool {
    if e4m3_nan(b) || e4m3_significand(b) == 0 {
        r == 0
    } else if e4m3_negative(b) {
        r >= 0x8000 && floors_to(element_units(b, scale) as int, r - 0x8000)
    } else {
        floors_to(element_units(b, scale) as int, r as int)
    }
}

/// Two to the small powers that the expansion uses.
proof fn small_powers()
    ensures
        pow2(0) == 1,
        pow2(1) == 2,
        pow2(2) == 4,
        pow2(3) == 8,
        pow2(4) == 16,
        pow2(5) == 32,
        pow2(6) == 64,
        pow2(7) == 128,
        pow2(8) == 256,
        pow2(9) == 512,
{
    lemma2_to64();
}

/// Larger exponents give larger powers.
proof fn pow2_grows(a: nat, b: nat)
    requires
        a <= b,
    ensures
        pow2(a) <= pow2(b),
{
    if a < b {
        lemma_pow2_strictly_increases(a, b);
    }
}

/// A normal value is exact: its significand, shifted into place, fills the BF16 fraction.
proof fn normal_is_exact(sig: int, t: int, exp: int)
    requires
        0 <= t <= 3,
        pow2(t as nat) <= sig < pow2((t + 1) as nat),
        1 <= t + exp - 10 <= 254,
    ensures
        128 <= sig * pow2((7 - t) as nat) < 256,
        (sig * pow2((7 - t) as nat)) * pow2((t + exp - 8) as nat) == sig * pow2((exp - 1) as nat),
        sig * pow2((exp - 1) as nat) < pow2(264),
{
    small_powers();
    lemma_pow2_adds((7 - t) as nat, (t + exp - 8) as nat);
    let a = pow2((7 - t) as nat);
    let b = pow2((t + exp - 8) as nat);
    if t == 0 {
        assert(sig * a == sig * 128) by (nonlinear_arith)
            requires
                a == 128,
        ;
    } else if t == 1 {
        assert(sig * a == sig * 64) by (nonlinear_arith)
            requires
                a == 64,
        ;
    } else if t == 2 {
        assert(sig * a == sig * 32) by (nonlinear_arith)
            requires
                a == 32,
        ;
    } else {
        assert(sig * a == sig * 16) by (nonlinear_arith)
            requires
                a == 16,
        ;
    }
    assert((sig * a) * b == sig * (a * b)) by (nonlinear_arith);
    lemma_pow2_adds((t + 1) as nat, (exp - 1) as nat);
    let c = pow2((exp - 1) as nat);
    let d = pow2((t + 1) as nat);
    lemma_pow2_pos((exp - 1) as nat);
    assert(sig * c < d * c) by (nonlinear_arith)
        requires
            sig < d,
            c > 0,
    ;
    pow2_grows((t + exp) as nat, 264);
}

/// A value past the largest exponent is `2^128` or more.
proof fn overflow_is_infinite(sig: int, t: int, exp: int)
    requires
        0 <= t <= 3,
        pow2(t as nat) <= sig,
        t + exp - 10 >= 255,
    ensures
        sig * pow2((exp - 1) as nat) >= pow2(264),
{
    lemma_pow2_adds(t as nat, (exp - 1) as nat);
    let c = pow2((exp - 1) as nat);
    let d = pow2(t as nat);
    assert(sig * c >= d * c) by (nonlinear_arith)
        requires
            sig >= d,
            c >= 0,
    ;
    pow2_grows(264, (t + exp - 1) as nat);
}

/// A normal magnitude is below the next one.
proof fn normal_floors(e: int, f: int)
    requires
        1 <= e <= 254,
        0 <= f < 128,
        (128 + f) * pow2((e + 2) as nat) < pow2(264),
    ensures
        bf16_units(e * 128 + f) == (128 + f) * pow2((e + 2) as nat),
        floors_to((128 + f) * pow2((e + 2) as nat), e * 128 + f),
{
    let m = e * 128 + f;
    assert(m / 128 == e && m % 128 == f);
    lemma_pow2_pos((e + 2) as nat);
    let p = pow2((e + 2) as nat) as int;
    assert((128 + f) * p >= 0) by (nonlinear_arith)
        requires
            p > 0,
            f >= 0,
    ;
    if f < 127 {
        assert((m + 1) / 128 == e && (m + 1) % 128 == f + 1);
        assert((128 + f) * p < (128 + (f + 1)) * p) by (nonlinear_arith)
            requires
                p > 0,
        ;
    } else {
        assert((m + 1) / 128 == e + 1 && (m + 1) % 128 == 0);
        lemma_pow2_adds(1, (e + 2) as nat);
        small_powers();
        assert(pow2(((e + 1) + 2) as nat) == 2 * p);
        assert((128 + f) * p < 128 * (2 * p)) by (nonlinear_arith)
            requires
                p > 0,
                f == 127,
        ;
    }
}

/// A magnitude below the normal range is cut to a multiple of `2^-133`.
proof fn subnormal_floors(units: int, bits: int)
    requires
        0 <= bits < 128,
        bits * 8 <= units < bits * 8 + 8,
    ensures
        floors_to(units, bits),
{
    small_powers();
    lemma2_to64();
    pow2_grows(20, 264);
    assert(bits / 128 == 0 && bits % 128 == bits);
    if bits == 127 {
        assert((bits + 1) / 128 == 1 && (bits + 1) % 128 == 0);
        assert(bf16_units(128) == 128 * pow2(3));
    } else {
        assert((bits + 1) / 128 == 0 && (bits + 1) % 128 == bits + 1);
    }
}

/// The BF16 magnitude of `sig` times `2^(exp - 137)`.
fn magnitude(sig: u16, exp: u16) -> (bits: u16)
    requires
        1 <= sig <= 15,
        1 <= exp <= 1000,
    ensures
        floors_to(sig * pow2((exp - 1) as nat), bits as int),
        bits <= BF16_INFINITY,
        128 <= bits < BF16_INFINITY ==> bf16_units(bits as int) == sig * pow2((exp - 1) as nat),
{
    let (t, filled): (u16, u16) = if sig >= 8 {
        (3, sig * 16)
    } else if sig >= 4 {
        (2, sig * 32)
    } else if sig >= 2 {
        (1, sig * 64)
    } else {
        (0, sig * 128)
    };
    proof {
        small_powers();
        assert(filled == sig * pow2((7 - t) as nat));
        assert(pow2(t as nat) <= sig < pow2((t + 1) as nat));
    }
    if t + exp >= 265 {
        proof {
            overflow_is_infinite(sig as int, t as int, exp as int);
        }
        return BF16_INFINITY;
    }
    if t + exp >= 11 {
        let e: u16 = t + exp - 10;
        proof {
            normal_is_exact(sig as int, t as int, exp as int);
            normal_floors(e as int, filled - 128);
        }
        return e * 128 + (filled - 128);
    }
    let bits: u16 = match exp {
        1 => sig / 8,
        2 => sig / 4,
        3 => sig / 2,
        4 => sig,
        5 => sig * 2,
        6 => sig * 4,
        7 => sig * 8,
        8 => sig * 16,
        9 => sig * 32,
        _ => sig * 64,
    };
    proof {
        let p = pow2((exp - 1) as nat);
        let units = sig * p;
        if exp == 1 {
            assert(sig * p == sig * 1) by (nonlinear_arith)
                requires
                    p == 1,
            ;
        } else if exp == 2 {
            assert(sig * p == sig * 2) by (nonlinear_arith)
                requires
                    p == 2,
            ;
        } else if exp == 3 {
            assert(sig * p == sig * 4) by (nonlinear_arith)
                requires
                    p == 4,
            ;
        } else if exp == 4 {
            assert(sig * p == sig * 8) by (nonlinear_arith)
                requires
                    p == 8,
            ;
        } else if exp == 5 {
            assert(sig * p == sig * 16) by (nonlinear_arith)
                requires
                    p == 16,
            ;
        } else if exp == 6 {
            assert(sig * p == sig * 32) by (nonlinear_arith)
                requires
                    p == 32,
            ;
        } else if exp == 7 {
            assert(sig * p == sig * 64) by (nonlinear_arith)
                requires
                    p == 64,
            ;
        } else if exp == 8 {
            assert(sig * p == sig * 128) by (nonlinear_arith)
                requires
                    p == 128,
            ;
        } else if exp == 9 {
            assert(sig * p == sig * 256) by (nonlinear_arith)
                requires
                    p == 256,
            ;
        } else {
            assert(sig * p == sig * 512) by (nonlinear_arith)
                requires
                    p == 512,
            ;
        }
        subnormal_floors(units, bits as int);
    }
    bits
}

/// Expands one element: E4M3 value times E8M0 block scale, as BF16.
///
/// Bits that BF16 cannot hold are cut off. A value in the normal range of BF16 is exact.
pub fn mxfp8_dequant_element(fp8_byte: u8, e8m0_byte: u8) -> (r: u16)
    ensures
        is_bf16_of(fp8_byte, e8m0_byte, r),
        128 <= r % 0x8000 < BF16_INFINITY ==> bf16_units((r % 0x8000) as int) == element_units(
            fp8_byte,
            e8m0_byte,
        ),
{
    let field: u16 = (fp8_byte as u16 / 8) % 16;
    let mant: u16 = fp8_byte as u16 % 8;
    let sig: u16 = if field == 0 {
        mant
    } else {
        8 + mant
    };
    if field == 15 || sig == 0 {
        return 0;
    }
    let sign: u16 = if fp8_byte >= 128 {
        0x8000
    } else {
        0
    };
    let shift: u16 = if field == 0 {
        1
    } else {
        field
    };
    let bits: u16 = magnitude(sig, e8m0_byte as u16 + shift);
    assert((sign + bits) as u16 % 0x8000 == bits);
    sign + bits
}

/// What makes a pair of tensors no MXFP8 weight.
#[derive(Debug, Clone, Copy, PartialEq, Eq, Structural)]
pub enum Mxfp8Error {
    /// The weight is not stored as FP8 E4M3.
    NotFp8E4m3,
    /// The weight is not two-dimensional.
    NotTwoDimensional,
    /// The row length is not a multiple of the group size.
    RaggedGroups {
        k: usize,
    },
    /// The scales are not one per group.
    ScaleShape {
        rows: usize,
        groups: usize,
    },
}

/// Shape of an MXFP8 weight: `n` rows of `k` elements, in `groups` groups per row.
#[derive(Debug, Clone, Copy, PartialEq, Eq, Structural)]
pub struct Mxfp8Shape {
    pub n: usize,
    pub k: usize,
    pub groups: usize,
}

impl Mxfp8Shape {
    /// Whether the rows fall into whole groups.
    pub open spec fn wf(self) -> bool {
        self.k == self.groups * GROUP_SIZE
    }
}

/// Checks the stored type and shape of a weight tensor.
pub fn check_weight(is_fp8_e4m3: bool, shape: &[usize]) -> (r: Result<Mxfp8Shape, Mxfp8Error>)
    ensures
        match r {
            Ok(s) => is_fp8_e4m3 && shape@.len() == 2 && s.wf() && s.n == shape@[0] && s.k
                == shape@[1],
            Err(Mxfp8Error::NotFp8E4m3) => !is_fp8_e4m3,
            Err(Mxfp8Error::NotTwoDimensional) => is_fp8_e4m3 && shape@.len() != 2,
            Err(Mxfp8Error::RaggedGroups { k }) => is_fp8_e4m3 && shape@.len() == 2 && k
                == shape@[1] && k % GROUP_SIZE != 0,
            Err(Mxfp8Error::ScaleShape { .. }) => false,
        },
        r is Ok <==> is_fp8_e4m3 && shape@.len() == 2 && shape@[1] as int % 32 == 0,
        r matches Ok(s) ==> 32 * s.groups == shape@[1],
        r == weight_verdict(is_fp8_e4m3, shape@),
{
    if !is_fp8_e4m3 {
        return Err(Mxfp8Error::NotFp8E4m3);
    }
    if shape.len() != 2 {
        return Err(Mxfp8Error::NotTwoDimensional);
    }
    let k: usize = shape[1];
    if k % GROUP_SIZE != 0 {
        return Err(Mxfp8Error::RaggedGroups { k });
    }
    Ok(Mxfp8Shape { n: shape[0], k, groups: k / GROUP_SIZE })
}

/// Checks the shape of a scale tensor against its weight; only the first two dimensions count.
pub fn check_scales(weight: &Mxfp8Shape, shape: &[usize]) -> (r: Result<(), Mxfp8Error>)
    requires
        shape@.len() >= 2,
    ensures
        r == if shape@[0] == weight.n && shape@[1] == weight.groups {
            Ok::<(), Mxfp8Error>(())
        } else {
            Err(Mxfp8Error::ScaleShape { rows: shape@[0], groups: shape@[1] })
        },
        r == scales_verdict(*weight, shape@),
{
    if shape[0] == weight.n && shape[1] == weight.groups {
        Ok(())
    } else {
        Err(Mxfp8Error::ScaleShape { rows: shape[0], groups: shape[1] })
    }
}

/// The place of element `(i, j)` in a row-major matrix of `k` columns.
pub open spec fn place(k: int, i: int, j: int) -> int {
    i * k + j
}

/// Whether two bytes are the little-endian form of an element's BF16 value.
pub open spec fn stores_element(b: u8, scale: u8, low: u8, high: u8) -> bool {
    is_bf16_of(b, scale, (high * 256 + low) as u16)
}

/// Element `(i, j)` lies inside the matrix, and its group is the one of its place.
proof fn place_and_group(n: int, groups: int, i: int, j: int)
    requires
        0 <= i < n,
        groups >= 0,
        0 <= j < groups * 32,
    ensures
        0 <= place(groups * 32, i, j) < n * (groups * 32),
        place(groups * 32, i, j) / 32 == place(groups, i, j / 32),
{
    let t = i * (groups * 32) + j;
    assert(i * (groups * 32) == 32 * (i * groups)) by (nonlinear_arith);
    assert(i * (groups * 32) + groups * 32 <= n * (groups * 32)) by (nonlinear_arith)
        requires
            i + 1 <= n,
            groups >= 0,
    ;
    assert(i * (groups * 32) >= 0) by (nonlinear_arith)
        requires
            i >= 0,
            groups >= 0,
    ;
}

/// Expands a whole weight to little-endian BF16 bytes, row by row.
pub fn dequant_mxfp8_to_bf16(shape: &Mxfp8Shape, fp8: &[u8], scales: &[u8]) -> (r: Vec<u8>)
    requires
        shape.wf(),
        fp8@.len() == shape.n * shape.k,
        scales@.len() == shape.n * shape.groups,
        2 * (shape.n * shape.k) <= usize::MAX,
    ensures
        r@.len() == 2 * (shape.n * shape.k),
        forall|i: int, j: int|
            0 <= i < shape.n && 0 <= j < shape.k ==> {
                let at = #[trigger] place(shape.k as int, i, j);
                stores_element(
                    fp8@[at],
                    scales@[place(shape.groups as int, i, j / 32)],
                    r@[2 * at],
                    r@[2 * at + 1],
                )
            },
        expands(*shape, fp8@, scales@, r@),
{
    let mut out: Vec<u8> = Vec::new();
    let count: usize = fp8.len();
    proof {
        let n = shape.n as int;
        let g = shape.groups as int;
        assert(n * (g * 32) == 32 * (n * g)) by (nonlinear_arith);
    }
    for t in 0..count
        invariant
            count == fp8@.len(),
            2 * count <= usize::MAX,
            count == 32 * scales@.len(),
            out@.len() == 2 * t,
            forall|x: int|
                0 <= x < t ==> #[trigger] stores_element(
                    fp8@[x],
                    scales@[x / 32],
                    out@[2 * x],
                    out@[2 * x + 1],
                ),
    {
        let bits: u16 = mxfp8_dequant_element(fp8[t], scales[t / 32]);
        let low: u8 = (bits % 256) as u8;
        let high: u8 = (bits / 256) as u8;
        let ghost before = out@;
        out.push(low);
        out.push(high);
        assert((high * 256 + low) as u16 == bits);
        assert forall|x: int| 0 <= x < t + 1 implies #[trigger] stores_element(
            fp8@[x],
            scales@[x / 32],
            out@[2 * x],
            out@[2 * x + 1],
        ) by {
            if x < t {
                assert(out@[2 * x] == before[2 * x]);
                assert(out@[2 * x + 1] == before[2 * x + 1]);
            }
        }
    }
    assert forall|i: int, j: int| 0 <= i < shape.n && 0 <= j < shape.k implies {
        let at = #[trigger] place(shape.k as int, i, j);
        stores_element(
            fp8@[at],
            scales@[place(shape.groups as int, i, j / 32)],
            out@[2 * at],
            out@[2 * at + 1],
        )
    } by {
        place_and_group(shape.n as int, shape.groups as int, i, j);
        let at = place(shape.k as int, i, j);
        assert(stores_element(fp8@[at], scales@[at / 32], out@[2 * at], out@[2 * at + 1]));
    }
    out
}

/// A larger BF16 magnitude has larger bits, so an element has one BF16 form only.
pub proof fn bf16_units_increase(a: int, b: int)
    requires
        0 <= a < b <= BF16_INFINITY,
    ensures
        bf16_units(a) < bf16_units(b),
    decreases b - a,
{
    if a + 1 < b {
        bf16_units_increase(a, b - 1);
        bf16_step(b - 1);
    } else {
        bf16_step(a);
    }
}

proof fn bf16_step(m: int)
    requires
        0 <= m < BF16_INFINITY,
    ensures
        bf16_units(m) < bf16_units(m + 1),
{
    let e = m / 128;
    let f = m % 128;
    if e == 0 {
        subnormal_floors(f * 8, f);
        assert(m == f);
        lemma2_to64();
        pow2_grows(20, 264);
    } else {
        lemma_pow2_pos((e + 2) as nat);
        small_powers();
        let p = pow2((e + 2) as nat) as int;
        if f < 127 {
            assert((m + 1) / 128 == e && (m + 1) % 128 == f + 1);
            assert(0 <= (128 + f) * p < (128 + (f + 1)) * p) by (nonlinear_arith)
                requires
                    p > 0,
                    f >= 0,
            ;
        } else {
            assert((m + 1) / 128 == e + 1 && (m + 1) % 128 == 0);
            lemma_pow2_adds(1, (e + 2) as nat);
            assert(pow2(((e + 1) + 2) as nat) == 2 * p);
            assert(0 <= (128 + f) * p < 128 * (2 * p)) by (nonlinear_arith)
                requires
                    p > 0,
                    f == 127,
            ;
        }
    }
}

/// An element has one BF16 form.
pub proof fn one_bf16_form(b: u8, scale: u8, x: u16, y: u16)
    requires
        is_bf16_of(b, scale, x),
        is_bf16_of(b, scale, y),
    ensures
        x == y,
{
    let base: int = if e4m3_negative(b) {
        0x8000
    } else {
        0
    };
    let m = x - base;
    let k = y - base;
    if !(e4m3_nan(b) || e4m3_significand(b) == 0) {
        if m < k {
            if m + 1 < k {
                bf16_units_increase(m + 1, k);
            }
        } else if k < m {
            if k + 1 < m {
                bf16_units_increase(k + 1, m);
            }
        }
    }
}

/// Flipping the sign of an element that is not zero flips the sign of its BF16 form and nothing
/// else.
pub proof fn sign_carries_over(b: u8, scale: u8, x: u16, y: u16)
    requires
        b < 128,
        !e4m3_nan(b),
        e4m3_significand(b) != 0,
        is_bf16_of(b, scale, x),
        is_bf16_of((b + 128) as u8, scale, y),
    ensures
        y == x + 0x8000,
{
    let c = (b + 128) as u8;
    assert(e4m3_exponent(c) == e4m3_exponent(b));
    assert(e4m3_significand(c) == e4m3_significand(b));
    assert(is_bf16_of(c, scale, (x + 0x8000) as u16));
    one_bf16_form(c, scale, y, (x + 0x8000) as u16);
}

/// One more in the scale byte doubles the value of an element.
pub proof fn scale_doubles(b: u8, scale: u8)
    requires
        scale < 255,
    ensures
        element_units(b, (scale + 1) as u8) == 2 * element_units(b, scale),
{
    let exponent = if e4m3_exponent(b) == 0 {
        1
    } else {
        e4m3_exponent(b)
    };
    let p = pow2((exponent + scale - 1) as nat) as int;
    let s = e4m3_significand(b);
    lemma_pow2_adds(1, (exponent + scale - 1) as nat);
    small_powers();
    assert(s * (2 * p) == 2 * (s * p)) by (nonlinear_arith);
    assert(s * p >= 0) by (nonlinear_arith)
        requires
            s >= 0,
            p >= 0,
    ;
}

/// Whether bytes are a whole weight expanded to little-endian BF16, row by row.
pub open spec fn expands(shape: Mxfp8Shape, fp8: Seq<u8>, scales: Seq<u8>, r: Seq<u8>) -> bool {
    &&& r.len() == 2 * (shape.n * shape.k)
    &&& forall|i: int, j: int|
        0 <= i < shape.n && 0 <= j < shape.k ==> {
            let at = #[trigger] place(shape.k as int, i, j);
            stores_element(
                fp8[at],
                scales[place(shape.groups as int, i, j / 32)],
                r[2 * at],
                r[2 * at + 1],
            )
        }
}

/// Element `j` of row `i` is stored in two bytes, the low one first, as the BF16 form of its byte
/// under the scale of its group of thirty-two.
pub proof fn elements_stand_in_their_places(
    shape: Mxfp8Shape,
    fp8: Seq<u8>,
    scales: Seq<u8>,
    r: Seq<u8>,
    i: int,
    j: int,
)
    requires
        expands(shape, fp8, scales, r),
        0 <= i < shape.n,
        0 <= j < shape.k,
    ensures
        r.len() == 2 * (shape.n * shape.k),
        is_bf16_of(
            fp8[i * shape.k + j],
            scales[i * shape.groups + j / 32],
            (r[2 * (i * shape.k + j)] + 256 * r[2 * (i * shape.k + j) + 1]) as u16,
        ),
{
    let at = place(shape.k as int, i, j);
    assert(at == i * shape.k + j);
    assert(stores_element(
        fp8[at],
        scales[place(shape.groups as int, i, j / 32)],
        r[2 * at],
        r[2 * at + 1],
    ));
}

/// Equal bytes under equal scales expand to equal bytes, wherever they stand.
pub proof fn equal_elements_expand_alike(
    shape: Mxfp8Shape,
    fp8: Seq<u8>,
    scales: Seq<u8>,
    r: Seq<u8>,
    i: int,
    j: int,
    k: int,
    l: int,
)
    requires
        expands(shape, fp8, scales, r),
        0 <= i < shape.n,
        0 <= j < shape.k,
        0 <= k < shape.n,
        0 <= l < shape.k,
        fp8[i * shape.k + j] == fp8[k * shape.k + l],
        scales[i * shape.groups + j / 32] == scales[k * shape.groups + l / 32],
    ensures
        r[2 * (i * shape.k + j)] == r[2 * (k * shape.k + l)],
        r[2 * (i * shape.k + j) + 1] == r[2 * (k * shape.k + l) + 1],
{
    elements_stand_in_their_places(shape, fp8, scales, r, i, j);
    elements_stand_in_their_places(shape, fp8, scales, r, k, l);
    let a = 2 * (i * shape.k + j);
    let b = 2 * (k * shape.k + l);
    one_bf16_form(
        fp8[i * shape.k + j],
        scales[i * shape.groups + j / 32],
        (r[a] + 256 * r[a + 1]) as u16,
        (r[b] + 256 * r[b + 1]) as u16,
    );
}

/// Rows of a weight are whole groups of thirty-two.
pub proof fn rows_are_whole_groups(shape: Mxfp8Shape)
    ensures
        shape.wf() <==> shape.k == 32 * shape.groups,
{
}

/// The value of an element: the sign, exponent and mantissa fields of its byte, eight mantissa
/// steps to each power of two and no hidden bit at exponent zero, in steps of `2^-136` under the
/// scale of `2^-127`.
pub proof fn elements_are_worth_their_fields(b: u8, e: int, m: int)
    requires
        0 <= e < 16,
        0 <= m < 8,
        b == 8 * e + m || b == 128 + 8 * e + m,
    ensures
        e4m3_negative(b) <==> b == 128 + 8 * e + m,
        e4m3_nan(b) <==> e == 15,
        e == 0 ==> element_units(b, 0) == m,
        e > 0 ==> element_units(b, 0) == (8 + m) * pow2((e - 1) as nat),
{
    small_powers();
    let p = pow2((e - 1) as nat) as int;
    if e > 0 {
        lemma_pow2_pos((e - 1) as nat);
        assert((8 + m) * p >= 0) by (nonlinear_arith)
            requires
                p >= 0,
                m >= 0,
        ;
    } else {
        assert(m * 1 == m);
    }
}

/// What is no number, and zero, expand to zero, and nothing else expands to a number of the other
/// sign.
pub proof fn only_signs_of_numbers_carry(b: u8, scale: u8, r: u16)
    requires
        is_bf16_of(b, scale, r),
    ensures
        e4m3_nan(b) || e4m3_significand(b) == 0 ==> r == 0,
        !(e4m3_nan(b) || e4m3_significand(b) == 0) ==> (r >= 0x8000 <==> b >= 128),
{
}

/// A BF16 value in the normal range is its fraction, with the hidden bit, times its power of two,
/// and the value one exponent up is twice it. Below that range it is a multiple of `2^-133`.
pub proof fn bf16_values_double_by_exponent(bits: int)
    requires
        0 <= bits,
    ensures
        bits < 128 ==> bf16_units(bits) == 8 * bits,
        128 <= bits < 256 ==> bf16_units(bits) == 8 * bits,
        bits >= 128 ==> bf16_units(bits + 128) == 2 * bf16_units(bits),
{
    small_powers();
    let e = bits / 128;
    let f = bits % 128;
    if bits >= 128 {
        assert((bits + 128) / 128 == e + 1 && (bits + 128) % 128 == f);
        lemma_pow2_adds(1, (e + 2) as nat);
        lemma_pow2_pos((e + 2) as nat);
        let p = pow2((e + 2) as nat) as int;
        assert(pow2(((e + 1) + 2) as nat) == 2 * p);
        assert((128 + f) * (2 * p) == 2 * ((128 + f) * p)) by (nonlinear_arith);
        if bits < 256 {
            assert(e == 1);
            assert((128 + f) * p == (128 + f) * 8) by (nonlinear_arith)
                requires
                    p == 8,
            ;
        }
        assert((128 + f) * p >= 0) by (nonlinear_arith)
            requires
                p >= 0,
                f >= 0,
        ;
    }
}

/// What is found of the stored type and shape of a weight tensor.
pub open spec fn weight_verdict(is_fp8_e4m3: bool, shape: Seq<usize>) -> Result<
    Mxfp8Shape,
    Mxfp8Error,
> {
    if !is_fp8_e4m3 {
        Err(Mxfp8Error::NotFp8E4m3)
    } else if shape.len() != 2 {
        Err(Mxfp8Error::NotTwoDimensional)
    } else if shape[1] as int % 32 != 0 {
        Err(Mxfp8Error::RaggedGroups { k: shape[1] })
    } else {
        Ok(Mxfp8Shape { n: shape[0], k: shape[1], groups: (shape[1] / 32) as usize })
    }
}

/// What is found of the shape of a scale tensor.
pub open spec fn scales_verdict(weight: Mxfp8Shape, shape: Seq<usize>) -> Result<(), Mxfp8Error> {
    if shape[0] == weight.n && shape[1] == weight.groups {
        Ok(())
    } else {
        Err(Mxfp8Error::ScaleShape { rows: shape[0], groups: shape[1] })
    }
}

/// A weight is taken where it is FP8 E4M3, has rows and columns, and its rows are whole groups of
/// thirty-two. What is wrong with it is named, the stored type before the shape.
pub proof fn weights_are_taken_or_named(is_fp8_e4m3: bool, shape: Seq<usize>)
    ensures
        weight_verdict(is_fp8_e4m3, shape) matches Ok(s) ==> is_fp8_e4m3 && shape == seq![s.n, s.k]
            && 32 * s.groups == s.k,
        is_fp8_e4m3 && shape.len() == 2 && (exists|g: int| shape[1] == #[trigger] (32 * g))
            ==> weight_verdict(is_fp8_e4m3, shape) is Ok,
        !is_fp8_e4m3 <==> weight_verdict(is_fp8_e4m3, shape) == Err::<Mxfp8Shape, Mxfp8Error>(
            Mxfp8Error::NotFp8E4m3,
        ),
        is_fp8_e4m3 && shape.len() != 2 <==> weight_verdict(is_fp8_e4m3, shape) == Err::<
            Mxfp8Shape,
            Mxfp8Error,
        >(Mxfp8Error::NotTwoDimensional),
        weight_verdict(is_fp8_e4m3, shape) matches Err(Mxfp8Error::RaggedGroups { k }) ==> k
            == shape[1],
        !(weight_verdict(is_fp8_e4m3, shape) matches Err(Mxfp8Error::ScaleShape { .. })),
{
    if let Ok(s) = weight_verdict(is_fp8_e4m3, shape) {
        assert(shape =~= seq![s.n, s.k]);
    }
}

/// Scales are taken where every row has one for each of its groups, and what they are shaped like
/// is named where not.
pub proof fn scales_are_taken_or_named(weight: Mxfp8Shape, shape: Seq<usize>)
    requires
        weight.k == 32 * weight.groups,
    ensures
        scales_verdict(weight, shape) is Ok <==> shape[0] == weight.n && 32 * shape[1] == weight.k,
        scales_verdict(weight, shape) matches Err(e) ==> e == (Mxfp8Error::ScaleShape {
            rows: shape[0],
            groups: shape[1],
        }),
{
}

} // verus!
