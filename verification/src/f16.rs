//! IEEE 754 half precision, the number format of the compact web model.

use vstd::arithmetic::power2::{lemma2_to64, lemma_pow2_adds, lemma_pow2_pos, lemma_pow2_unfold, pow2};
use vstd::prelude::*;

use crate::ieee::{lemma_units_grow, units, Single};

verus! {

/// Magnitude of the half-precision infinity.
pub open spec fn half_infinity() -> nat {
    0x7c00
}

/// The exact value of a half-precision magnitude, in the units of [`Single::value`]. The
/// infinity stands for 2^16, the number that would follow the largest finite one.
pub open spec fn half_units(m: nat) -> nat {
    units(m, 10) * pow2(125)
}

/// `x` is the half-precision number `h`, in single precision: same sign, and the same value,
/// infinity for infinity, NaN for NaN with its fraction field kept.
pub open spec fn is_widening(h: u16, x: Single) -> bool {
    let m = (h % 0x8000) as nat;
    &&& x.negative() == (h >= 0x8000)
    &&& if m < half_infinity() {
        !x.nan() && x.magnitude() < 0x7f80_0000 && units(x.magnitude() as nat, 23) == half_units(m)
    } else {
        x.magnitude() == 0x7f80_0000 + (m - half_infinity()) * 8192
    }
}

/// `h` is the half-precision number nearest to `x`, and the one with an even fraction field
/// when two of them are equally near: same sign, and no neighbour of `h` is nearer. A NaN
/// gives the quiet NaN.
pub open spec fn is_rounding(x: Single, h: u16) -> bool {
    let m = (h % 0x8000) as nat;
    let v = units(x.magnitude() as nat, 23);
    &&& x.negative() == (h >= 0x8000)
    &&& if x.nan() {
        m == 0x7e00
    } else {
        &&& m <= half_infinity()
        &&& m > 0 ==> {
            let middle = half_units((m - 1) as nat) + half_units(m);
            middle < 2 * v || (middle == 2 * v && m % 2 == 0)
        }
        &&& m < half_infinity() ==> {
            let middle = half_units(m) + half_units(m + 1);
            2 * v < middle || (2 * v == middle && m % 2 == 0)
        }
    }
}

/// The single-precision number that `h` stands for.
pub open spec fn widened(h: u16) -> Single {
    choose|x: Single| is_widening(h, x)
}

/// The half-precision number that `x` rounds to.
pub open spec fn rounded(x: Single) -> u16 {
    choose|h: u16| is_rounding(x, h)
}

/// A half-precision number has one single-precision form.
pub proof fn lemma_widening_is_unique(h: u16, x: Single, y: Single)
    requires
        is_widening(h, x),
        is_widening(h, y),
    ensures
        x == y,
{
    if x.magnitude() < y.magnitude() {
        lemma_units_grow(x.magnitude() as nat, y.magnitude() as nat, 23);
    } else if y.magnitude() < x.magnitude() {
        lemma_units_grow(y.magnitude() as nat, x.magnitude() as nat, 23);
    }
}

/// A larger half-precision magnitude is a strictly larger number.
proof fn lemma_half_units_grow(a: nat, b: nat)
    requires
        a < b,
    ensures
        half_units(a) < half_units(b),
{
    lemma_units_grow(a, b, 10);
    lemma_pow2_pos(125);
    let (u, v, s) = (units(a, 10), units(b, 10), pow2(125));
    assert(u * s < v * s) by (nonlinear_arith)
        requires
            u < v,
            s > 0,
    ;
}

/// A single-precision number rounds to one half-precision number.
pub proof fn lemma_rounding_is_unique(x: Single, g: u16, h: u16)
    requires
        is_rounding(x, g),
        is_rounding(x, h),
    ensures
        g == h,
{
    let (a, b) = ((g % 0x8000) as nat, (h % 0x8000) as nat);
    if !x.nan() {
        if a < b {
            lemma_rounding_ordered(x, a, b);
        } else if b < a {
            lemma_rounding_ordered(x, b, a);
        }
    }
}

/// A number no further than halfway above `a` is not past halfway below a larger `b`.
proof fn lemma_rounding_ordered(x: Single, a: nat, b: nat)
    requires
        a < b <= half_infinity(),
        ({
            let v = units(x.magnitude() as nat, 23);
            let above = half_units(a) + half_units(a + 1);
            2 * v < above || (2 * v == above && a % 2 == 0)
        }),
    ensures
        ({
            let v = units(x.magnitude() as nat, 23);
            let under = half_units((b - 1) as nat) + half_units(b);
            !(under < 2 * v || (under == 2 * v && b % 2 == 0))
        }),
{
    if a + 1 < b {
        lemma_half_units_grow(a, (b - 1) as nat);
        lemma_half_units_grow(a + 1, b);
    }
}

/// Splits a magnitude into its two fields.
proof fn lemma_fields(m: nat, p: nat, e: nat, f: nat)
    requires
        m == pow2(p) * e + f,
        f < pow2(p),
    ensures
        units(m, p) == if e == 0 { f } else { (pow2(p) + f) * pow2((e - 1) as nat) },
{
    let w = pow2(p);
    assert(w * e == e * w) by (nonlinear_arith);
    vstd::arithmetic::div_mod::lemma_fundamental_div_mod_converse(
        m as int,
        w as int,
        e as int,
        f as int,
    );
}

/// Field widths of the two formats.
proof fn lemma_widths()
    ensures
        pow2(10) == 1024,
        pow2(23) == 0x80_0000,
        pow2(13) == 8192,
{
    lemma2_to64();
}

/// Value of a normal half-precision number with exponent field `e` and fraction field `f`.
/// `f` may also be 1024, one past the largest fraction: the carry into the exponent is exact.
proof fn lemma_half_normal(e: nat, f: nat)
    requires
        1 <= e,
        f <= 1024,
    ensures
        half_units(1024 * e + f) == (1024 + f) * 8192 * pow2((e + 111) as nat),
{
    lemma_widths();
    let m = 1024 * e + f;
    if f < 1024 {
        lemma_fields(m, 10, e, f);
    } else {
        lemma_fields(m, 10, e + 1, 0);
        lemma_pow2_unfold(e);
        let s = pow2((e - 1) as nat);
        assert((1024 + 0) * (2 * s) == (1024 + 1024) * s) by (nonlinear_arith);
    }
    assert(units(m, 10) == (1024 + f) * pow2((e - 1) as nat));
    lemma_pow2_adds((e - 1) as nat, 125);
    lemma_pow2_adds(13, (e + 111) as nat);
    let (s, t, u) = (pow2((e - 1) as nat), pow2(125), pow2((e + 111) as nat));
    assert(((1024 + f) * s) * t == (1024 + f) * 8192 * u) by (nonlinear_arith)
        requires
            s * t == 8192 * u,
    ;
}

/// Values of the subnormal half-precision numbers and of the first normal ones.
proof fn lemma_half_small(m: nat)
    requires
        m <= 2048,
    ensures
        half_units(m) == m * pow2(125),
{
    lemma_widths();
    lemma2_to64();
    if m < 1024 {
        lemma_fields(m, 10, 0, m);
    } else if m < 2048 {
        lemma_fields(m, 10, 1, (m - 1024) as nat);
        assert((1024 + (m - 1024)) * pow2(0) == m) by (nonlinear_arith)
            requires
                pow2(0) == 1,
                m >= 1024,
        ;
    } else {
        lemma_fields(m, 10, 2, 0);
    }
}

/// The single-precision number that a half-precision bit pattern stands for.
pub fn to_f32(h: u16) -> (x: Single)
    ensures
        is_widening(h, x),
        x == widened(h),
{
    let sign: u32 = if h >= 0x8000 {
        0x8000_0000
    } else {
        0
    };
    let m: u32 = (h % 0x8000) as u32;
    let exp: u32 = m / 1024;
    let frac: u32 = m % 1024;
    let magnitude: u32 = if exp == 0 {
        if frac == 0 {
            0
        } else {
            let mut e: u32 = 113;
            let mut f: u32 = frac;
            proof {
                lemma2_to64();
                assert(frac * pow2(0) == frac) by (nonlinear_arith)
                    requires
                        pow2(0) == 1,
                ;
            }
            while f < 1024
                invariant
                    0 < frac <= f < 2048,
                    103 <= e <= 113,
                    f == frac * pow2((113 - e) as nat),
                decreases e,
            {
                proof {
                    let k = (113 - e) as nat;
                    let s = pow2(k);
                    lemma2_to64();
                    assert(s < 1024) by (nonlinear_arith)
                        requires
                            frac * s < 1024,
                            frac > 0,
                    ;
                    assert(k < 10);
                    lemma_pow2_unfold(k + 1);
                    assert(2 * (frac * s) == frac * (2 * s)) by (nonlinear_arith);
                }
                f = f * 2;
                e = e - 1;
            }
            proof {
                lemma_widths();
                lemma_half_small(frac as nat);
                lemma_fields((e * 0x80_0000 + (f - 1024) * 8192) as nat, 23, e as nat, ((f - 1024) * 8192) as nat);
                let (k, a) = ((113 - e) as nat, (e - 1) as nat);
                lemma_pow2_adds(13, a);
                lemma_pow2_adds(k, 13 + a);
                let (s, t, u) = (pow2(k), pow2(a), pow2(125));
                assert((0x80_0000 + (f - 1024) * 8192) * t == frac * u) by (nonlinear_arith)
                    requires
                        f == frac * s,
                        s * (8192 * t) == u,
                ;
            }
            e * 0x80_0000 + (f - 1024) * 8192
        }
    } else if exp == 31 {
        0x7f80_0000 + frac * 8192
    } else {
        proof {
            lemma_widths();
            lemma_half_normal(exp as nat, frac as nat);
            lemma_fields(((exp + 112) * 0x80_0000 + frac * 8192) as nat, 23, (exp + 112) as nat, (frac * 8192) as nat);
            let t = pow2((exp + 111) as nat);
            assert((0x80_0000 + frac * 8192) * t == (1024 + frac) * 8192 * t) by (nonlinear_arith);
        }
        (exp + 112) * 0x80_0000 + frac * 8192
    };
    let x = Single { bits: sign + magnitude };
    proof {
        lemma_widths();
        lemma_half_small(0);
        lemma_fields(0, 23, 0, 0);
        assert(is_widening(h, x));
        lemma_widening_is_unique(h, x, widened(h));
    }
    x
}

/// Rounds `m` units of `s` to a multiple `q` or `q + 1` of `w * s`, given how far the quotient
/// falls short, and says so for the magnitudes `k` and `k + 1` with those two values.
proof fn lemma_rounds(x: Single, h: u16, m: nat, s: nat, w: nat, q: nat, r: nat, k: nat)
    requires
        !x.nan(),
        s > 0,
        w > 0,
        w % 2 == 0,
        units(x.magnitude() as nat, 23) == m * s,
        m == q * w + r,
        r < w,
        k < half_infinity(),
        half_units(k) == (q * w) * s,
        half_units(k + 1) == ((q + 1) * w) * s,
        x.negative() == (h >= 0x8000),
        ({
            let up = 2 * r > w || (2 * r == w && k % 2 == 1);
            h % 0x8000 == if up { k + 1 } else { k }
        }),
    ensures
        is_rounding(x, h),
{
    let v = m * s;
    let (lo, hi) = (half_units(k), half_units(k + 1));
    let up = 2 * r > w || (2 * r == w && k % 2 == 1);
    assert(v == lo + r * s) by (nonlinear_arith)
        requires
            v == m * s,
            m == q * w + r,
            lo == (q * w) * s,
    ;
    assert(hi == lo + w * s) by (nonlinear_arith)
        requires
            lo == (q * w) * s,
            hi == ((q + 1) * w) * s,
    ;
    assert(2 * (r * s) == (2 * r) * s) by (nonlinear_arith);
    if 2 * r > w {
        assert((2 * r) * s > w * s) by (nonlinear_arith)
            requires
                2 * r > w,
                s > 0,
        ;
    } else if 2 * r < w {
        assert((2 * r) * s < w * s) by (nonlinear_arith)
            requires
                2 * r < w,
                s > 0,
        ;
    }
    assert(r * s < w * s) by (nonlinear_arith)
        requires
            r < w,
            s > 0,
    ;
    if up {
        if k + 1 < half_infinity() {
            lemma_half_units_grow(k + 1, k + 2);
        }
    } else if k > 0 {
        lemma_half_units_grow((k - 1) as nat, k);
    }
}

/// The half-precision bit pattern nearest to a single-precision number, ties to even.
pub fn from_f32(x: Single) -> (h: u16)
    ensures
        is_rounding(x, h),
        h == rounded(x),
{
    let h = round_to_half(x);
    proof {
        lemma_rounding_is_unique(x, h, rounded(x));
    }
    h
}

fn round_to_half(x: Single) -> (h: u16)
    ensures
        is_rounding(x, h),
{
    let sign: u16 = if x.bits >= 0x8000_0000 {
        0x8000
    } else {
        0
    };
    let m: u32 = x.bits % 0x8000_0000;
    let exp: u32 = m / 0x80_0000;
    let frac: u32 = m % 0x80_0000;
    proof {
        lemma_widths();
        lemma_fields(m as nat, 23, exp as nat, frac as nat);
    }
    if exp == 0xff {
        if frac != 0 {
            return sign + 0x7e00;
        }
        proof {
            lemma_beyond_halves(m as nat, exp as nat, frac as nat);
        }
        return sign + 0x7c00;
    }
    // The exponent field that a half with this exponent would have is `exp - 112`.
    if exp >= 143 {
        proof {
            lemma_beyond_halves(m as nat, exp as nat, frac as nat);
        }
        return sign + 0x7c00;
    }
    if exp < 102 {
        proof {
            lemma_under_halves(m as nat, exp as nat, frac as nat);
        }
        return sign;
    }
    if exp <= 112 {
        // Subnormal half: the implicit bit shows, and `126 - exp` bits fall off the end.
        let full: u32 = 0x80_0000 + frac;
        let mut unit: u32 = 0x4000;
        let mut e: u32 = 112;
        proof {
            lemma2_to64();
        }
        while e > exp
            invariant
                102 <= exp <= e <= 112,
                unit == pow2((126 - e) as nat),
                0x4000 <= unit <= 0x100_0000,
            decreases e,
        {
            proof {
                lemma2_to64();
                lemma_pow2_unfold((127 - e) as nat);
            }
            unit = unit * 2;
            e = e - 1;
        }
        assert(full / unit < 1024) by (nonlinear_arith)
            requires
                full < 0x100_0000,
                unit >= 0x4000,
        ;
        let half: u16 = (full / unit) as u16;
        let rem: u32 = full % unit;
        let up: bool = rem > unit / 2 || (rem == unit / 2 && half % 2 == 1);
        let h: u16 = if up { sign + half + 1 } else { sign + half };
        proof {
            lemma2_to64();
            let (s, q) = (pow2((exp - 1) as nat), half as nat);
            lemma_pow2_pos((exp - 1) as nat);
            lemma_pow2_adds((126 - exp) as nat, (exp - 1) as nat);
            lemma_half_small(q);
            lemma_half_small(q + 1);
            let (u, t) = (unit as nat, pow2(125));
            assert(q * t == (q * u) * s && (q + 1) * t == ((q + 1) * u) * s) by (nonlinear_arith)
                requires
                    u * s == t,
            ;
            assert(full == q * u + rem) by (nonlinear_arith)
                requires
                    q == full / unit,
                    rem == full % unit,
                    u == unit,
                    u > 0,
            ;
            lemma_rounds(x, h, full as nat, s, u, q, rem as nat, q);
        }
        return h;
    }
    let half: u16 = ((exp - 112) * 1024 + frac / 8192) as u16;
    let rem: u32 = frac % 8192;
    let up: bool = rem > 4096 || (rem == 4096 && half % 2 == 1);
    let h: u16 = if up { sign + half + 1 } else { sign + half };
    proof {
        let (e, f) = ((exp - 112) as nat, (frac / 8192) as nat);
        lemma_half_normal(e, f);
        lemma_half_normal(e, f + 1);
        lemma_pow2_pos((exp - 1) as nat);
        lemma_rounds(
            x,
            h,
            (0x80_0000 + frac) as nat,
            pow2((exp - 1) as nat),
            8192,
            1024 + f,
            rem as nat,
            half as nat,
        );
    }
    h
}

/// A number of 2^16 or more is at least halfway to the half-precision infinity.
proof fn lemma_beyond_halves(m: nat, exp: nat, frac: nat)
    requires
        exp >= 143,
        units(m, 23) == (0x80_0000 + frac) * pow2((exp - 1) as nat),
    ensures
        half_units((half_infinity() - 1) as nat) + half_units(half_infinity()) < 2 * units(m, 23),
{
    lemma_half_units_grow((half_infinity() - 1) as nat, half_infinity());
    lemma_half_normal(31, 0);
    lemma_pow2_pos(142);
    if exp > 143 {
        vstd::arithmetic::power2::lemma_pow2_strictly_increases(142, (exp - 1) as nat);
    }
    let (a, b) = (pow2(142), pow2((exp - 1) as nat));
    assert(1024 * 8192 * a <= (0x80_0000 + frac) * b) by (nonlinear_arith)
        requires
            a <= b,
    ;
}

/// A number under 2^-25 is less than halfway to the smallest half-precision number.
proof fn lemma_under_halves(m: nat, exp: nat, frac: nat)
    requires
        exp < 102,
        frac < 0x80_0000,
        units(m, 23) == if exp == 0 {
            frac
        } else {
            (0x80_0000 + frac) * pow2((exp - 1) as nat)
        },
    ensures
        2 * units(m, 23) < half_units(0) + half_units(1),
{
    lemma_half_small(0);
    lemma_half_small(1);
    lemma2_to64();
    lemma_pow2_adds(24, 100);
    lemma_pow2_unfold(125);
    lemma_pow2_pos(100);
    let a = pow2(100);
    if exp == 0 {
        assert(frac < 0x100_0000 * a) by (nonlinear_arith)
            requires
                frac < 0x80_0000,
                a > 0,
        ;
    } else {
        let b = pow2((exp - 1) as nat);
        if exp < 101 {
            vstd::arithmetic::power2::lemma_pow2_strictly_increases((exp - 1) as nat, 100);
        }
        lemma_pow2_pos((exp - 1) as nat);
        assert((0x80_0000 + frac) * b < 0x100_0000 * a) by (nonlinear_arith)
            requires
                frac < 0x80_0000,
                0 < b <= a,
        ;
    }
}

/// A half-precision number survives the trip through single precision: when `x` is what
/// [`to_f32`] gives for `h` and `g` is what [`from_f32`] gives for `x`, `g` is `h` again.
pub proof fn lemma_halves_survive(h: u16, x: Single, g: u16)
    requires
        h % 0x8000 <= half_infinity(),
        is_widening(h, x),
        is_rounding(x, g),
    ensures
        g == h,
{
    lemma_widening_rounds_back(h, x);
    lemma_rounding_is_unique(x, h, g);
}

/// A half-precision number is the one nearest to itself.
proof fn lemma_widening_rounds_back(h: u16, x: Single)
    requires
        h % 0x8000 <= half_infinity(),
        is_widening(h, x),
    ensures
        is_rounding(x, h),
{
    let m = (h % 0x8000) as nat;
    if m < half_infinity() {
        lemma_half_units_grow(m, m + 1);
        if m > 0 {
            lemma_half_units_grow((m - 1) as nat, m);
        }
    } else {
        lemma_widths();
        lemma_fields(0x7f80_0000, 23, 255, 0);
        lemma_beyond_halves(0x7f80_0000, 255, 0);
    }
}

/// How far a subnormal fraction has to be shifted to become a normal one.
proof fn lemma_normal_form(f: nat) -> (k: nat)
    requires
        0 < f < 1024,
    ensures
        1024 <= f * pow2(k) < 2048,
        1 <= k <= 10,
        f * pow2((k - 1) as nat) < 1024,
    decreases 1024 - f,
{
    lemma2_to64();
    if 2 * f >= 1024 {
        assert(f * pow2(1) == 2 * f) by (nonlinear_arith)
            requires
                pow2(1) == 2,
        ;
        assert(f * pow2(0) == f) by (nonlinear_arith)
            requires
                pow2(0) == 1,
        ;
        1
    } else {
        let j = lemma_normal_form(2 * f);
        lemma_pow2_unfold(j + 1);
        lemma_pow2_unfold(j);
        let (s, t) = (pow2(j), pow2((j - 1) as nat));
        assert(f * (2 * s) == (2 * f) * s) by (nonlinear_arith);
        assert(f * s == (2 * f) * t) by (nonlinear_arith)
            requires
                s == 2 * t,
        ;
        assert(s < 1024) by (nonlinear_arith)
            requires
                f * s < 1024,
                f > 0,
        ;
        assert(j < 10);
        j + 1
    }
}

/// Every half-precision number has a single-precision form.
pub proof fn lemma_widened(h: u16)
    ensures
        is_widening(h, widened(h)),
{
    let sign: int = if h >= 0x8000 {
        0x8000_0000
    } else {
        0
    };
    let m = (h % 0x8000) as nat;
    let (exp, frac) = (m / 1024, m % 1024);
    lemma_widths();
    if exp == 0 && frac == 0 {
        lemma_half_small(0);
        lemma_fields(0, 23, 0, 0);
        assert(is_widening(h, Single { bits: sign as u32 }));
    } else if exp == 0 {
        let k = lemma_normal_form(frac);
        let f = frac * pow2(k);
        let e = (113 - k) as nat;
        let (a, x) = ((e - 1) as nat, (e * 0x80_0000 + (f - 1024) * 8192) as nat);
        lemma_half_small(frac);
        lemma_fields(x, 23, e, ((f - 1024) * 8192) as nat);
        lemma_pow2_adds(13, a);
        lemma_pow2_adds(k, 13 + a);
        let (s, t, u) = (pow2(k), pow2(a), pow2(125));
        assert((0x80_0000 + (f - 1024) * 8192) * t == frac * u) by (nonlinear_arith)
            requires
                f == frac * s,
                s * (8192 * t) == u,
        ;
        assert(is_widening(h, Single { bits: (sign + x) as u32 }));
    } else if exp == 31 {
        assert(is_widening(h, Single { bits: (sign + 0x7f80_0000 + frac * 8192) as u32 }));
    } else {
        let x = ((exp + 112) * 0x80_0000 + frac * 8192) as nat;
        lemma_half_normal(exp, frac);
        lemma_fields(x, 23, (exp + 112) as nat, (frac * 8192) as nat);
        let t = pow2((exp + 111) as nat);
        assert((0x80_0000 + frac * 8192) * t == (1024 + frac) * 8192 * t) by (nonlinear_arith);
        assert(is_widening(h, Single { bits: (sign + x) as u32 }));
    }
}

/// Widening a half-precision number and rounding it back gives the same bits.
pub proof fn lemma_rounded_widened(h: u16)
    requires
        h % 0x8000 <= half_infinity(),
    ensures
        rounded(widened(h)) == h,
{
    lemma_widened(h);
    let x = widened(h);
    lemma_widening_rounds_back(h, x);
    lemma_halves_survive(h, x, rounded(x));
}

/// The trip the other way costs little: rounding a number `x` to a finite half `h` and
/// widening it to `y` moves it by at most 2^-11 of itself, or by at most 2^-25 where the
/// halves are subnormal.
pub proof fn lemma_rounding_is_accurate(x: Single, h: u16, y: Single)
    requires
        !x.nan(),
        is_rounding(x, h),
        is_widening(h, y),
        h % 0x8000 < half_infinity(),
    ensures
        ({
            let (a, b) = (x.value(), y.value());
            let gap = if a < b { b - a } else { a - b };
            let size = if a < 0 { -a } else { a };
            2048 * gap <= size || gap <= pow2(124)
        }),
{
    let m = (h % 0x8000) as nat;
    let v = units(x.magnitude() as nat, 23);
    let w = half_units(m);
    let gap = if v < w { w - v } else { v - w };
    lemma_pow2_unfold(125);
    lemma_widths();
    if m < 1024 {
        lemma_half_small(m);
        lemma_half_small(m + 1);
        let t = pow2(125);
        assert((m + 1) * t == m * t + t) by (nonlinear_arith);
        if m > 0 {
            let n = (m - 1) as nat;
            lemma_half_small(n);
            assert(n * t == m * t - t) by (nonlinear_arith)
                requires
                    n == m - 1,
            ;
        }
        assert(m == 0 ==> m * t == 0) by (nonlinear_arith);
        assert(gap <= pow2(124));
    } else {
        let (e, f) = (m / 1024, m % 1024);
        let t = pow2((e + 111) as nat);
        // Spacing of the halves around `m`, but for the one just below a power of two.
        let d = 8192 * t;
        lemma_half_normal(e, f);
        lemma_half_normal(e, f + 1);
        assert((1024 + f) * 8192 * t == 1024 * d + f * d) by (nonlinear_arith)
            requires
                d == 8192 * t,
        ;
        assert((1024 + (f + 1)) * 8192 * t == 1024 * d + f * d + d) by (nonlinear_arith)
            requires
                d == 8192 * t,
        ;
        if f > 0 {
            let g = (f - 1) as nat;
            lemma_half_normal(e, g);
            assert((1024 + g) * 8192 * t == 1024 * d + f * d - d) by (nonlinear_arith)
                requires
                    d == 8192 * t,
                    g == f - 1,
            ;
            assert(f * d >= d) by (nonlinear_arith)
                requires
                    f > 0,
            ;
        } else {
            assert(f * d == 0) by (nonlinear_arith)
                requires
                    f == 0,
            ;
            if e > 1 {
                let u = pow2((e + 110) as nat);
                lemma_half_normal((e - 1) as nat, 1023);
                lemma_pow2_unfold((e + 111) as nat);
                assert((1024 + 1023) * 8192 * u == 2047 * (8192 * u)) by (nonlinear_arith);
            } else {
                lemma_half_small(1023);
                lemma_pow2_adds(13, 112);
            }
        }
        assert(2 * gap <= d);
        assert(2048 * gap <= v || gap <= pow2(124));
    }
}

/// No half-precision number is nearer to a number than the one it rounds to; and where another is
/// as near, the one with the even pattern is taken. The sign is kept, and a NaN stays one.
pub proof fn lemma_rounding_is_nearest(x: Single, h: u16, g: nat)
    requires
        is_rounding(x, h),
        g <= 0x7c00,
    ensures
        x.negative() <==> h >= 0x8000,
        x.nan() <==> h % 0x8000 > 0x7c00,
        !x.nan() ==> ({
            let v = units(x.magnitude() as nat, 23) as int;
            let (a, b) = (half_units((h % 0x8000) as nat) as int, half_units(g) as int);
            let (to_h, to_g) = (
                if a < v {
                    v - a
                } else {
                    a - v
                },
                if b < v {
                    v - b
                } else {
                    b - v
                },
            );
            &&& to_h <= to_g
            &&& to_h == to_g && g != h % 0x8000 ==> h % 2 == 0
        }),
{
    let m = (h % 0x8000) as nat;
    if !x.nan() {
        if g > m {
            lemma_half_units_grow(m, m + 1);
            if g > m + 1 {
                lemma_half_units_grow(m + 1, g);
            }
        } else if g < m {
            lemma_half_units_grow((m - 1) as nat, m);
            if g < m - 1 {
                lemma_half_units_grow(g, (m - 1) as nat);
            }
        }
    }
}

/// Rounding keeps the order of the magnitudes.
pub proof fn lemma_rounding_keeps_order(x: Single, y: Single, g: u16, h: u16)
    requires
        !x.nan(),
        !y.nan(),
        is_rounding(x, g),
        is_rounding(y, h),
        x.magnitude() <= y.magnitude(),
    ensures
        g % 0x8000 <= h % 0x8000,
{
    let (a, b) = ((h % 0x8000) as nat, (g % 0x8000) as nat);
    if x.magnitude() < y.magnitude() {
        lemma_units_grow(x.magnitude() as nat, y.magnitude() as nat, 23);
    }
    if a < b {
        lemma_rounding_ordered(y, a, b);
    }
}

/// Every NaN is rounded to the quiet one of its sign.
pub proof fn lemma_rounded_nan_is_quiet(x: Single, h: u16)
    requires
        x.nan(),
        is_rounding(x, h),
    ensures
        h == 0x7e00 || h == 0xfe00,
        h == 0xfe00 <==> x.bits >= 0x8000_0000,
{
}

} // verus!
