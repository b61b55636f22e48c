//! Evenly spread samples of a long list.
//!
//! The positions are those of a stride in double precision: the quotient of the two lengths
//! is rounded to the nearest double, so is its product with the sample number, and the
//! fraction is dropped. Both lengths are below 2^32, so every number here is a whole number
//! of units of 2^-52 and the rounding can be done on integers.

use vstd::arithmetic::div_mod::lemma_fundamental_div_mod;
use vstd::arithmetic::power2::{lemma2_to64, lemma_pow2_pos, lemma_pow2_unfold, pow2};
use vstd::prelude::*;

verus! {

/// Units in one: 2^52.
pub const UNITS: u128 = 0x10_0000_0000_0000;

/// One more than the largest significand of a double: 2^53.
pub const SIGNIFICANDS: u128 = 0x20_0000_0000_0000;

/// The whole number nearest to `n / d`, the even one of two equally near.
pub open spec fn nearest(n: nat, d: nat) -> nat {
    let (q, r) = (n / d, n % d);
    if 2 * r < d || (2 * r == d && q % 2 == 0) {
        q
    } else {
        q + 1
    }
}

/// The spacing of doubles at `p`: the smallest power of two of which `p` holds fewer than 2^53.
pub open spec fn spacing(p: nat) -> nat
    decreases p,
{
    if p < SIGNIFICANDS {
        1
    } else {
        2 * spacing(p / 2)
    }
}

/// `p` rounded to the nearest double, ties to the even significand.
pub open spec fn rounded53(p: nat) -> nat {
    nearest(p, spacing(p)) * spacing(p)
}

/// The largest power of two that `len / max` reaches.
pub open spec fn octave(len: nat, max: nat) -> nat
    decreases len,
{
    if max == 0 || len < 2 * max {
        1
    } else {
        2 * octave(len / 2, max)
    }
}

/// The double nearest to `len / max`, in units of 2^-52.
pub open spec fn stride(len: nat, max: nat) -> nat {
    nearest(len * UNITS as nat, max * octave(len, max)) * octave(len, max)
}

/// Where sample number `k` stands.
pub open spec fn stride_position(k: nat, len: nat, max: nat) -> nat {
    rounded53(k * stride(len, max)) / UNITS as nat
}

/// A list sampled at no more than `max` positions.
pub open spec fn sampled(v: Seq<u32>, max: nat) -> Seq<u32> {
    if v.len() <= max {
        v
    } else {
        Seq::new(max, |k: int| v[stride_position(k as nat, v.len(), max) as int])
    }
}

/// `unit` is a power of two that `p` holds fewer than 2^53 times, but at least 2^52 times
/// unless it is 1.
proof fn lemma_spacing(p: nat)
    ensures
        spacing(p) >= 1,
        p < SIGNIFICANDS * spacing(p),
        spacing(p) > 1 ==> UNITS * spacing(p) <= p,
        p < SIGNIFICANDS ==> spacing(p) == 1,
    decreases p,
{
    if p >= SIGNIFICANDS {
        lemma_spacing(p / 2);
        let s = spacing(p / 2);
        assert(p < SIGNIFICANDS * (2 * s)) by (nonlinear_arith)
            requires
                p / 2 < SIGNIFICANDS * s,
        ;
        if s > 1 {
            assert(UNITS * (2 * s) <= p) by (nonlinear_arith)
                requires
                    UNITS * s <= p / 2,
            ;
        }
    }
}

/// The octave is the largest power of two that the quotient reaches.
proof fn lemma_octave(len: nat, max: nat)
    requires
        0 < max <= len,
    ensures
        octave(len, max) >= 1,
        max * octave(len, max) <= len,
        len < 2 * (max * octave(len, max)),
    decreases len,
{
    if len >= 2 * max {
        lemma_octave(len / 2, max);
        let o = octave(len / 2, max);
        assert(max * (2 * o) == 2 * (max * o)) by (nonlinear_arith);
    } else {
        assert(max * 1 == max);
    }
}

/// The octave found so far, doubled while the quotient reaches the next one.
proof fn lemma_octave_step(len: nat, max: nat, unit: nat)
    requires
        0 < max <= len,
        unit >= 1,
        exists|e: nat| unit == pow2(e),
        max * unit <= len,
        len < 2 * (max * unit),
    ensures
        octave(len, max) == unit,
    decreases len,
{
    let e = choose|e: nat| unit == pow2(e);
    if e == 0 {
        lemma2_to64();
        assert(max * 1 == max);
    } else {
        lemma_pow2_unfold(e);
        let half = pow2((e - 1) as nat);
        lemma_pow2_pos((e - 1) as nat);
        assert(unit == 2 * half);
        assert(max * (2 * half) == 2 * (max * half)) by (nonlinear_arith);
        assert(max * half >= max) by (nonlinear_arith)
            requires
                half >= 1,
        ;
        lemma_octave_step(len / 2, max, half);
    }
}

/// The same for the spacing of doubles.
proof fn lemma_spacing_step(p: nat, unit: nat)
    requires
        exists|e: nat| unit == pow2(e),
        p < SIGNIFICANDS * unit,
        unit > 1 ==> UNITS * unit <= p,
    ensures
        spacing(p) == unit,
    decreases p,
{
    let e = choose|e: nat| unit == pow2(e);
    if e == 0 {
        lemma2_to64();
    } else {
        lemma_pow2_unfold(e);
        let half = pow2((e - 1) as nat);
        lemma_pow2_pos((e - 1) as nat);
        assert(unit == 2 * half);
        assert(UNITS * (2 * half) >= SIGNIFICANDS) by (nonlinear_arith)
            requires
                half >= 1,
        ;
        assert(p / 2 < SIGNIFICANDS * half) by (nonlinear_arith)
            requires
                p < SIGNIFICANDS * (2 * half),
        ;
        assert(UNITS * half <= p / 2) by (nonlinear_arith)
            requires
                UNITS * (2 * half) <= p,
        ;
        lemma_spacing_step(p / 2, half);
    }
}

/// Rounding moves a quotient by half at most.
proof fn lemma_nearest(n: nat, d: nat)
    requires
        d > 0,
    ensures
        2 * (nearest(n, d) * d) <= 2 * n + d,
        2 * n <= 2 * (nearest(n, d) * d) + d,
{
    lemma_fundamental_div_mod(n as int, d as int);
    let (q, r) = (n / d, n % d);
    assert((q + 1) * d == q * d + d) by (nonlinear_arith);
    assert(d * q == q * d) by (nonlinear_arith);
}

/// Every sample stands inside the list.
pub proof fn lemma_stride_stays_inside(k: nat, len: nat, max: nat)
    requires
        k < max < len <= u32::MAX,
    ensures
        stride_position(k, len, max) < len,
        k * stride(len, max) < 0x10_0000_0000_0000_0000_0000_0000_0000,
{
    let o = octave(len, max);
    let d = max * o;
    let n = len * UNITS as nat;
    lemma_octave(len, max);
    lemma_nearest(n, d);
    let q = nearest(n, d);
    let s = stride(len, max);
    assert(s * max == q * d) by (nonlinear_arith)
        requires
            s == q * o,
            d == max * o,
    ;
    // 2 max s <= 2 n + len = len (2^53 + 1)
    assert(2 * (s * max) <= len * (SIGNIFICANDS + 1)) by (nonlinear_arith)
        requires
            2 * (s * max) <= 2 * n + d,
            d <= len,
            n == len * UNITS,
    ;
    let p = k * s;
    assert(2 * (p * max) <= (max - 1) * (len * (SIGNIFICANDS + 1))) by (nonlinear_arith)
        requires
            p == k * s,
            k <= max - 1,
            0 <= s,
            2 * (s * max) <= len * (SIGNIFICANDS + 1),
    ;
    let u = spacing(p);
    lemma_spacing(p);
    lemma_nearest(p, u);
    let r = rounded53(p);
    // r 2^53 <= p (2^53 + 1), and r = p where the spacing is 1
    assert(r * SIGNIFICANDS <= p * (SIGNIFICANDS + 1)) by {
        if u == 1 {
            assert(nearest(p, 1) == p);
            assert(r == p);
            assert(p * (SIGNIFICANDS + 1) == p * SIGNIFICANDS + p) by (nonlinear_arith);
        } else {
            assert(r * SIGNIFICANDS <= p * (SIGNIFICANDS + 1)) by (nonlinear_arith)
                requires
                    2 * r <= 2 * p + u,
                    UNITS * u <= p,
            ;
        }
    }
    assert(r < len * UNITS) by (nonlinear_arith)
        requires
            r * SIGNIFICANDS <= p * (SIGNIFICANDS + 1),
            2 * (p * max) <= (max - 1) * (len * (SIGNIFICANDS + 1)),
            0 < max < len <= 0xffff_ffff,
    {
        // 2 max r 2^53 <= (max - 1) len (2^53 + 1)^2 < max len 2^106
        let a = SIGNIFICANDS as int;
        assert(2 * max * (r * a) <= 2 * max * (p * (a + 1)));
        assert(2 * max * (p * (a + 1)) == (2 * (p * max)) * (a + 1));
        assert((2 * (p * max)) * (a + 1) <= ((max - 1) * (len * (a + 1))) * (a + 1));
        assert(((max - 1) * (len * (a + 1))) * (a + 1) == len * ((max - 1) * ((a + 1) * (a + 1))));
        assert((max - 1) * ((a + 1) * (a + 1)) == (max - 1) * (a * a) + (max - 1) * (2 * a + 1));
        assert((max - 1) * (2 * a + 1) < a * a);
        assert((max - 1) * ((a + 1) * (a + 1)) < max * (a * a));
        assert(len * ((max - 1) * ((a + 1) * (a + 1))) < len * (max * (a * a)));
        assert(len * (max * (a * a)) == 2 * max * ((len * UNITS) * a));
    }
    assert(r / (UNITS as nat) < len) by (nonlinear_arith)
        requires
            r < len * UNITS,
    ;
    assert(p < 0x10_0000_0000_0000_0000_0000_0000_0000) by (nonlinear_arith)
        requires
            2 * (p * max) <= (max - 1) * (len * (SIGNIFICANDS + 1)),
            0 < max < len <= 0xffff_ffff,
    ;
}

/// Divides, rounding to the nearest whole number.
fn divide_to_nearest(n: u128, d: u128) -> (r: u128)
    requires
        0 < d < 0x8000_0000_0000_0000_0000_0000_0000_0000,
        n < 0x8000_0000_0000_0000_0000_0000_0000_0000,
    ensures
        r == nearest(n as nat, d as nat),
{
    let (q, r) = (n / d, n % d);
    if 2 * r < d || (2 * r == d && q % 2 == 0) {
        q
    } else {
        q + 1
    }
}

/// Rounds to the nearest double.
fn round_to_double(p: u128) -> (r: u128)
    requires
        p < 0x10_0000_0000_0000_0000_0000_0000_0000,
    ensures
        r == rounded53(p as nat),
{
    let mut unit: u128 = 1;
    proof {
        lemma2_to64();
        assert(unit == pow2(0));
    }
    while unit * SIGNIFICANDS <= p
        invariant
            p < 0x10_0000_0000_0000_0000_0000_0000_0000,
            1 <= unit <= 0x1_0000_0000_0000_0000,
            unit > 1 ==> UNITS * unit <= p,
            exists|e: nat| unit == pow2(e),
        decreases p - unit,
    {
        proof {
            let e = choose|e: nat| unit == pow2(e);
            lemma_pow2_unfold(e + 1);
            assert(2 * unit == pow2(e + 1));
        }
        unit = unit * 2;
    }
    proof {
        lemma_spacing_step(p as nat, unit as nat);
        lemma_nearest(p as nat, unit as nat);
    }
    divide_to_nearest(p, unit) * unit
}

/// Finds the double nearest to `len / max`, in units of 2^-52.
fn find_stride(len: u128, max: u128) -> (r: u128)
    requires
        0 < max < len <= u32::MAX,
    ensures
        r == stride(len as nat, max as nat),
{
    let mut unit: u128 = 1;
    proof {
        lemma2_to64();
        assert(unit == pow2(0));
    }
    while 2 * (max * unit) <= len
        invariant
            0 < max < len <= u32::MAX,
            1 <= unit,
            max * unit <= len,
            exists|e: nat| unit == pow2(e),
        decreases len - unit,
    {
        proof {
            let e = choose|e: nat| unit == pow2(e);
            lemma_pow2_unfold(e + 1);
            assert(2 * unit == pow2(e + 1));
            assert(max * (2 * unit) == 2 * (max * unit)) by (nonlinear_arith);
            assert(unit <= max * unit) by (nonlinear_arith)
                requires
                    max >= 1,
            ;
        }
        unit = unit * 2;
    }
    proof {
        lemma_octave_step(len as nat, max as nat, unit as nat);
        lemma_nearest((len * UNITS) as nat, (max * unit) as nat);
        assert(unit <= max * unit) by (nonlinear_arith)
            requires
                max >= 1,
        ;
        let q = nearest((len * UNITS) as nat, (max * unit) as nat);
        assert(q * unit <= q * (max * unit)) by (nonlinear_arith)
            requires
                unit <= max * unit,
                q >= 0,
        ;
    }
    divide_to_nearest(len * UNITS, max * unit) * unit
}

/// Samples a list at no more than `max` evenly spread positions.
pub fn stride_sample(v: &Vec<u32>, max: usize) -> (r: Vec<u32>)
    requires
        v@.len() <= u32::MAX,
    ensures
        r@ == sampled(v@, max as nat),
{
    let mut r: Vec<u32> = Vec::new();
    if v.len() <= max {
        for i in 0..v.len()
            invariant
                r@ == v@.take(i as int),
        {
            r.push(v[i]);
            assert(r@ =~= v@.take(i + 1));
        }
        assert(v@.take(v@.len() as int) =~= v@);
        return r;
    }
    if max == 0 {
        assert(r@ =~= sampled(v@, 0));
        return r;
    }
    let step: u128 = find_stride(v.len() as u128, max as u128);
    for k in 0..max
        invariant
            0 < max < v.len() <= u32::MAX,
            step == stride(v@.len(), max as nat),
            r@ == sampled(v@, max as nat).take(k as int),
    {
        proof {
            lemma_stride_stays_inside(k as nat, v@.len(), max as nat);
        }
        let place: u128 = round_to_double(k as u128 * step) / UNITS;
        r.push(v[place as usize]);
        assert(r@ =~= sampled(v@, max as nat).take(k + 1));
    }
    assert(sampled(v@, max as nat).take(max as int) =~= sampled(v@, max as nat));
    r
}

/// A sample holds members of the list only, as many as asked for.
pub proof fn lemma_sampled(v: Seq<u32>, max: nat)
    requires
        v.len() <= u32::MAX,
    ensures
        sampled(v, max).len() == if v.len() <= max {
            v.len()
        } else {
            max
        },
        forall|k: int| 0 <= k < sampled(v, max).len() ==> v.contains(#[trigger] sampled(v, max)[k]),
{
    assert forall|k: int| 0 <= k < sampled(v, max).len() implies v.contains(
        #[trigger] sampled(v, max)[k],
    ) by {
        if v.len() > max {
            lemma_stride_stays_inside(k as nat, v.len(), max);
        }
    }
}

/// Larger numbers lie no closer together.
proof fn lemma_spacing_grows(p: nat, q: nat)
    requires
        p <= q,
    ensures
        spacing(p) <= spacing(q),
        spacing(p) < spacing(q) ==> 2 * spacing(p) <= spacing(q),
    decreases q,
{
    if q >= SIGNIFICANDS {
        lemma_spacing(q / 2);
        if p >= SIGNIFICANDS {
            lemma_spacing_grows(p / 2, q / 2);
        }
    }
}

/// Rounding to the nearest whole number keeps the order.
proof fn lemma_nearest_grows(p: nat, q: nat, d: nat)
    requires
        p <= q,
        d > 0,
    ensures
        nearest(p, d) <= nearest(q, d),
{
    lemma_fundamental_div_mod(p as int, d as int);
    lemma_fundamental_div_mod(q as int, d as int);
    let (a, b) = (p / d, q / d);
    assert(a <= b) by (nonlinear_arith)
        requires
            d > 0,
            p <= q,
            p == d * a + p % d,
            q == d * b + q % d,
            p % d >= 0,
            q % d < d,
    ;
    if a == b {
        assert(p % d <= q % d);
    }
}

/// Rounding to the nearest double keeps the order.
proof fn lemma_rounded_grows(p: nat, q: nat)
    requires
        p <= q,
    ensures
        rounded53(p) <= rounded53(q),
{
    lemma_spacing(p);
    lemma_spacing(q);
    lemma_spacing_grows(p, q);
    let (u, v) = (spacing(p), spacing(q));
    if u == v {
        lemma_nearest_grows(p, q, u);
        assert(nearest(p, u) * u <= nearest(q, u) * u) by (nonlinear_arith)
            requires
                nearest(p, u) <= nearest(q, u),
        ;
    } else {
        assert(p / u < SIGNIFICANDS) by (nonlinear_arith)
            requires
                p < SIGNIFICANDS * u,
                u >= 1,
        ;
        assert(q / v >= UNITS) by (nonlinear_arith)
            requires
                UNITS * v <= q,
                v >= 1,
        ;
        assert(nearest(p, u) * u <= nearest(q, v) * v) by (nonlinear_arith)
            requires
                0 <= nearest(p, u) <= SIGNIFICANDS,
                nearest(q, v) >= UNITS,
                SIGNIFICANDS == 2 * UNITS,
                2 * u <= v,
                u >= 1,
        ;
    }
}

/// A sample keeps the order of its list.
pub proof fn lemma_sample_keeps_order(v: Seq<u32>, max: nat, a: int, b: int)
    requires
        v.len() <= u32::MAX,
        forall|i: int, j: int| 0 <= i < j < v.len() ==> #[trigger] v[i] < #[trigger] v[j],
        0 <= a <= b < sampled(v, max).len(),
    ensures
        sampled(v, max)[a] <= sampled(v, max)[b],
{
    if v.len() > max {
        let s = stride(v.len(), max);
        assert(a * s <= b * s) by (nonlinear_arith)
            requires
                0 <= a <= b,
                0 <= s,
        ;
        lemma_rounded_grows((a * s) as nat, (b * s) as nat);
        let (x, y) = (
            stride_position(a as nat, v.len(), max),
            stride_position(b as nat, v.len(), max),
        );
        assert(x <= y);
        lemma_stride_stays_inside(b as nat, v.len(), max);
    }
}

/// A sample is spread evenly: the place of number `k` is off the exact one, `k` times the length
/// by the number of samples, by less than two.
pub proof fn lemma_sample_is_even(k: nat, len: nat, max: nat)
    requires
        k < max < len <= u32::MAX,
    ensures
        stride_position(k, len, max) * max < k * len + 2 * max,
        k * len < stride_position(k, len, max) * max + 2 * max,
        k == 0 ==> stride_position(k, len, max) == 0,
{
    let o = octave(len, max);
    let d = max * o;
    let n = len * UNITS as nat;
    lemma_octave(len, max);
    lemma_nearest(n, d);
    let q = nearest(n, d);
    let s = stride(len, max);
    assert(s * max == q * d) by (nonlinear_arith)
        requires
            s == q * o,
            d == max * o,
    ;
    let p = k * s;
    assert(2 * (p * max) <= k * (2 * n + len) && 2 * (p * max) + k * len >= k * (2 * n))
        by (nonlinear_arith)
        requires
            p == k * s,
            2 * (s * max) <= 2 * n + d,
            2 * n <= 2 * (s * max) + d,
            d <= len,
            0 <= k,
    ;
    let u = spacing(p);
    lemma_spacing(p);
    lemma_nearest(p, u);
    let r = rounded53(p);
    // the rounding moves by half the spacing, which is no more than p / 2^52 unless it is one
    assert(2 * r <= 2 * p + u && 2 * p <= 2 * r + u);
    assert(u == 1 ==> r == p) by {
        if u == 1 {
            assert(nearest(p, 1) == p);
            assert(r == p);
        }
    }
    let gap = if r < p {
        p - r
    } else {
        r - p
    };
    assert(2 * gap * UNITS <= p) by (nonlinear_arith)
        requires
            2 * gap <= u,
            u == 1 ==> gap == 0,
            u > 1 ==> UNITS * u <= p,
            u >= 1,
            p >= 0,
            gap >= 0,
    ;
    // p is at most k len / max + 1 whole units, so the gap is far below one of them
    assert(p <= len * (2 * UNITS)) by (nonlinear_arith)
        requires
            2 * (p * max) <= k * (2 * n + len),
            k < max,
            n == len * UNITS,
            UNITS == 0x10_0000_0000_0000,
    ;
    assert(gap <= 0xffff_ffff) by (nonlinear_arith)
        requires
            2 * gap * UNITS <= p,
            p <= len * (2 * UNITS),
            len <= 0xffff_ffff,
            UNITS == 0x10_0000_0000_0000,
    ;
    let place = stride_position(k, len, max);
    lemma_fundamental_div_mod(r as int, UNITS as int);
    assert(place * UNITS <= r < place * UNITS + UNITS) by (nonlinear_arith)
        requires
            r == UNITS * place + r % (UNITS as nat),
            0 <= r % (UNITS as nat) < UNITS,
    ;
    assert(place * max < k * len + 2 * max) by (nonlinear_arith)
        requires
            place * UNITS <= r,
            r <= p + gap,
            gap <= 0xffff_ffff,
            2 * (p * max) <= k * (2 * n + len),
            n == len * UNITS,
            k < max,
            len <= 0xffff_ffff,
            UNITS == 0x10_0000_0000_0000,
    {
        assert(2 * (place * max) * UNITS <= 2 * (p * max) + 2 * (gap * max));
        assert(2 * (gap * max) <= 2 * 0xffff_ffff * max);
        assert(k * (2 * n + len) == 2 * (k * len) * UNITS + k * len);
        assert(k * len <= max * 0xffff_ffff);
    }
    assert(k * len < place * max + 2 * max) by (nonlinear_arith)
        requires
            r < place * UNITS + UNITS,
            p <= r + gap,
            gap <= 0xffff_ffff,
            2 * (p * max) + k * len >= k * (2 * n),
            n == len * UNITS,
            k < max,
            len <= 0xffff_ffff,
            UNITS == 0x10_0000_0000_0000,
    {
        assert(2 * (p * max) <= 2 * (r * max) + 2 * (gap * max));
        assert(2 * (r * max) <= 2 * ((place * UNITS + UNITS) * max));
        assert(k * (2 * n) == 2 * (k * len) * UNITS);
        assert(k * len <= max * 0xffff_ffff);
        assert((place * UNITS + UNITS) * max == (place * max) * UNITS + max * UNITS);
    }
    if k == 0 {
        assert(p == 0) by (nonlinear_arith)
            requires
                p == k * s,
                k == 0,
        ;
        assert(r == 0) by {
            assert(nearest(0, 1) == 0);
        }
    }
}

/// A list that is short enough is sampled whole.
pub proof fn lemma_short_lists_are_sampled_whole(v: Seq<u32>, max: nat)
    ensures
        v.len() <= max ==> sampled(v, max) == v,
        v.len() > max ==> sampled(v, max).len() == max,
{
}

} // verus!
