//! IEEE 754 numbers held as their bit patterns.
//!
//! The solver compares similarities, entropies and ranks that its callers measured. It never
//! adds or multiplies them, so it keeps them as bit patterns, whose numeric order is an
//! order on integers: `lemma_single_order_is_numeric` and `lemma_double_order_is_numeric`
//! say so for every pair of numbers.

use vstd::arithmetic::power2::{lemma_pow2_pos, lemma_pow2_unfold, pow2};
use vstd::prelude::*;

verus! {

/// The exact value of the magnitude `m` of a binary format with `p` fraction bits, counted in
/// units of that format's smallest positive number.
///
/// The exponent field is `m / 2^p` and the fraction field is `m % 2^p`. A zero exponent field
/// marks a subnormal number, which has no implicit leading bit.
pub open spec fn units(m: nat, p: nat) -> nat {
    let width = pow2(p);
    let exponent = m / width;
    let fraction = m % width;
    if exponent == 0 {
        fraction
    } else {
        (width + fraction) * pow2((exponent - 1) as nat)
    }
}

/// One more unit of magnitude is a strictly larger number.
proof fn lemma_units_step(m: nat, p: nat)
    ensures
        units(m, p) < units(m + 1, p),
{
    let w = pow2(p);
    lemma_pow2_pos(p);
    let e = m / w;
    let f = m % w;
    assert(m == w * e + f && f < w) by (nonlinear_arith)
        requires
            w > 0,
            e == m / w,
            f == m % w,
    ;
    if f + 1 < w {
        vstd::arithmetic::div_mod::lemma_fundamental_div_mod_converse(
            (m + 1) as int,
            w as int,
            e as int,
            (f + 1) as int,
        );
        if e > 0 {
            let s = pow2((e - 1) as nat);
            lemma_pow2_pos((e - 1) as nat);
            assert((w + f) * s < (w + f + 1) * s) by (nonlinear_arith)
                requires
                    s > 0,
            ;
        }
    } else {
        assert(m + 1 == w * (e + 1)) by (nonlinear_arith)
            requires
                m == w * e + f,
                f + 1 == w,
        ;
        vstd::arithmetic::div_mod::lemma_fundamental_div_mod_converse(
            (m + 1) as int,
            w as int,
            (e + 1) as int,
            0,
        );
        lemma_pow2_pos(e);
        if e > 0 {
            let s = pow2((e - 1) as nat);
            lemma_pow2_unfold(e);
            lemma_pow2_pos((e - 1) as nat);
            assert((w + f) * s < w * (2 * s)) by (nonlinear_arith)
                requires
                    s > 0,
                    f < w,
            ;
        } else {
            vstd::arithmetic::power2::lemma2_to64();
            assert(w * pow2(0) == w) by (nonlinear_arith)
                requires
                    pow2(0) == 1,
            ;
        }
    }
}

/// A larger magnitude is a strictly larger number.
pub proof fn lemma_units_grow(a: nat, b: nat, p: nat)
    requires
        a < b,
    ensures
        units(a, p) < units(b, p),
    decreases b - a,
{
    lemma_units_step(a, p);
    if a + 1 < b {
        lemma_units_grow(a + 1, b, p);
    }
}

/// A single-precision number, by its bit pattern.
#[derive(Clone, Copy, Debug, PartialEq, Eq, Structural)]
pub struct Single {
    pub bits: u32,
}

impl Single {
    /// Is the sign bit set?
    pub open spec fn negative(self) -> bool {
        self.bits >= 0x8000_0000
    }

    /// The bit pattern without its sign bit.
    pub open spec fn magnitude(self) -> int {
        (self.bits % 0x8000_0000) as int
    }

    /// Is this no number at all?
    pub open spec fn nan(self) -> bool {
        self.magnitude() > 0x7f80_0000
    }

    /// The exact value, in units of 2^-149. The infinities get the value that the format
    /// would give them if they were finite, which lies beyond every finite number.
    pub open spec fn value(self) -> int {
        if self.negative() {
            -(units(self.magnitude() as nat, 23) as int)
        } else {
            units(self.magnitude() as nat, 23) as int
        }
    }

    /// Position in the numeric order, where both zeros share a place.
    pub open spec fn place(self) -> int {
        if self.negative() {
            -self.magnitude()
        } else {
            self.magnitude()
        }
    }

    /// Position in the total order of all bit patterns, the numbers between the two kinds of
    /// NaN and the negative zero just before the positive one.
    pub open spec fn total(self) -> int {
        if self.negative() {
            -1 - self.magnitude()
        } else {
            self.magnitude()
        }
    }

    /// Numeric `<`, false as soon as a NaN takes part.
    pub open spec fn below(self, other: Single) -> bool {
        !self.nan() && !other.nan() && self.place() < other.place()
    }

    /// Numeric `<=`, false as soon as a NaN takes part.
    pub open spec fn at_most(self, other: Single) -> bool {
        !self.nan() && !other.nan() && self.place() <= other.place()
    }

    /// The smaller of two numbers. A NaN gives way to the other side.
    pub open spec fn lower(self, other: Single) -> Single {
        if self.nan() || other.below(self) {
            other
        } else {
            self
        }
    }

    pub fn is_nan(self) -> (r: bool)
        ensures
            r == self.nan(),
    {
        self.bits % 0x8000_0000 > 0x7f80_0000
    }

    /// Key of the total order: `a` sorts before `b` exactly when its key is smaller.
    pub fn total_key(self) -> (r: i32)
        ensures
            r == self.total(),
    {
        if self.bits >= 0x8000_0000 {
            -1 - ((self.bits - 0x8000_0000) as i32)
        } else {
            self.bits as i32
        }
    }

    fn place_key(self) -> (r: i32)
        ensures
            r == self.place(),
    {
        if self.bits >= 0x8000_0000 {
            -((self.bits - 0x8000_0000) as i32)
        } else {
            self.bits as i32
        }
    }

    pub fn lt(self, other: Single) -> (r: bool)
        ensures
            r == self.below(other),
    {
        !self.is_nan() && !other.is_nan() && self.place_key() < other.place_key()
    }

    pub fn le(self, other: Single) -> (r: bool)
        ensures
            r == self.at_most(other),
    {
        !self.is_nan() && !other.is_nan() && self.place_key() <= other.place_key()
    }

    pub fn min(self, other: Single) -> (r: Single)
        ensures
            r == self.lower(other),
    {
        if self.is_nan() || other.lt(self) {
            other
        } else {
            self
        }
    }
}

/// Comparing two single-precision numbers by place compares their exact values.
pub proof fn lemma_single_order_is_numeric(a: Single, b: Single)
    requires
        !a.nan(),
        !b.nan(),
    ensures
        a.below(b) <==> a.value() < b.value(),
        a.at_most(b) <==> a.value() <= b.value(),
{
    lemma_signed_order(a.negative(), a.magnitude() as nat, b.negative(), b.magnitude() as nat, 23);
}

/// Two bit patterns that hold the same place in the total order are the same pattern, and the
/// total order refines the numeric one.
pub proof fn lemma_single_total_order(a: Single, b: Single)
    ensures
        a.total() == b.total() ==> a == b,
        a.below(b) ==> a.total() < b.total(),
{
}

/// A double-precision number, by its bit pattern.
#[derive(Clone, Copy, Debug, PartialEq, Eq, Structural)]
pub struct Double {
    pub bits: u64,
}

impl Double {
    /// Is the sign bit set?
    pub open spec fn negative(self) -> bool {
        self.bits >= 0x8000_0000_0000_0000
    }

    /// The bit pattern without its sign bit.
    pub open spec fn magnitude(self) -> int {
        (self.bits % 0x8000_0000_0000_0000) as int
    }

    /// Is this no number at all?
    pub open spec fn nan(self) -> bool {
        self.magnitude() > 0x7ff0_0000_0000_0000
    }

    /// The exact value, in units of 2^-1074, with the infinities beyond every finite number.
    pub open spec fn value(self) -> int {
        if self.negative() {
            -(units(self.magnitude() as nat, 52) as int)
        } else {
            units(self.magnitude() as nat, 52) as int
        }
    }

    /// Position in the numeric order, where both zeros share a place.
    pub open spec fn place(self) -> int {
        if self.negative() {
            -self.magnitude()
        } else {
            self.magnitude()
        }
    }

    /// Position in the total order of all bit patterns.
    pub open spec fn total(self) -> int {
        if self.negative() {
            -1 - self.magnitude()
        } else {
            self.magnitude()
        }
    }

    /// Numeric `<`, false as soon as a NaN takes part.
    pub open spec fn below(self, other: Double) -> bool {
        !self.nan() && !other.nan() && self.place() < other.place()
    }

    /// Numeric `<=`, false as soon as a NaN takes part.
    pub open spec fn at_most(self, other: Double) -> bool {
        !self.nan() && !other.nan() && self.place() <= other.place()
    }

    /// The smaller of two numbers. A NaN gives way to the other side.
    pub open spec fn lower(self, other: Double) -> Double {
        if self.nan() || other.below(self) {
            other
        } else {
            self
        }
    }

    /// The larger of two numbers. A NaN gives way to the other side.
    pub open spec fn upper(self, other: Double) -> Double {
        if self.nan() || self.below(other) {
            other
        } else {
            self
        }
    }

    pub fn is_nan(self) -> (r: bool)
        ensures
            r == self.nan(),
    {
        self.bits % 0x8000_0000_0000_0000 > 0x7ff0_0000_0000_0000
    }

    /// Key of the total order: `a` sorts before `b` exactly when its key is smaller.
    pub fn total_key(self) -> (r: i64)
        ensures
            r == self.total(),
    {
        if self.bits >= 0x8000_0000_0000_0000 {
            -1 - ((self.bits - 0x8000_0000_0000_0000) as i64)
        } else {
            self.bits as i64
        }
    }

    fn place_key(self) -> (r: i64)
        ensures
            r == self.place(),
    {
        if self.bits >= 0x8000_0000_0000_0000 {
            -((self.bits - 0x8000_0000_0000_0000) as i64)
        } else {
            self.bits as i64
        }
    }

    pub fn lt(self, other: Double) -> (r: bool)
        ensures
            r == self.below(other),
    {
        !self.is_nan() && !other.is_nan() && self.place_key() < other.place_key()
    }

    pub fn le(self, other: Double) -> (r: bool)
        ensures
            r == self.at_most(other),
    {
        !self.is_nan() && !other.is_nan() && self.place_key() <= other.place_key()
    }

    pub fn min(self, other: Double) -> (r: Double)
        ensures
            r == self.lower(other),
    {
        if self.is_nan() || other.lt(self) {
            other
        } else {
            self
        }
    }

    pub fn max(self, other: Double) -> (r: Double)
        ensures
            r == self.upper(other),
    {
        if self.is_nan() || self.lt(other) {
            other
        } else {
            self
        }
    }
}

/// Comparing two double-precision numbers by place compares their exact values.
pub proof fn lemma_double_order_is_numeric(a: Double, b: Double)
    requires
        !a.nan(),
        !b.nan(),
    ensures
        a.below(b) <==> a.value() < b.value(),
        a.at_most(b) <==> a.value() <= b.value(),
{
    lemma_signed_order(a.negative(), a.magnitude() as nat, b.negative(), b.magnitude() as nat, 52);
}

/// Two bit patterns that hold the same place in the total order are the same pattern, and the
/// total order refines the numeric one.
pub proof fn lemma_double_total_order(a: Double, b: Double)
    ensures
        a.total() == b.total() ==> a == b,
        a.below(b) ==> a.total() < b.total(),
{
}

/// Signed magnitudes and the signed values they stand for are in the same order.
proof fn lemma_signed_order(na: bool, ma: nat, nb: bool, mb: nat, p: nat)
    ensures
        ({
            let pa = if na { -ma } else { ma as int };
            let pb = if nb { -mb } else { mb as int };
            let va = if na { -units(ma, p) } else { units(ma, p) as int };
            let vb = if nb { -units(mb, p) } else { units(mb, p) as int };
            (pa < pb <==> va < vb) && (pa <= pb <==> va <= vb)
        }),
{
    lemma_pow2_pos(p);
    assert(units(0, p) == 0) by {
        assert(0nat / pow2(p) == 0) by (nonlinear_arith)
            requires
                pow2(p) > 0,
        ;
        assert(0nat % pow2(p) == 0) by (nonlinear_arith)
            requires
                pow2(p) > 0,
        ;
    }
    if ma < mb {
        lemma_units_grow(ma, mb, p);
    } else if mb < ma {
        lemma_units_grow(mb, ma, p);
    }
    if ma > 0 {
        lemma_units_grow(0, ma, p);
    }
    if mb > 0 {
        lemma_units_grow(0, mb, p);
    }
}

/// The smaller and the larger of two numbers are one of them each, and bound both in value.
pub proof fn lemma_double_extremes(a: Double, b: Double)
    requires
        !a.nan(),
        !b.nan(),
    ensures
        a.lower(b) == a || a.lower(b) == b,
        a.upper(b) == a || a.upper(b) == b,
        a.lower(b).value() <= a.value(),
        a.lower(b).value() <= b.value(),
        a.upper(b).value() >= a.value(),
        a.upper(b).value() >= b.value(),
{
    lemma_double_order_is_numeric(a, b);
    lemma_double_order_is_numeric(b, a);
}

/// A NaN never comes out of a comparison with a number.
pub proof fn lemma_double_nan_gives_way(a: Double, b: Double)
    requires
        !a.nan(),
        b.nan(),
    ensures
        a.lower(b) == a,
        b.lower(a) == a,
        a.upper(b) == a,
        b.upper(a) == a,
        !a.below(b) && !b.below(a) && !a.at_most(b) && !b.at_most(a),
{
}

/// The smaller of two numbers is one of them, and bounds both in value; a NaN gives way.
pub proof fn lemma_single_extremes(a: Single, b: Single)
    ensures
        !a.nan() && !b.nan() ==> (a.lower(b) == a || a.lower(b) == b) && a.lower(b).value()
            <= a.value() && a.lower(b).value() <= b.value(),
        !a.nan() && b.nan() ==> a.lower(b) == a && b.lower(a) == a,
{
    if !a.nan() && !b.nan() {
        lemma_single_order_is_numeric(a, b);
        lemma_single_order_is_numeric(b, a);
    }
}

/// A NaN is what is not even equal to itself. The infinity is none: it is the largest number, and
/// the NaNs follow it.
pub proof fn lemma_single_infinity(x: Single)
    ensures
        x.nan() <==> !x.at_most(x),
        !(Single { bits: 0x7f80_0000 }).nan(),
        (Single { bits: 0x7f80_0001 }).nan(),
        !x.nan() ==> x.at_most(Single { bits: 0x7f80_0000 }) && (Single {
            bits: 0xff80_0000,
        }).at_most(x),
{
}

/// The same of double-precision numbers.
pub proof fn lemma_double_infinity(x: Double)
    ensures
        x.nan() <==> !x.at_most(x),
        !(Double { bits: 0x7ff0_0000_0000_0000 }).nan(),
        (Double { bits: 0x7ff0_0000_0000_0001 }).nan(),
        !x.nan() ==> x.at_most(Double { bits: 0x7ff0_0000_0000_0000 }) && (Double {
            bits: 0xfff0_0000_0000_0000,
        }).at_most(x),
{
}

} // verus!
