//! Exact arithmetic on single-precision values: every finite value is an
//! integer multiple of 2^-149, so sums and differences of values can be
//! compared as integers, without rounding.

use crate::ieee::F32Bits;
use crate::ieee::{FIFTH_BITS, HALF_BITS, HUNDRED_THOUSAND_BITS, THOUSAND_BITS, THREE_TENTHS_BITS};
use vstd::arithmetic::power2::{
    lemma2_to64, lemma_pow2_adds, lemma_pow2_pos, lemma_pow2_strictly_increases,
    lemma_pow2_unfold, pow2,
};
use vstd::prelude::*;

verus! {

/// 2^64, the base of the limbs of a wide number.
spec fn limb() -> int {
    0x1_0000_0000_0000_0000
}

/// A natural number below 2^320 in five limbs of 64 bits, the least
/// significant first.
struct Wide {
    l0: u64,
    l1: u64,
    l2: u64,
    l3: u64,
    l4: u64,
}

impl Wide {
    spec fn value(self) -> int {
        self.l0 + limb() * (self.l1 + limb() * (self.l2 + limb() * (self.l3 + limb() * self.l4)))
    }

    /// The number `m * 2^e`.
    fn place(m: u32, e: u32) -> (w: Wide)
        requires
            m < 0x100_0000,
            e <= 253,
        ensures
            w.value() == m * pow2(e as nat),
            w.l4 < 0x100_0000,
    {
        let q: u32 = e / 64;
        let r: u32 = e % 64;
        let mut p: u128 = 1;
        let mut i: u32 = 0;
        proof {
            lemma2_to64();
        }
        while i < r
            invariant
                i <= r < 64,
                p == pow2(i as nat),
                p < 0x1_0000_0000_0000_0000,
            decreases r - i,
        {
            proof {
                lemma_pow2_unfold((i + 1) as nat);
                lemma2_to64();
                if i + 1 < 64 {
                    lemma_pow2_strictly_increases((i + 1) as nat, 64);
                }
            }
            p = p * 2;
            i = i + 1;
        }
        assert(m * p <= 0xff_ffff * 0xffff_ffff_ffff_ffff) by (nonlinear_arith)
            requires
                0 <= m <= 0xff_ffff,
                0 <= p <= 0xffff_ffff_ffff_ffff,
        ;
        let wide: u128 = (m as u128) * p;
        let lo: u64 = (wide % 0x1_0000_0000_0000_0000) as u64;
        let hi: u64 = (wide / 0x1_0000_0000_0000_0000) as u64;
        proof {
            lemma2_to64();
            assert(wide == lo + limb() * hi);
            lemma_pow2_adds(r as nat, 64);
            lemma_pow2_adds((r + 64) as nat, 64);
            lemma_pow2_adds((r + 128) as nat, 64);
            let pr = pow2(r as nat) as int;
            assert(pow2((r + 64) as nat) == pr * limb());
            assert(pow2((r + 128) as nat) == pr * limb() * limb());
            assert(pow2((r + 192) as nat) == pr * limb() * limb() * limb());
            assert(m * (pr * limb()) == limb() * (m * pr)) by (nonlinear_arith);
            assert(m * (pr * limb() * limb()) == limb() * (limb() * (m * pr))) by (nonlinear_arith);
            assert(m * (pr * limb() * limb() * limb()) == limb() * (limb() * (limb() * (m * pr))))
                by (nonlinear_arith);
        }
        if q == 0 {
            Wide { l0: lo, l1: hi, l2: 0, l3: 0, l4: 0 }
        } else if q == 1 {
            Wide { l0: 0, l1: lo, l2: hi, l3: 0, l4: 0 }
        } else if q == 2 {
            Wide { l0: 0, l1: 0, l2: lo, l3: hi, l4: 0 }
        } else {
            Wide { l0: 0, l1: 0, l2: 0, l3: lo, l4: hi }
        }
    }

    /// The sum of two numbers.
    fn plus(&self, other: &Wide) -> (w: Wide)
        requires
            self.l4 < 0x4000_0000_0000_0000,
            other.l4 < 0x4000_0000_0000_0000,
        ensures
            w.value() == self.value() + other.value(),
            w.l4 <= self.l4 + other.l4 + 1,
    {
        let s0: u128 = self.l0 as u128 + other.l0 as u128;
        let s1: u128 = self.l1 as u128 + other.l1 as u128 + s0 / 0x1_0000_0000_0000_0000;
        let s2: u128 = self.l2 as u128 + other.l2 as u128 + s1 / 0x1_0000_0000_0000_0000;
        let s3: u128 = self.l3 as u128 + other.l3 as u128 + s2 / 0x1_0000_0000_0000_0000;
        let s4: u128 = self.l4 as u128 + other.l4 as u128 + s3 / 0x1_0000_0000_0000_0000;
        Wide {
            l0: (s0 % 0x1_0000_0000_0000_0000) as u64,
            l1: (s1 % 0x1_0000_0000_0000_0000) as u64,
            l2: (s2 % 0x1_0000_0000_0000_0000) as u64,
            l3: (s3 % 0x1_0000_0000_0000_0000) as u64,
            l4: s4 as u64,
        }
    }

    /// Whether this number is at most the other.
    fn at_most(&self, other: &Wide) -> (b: bool)
        ensures
            b == (self.value() <= other.value()),
    {
        if self.l4 != other.l4 {
            self.l4 < other.l4
        } else if self.l3 != other.l3 {
            self.l3 < other.l3
        } else if self.l2 != other.l2 {
            self.l2 < other.l2
        } else if self.l1 != other.l1 {
            self.l1 < other.l1
        } else {
            self.l0 <= other.l0
        }
    }
}


impl F32Bits {
    /// The eight exponent bits.
    pub open spec fn exponent_field(self) -> int {
        self.magnitude() / 0x80_0000
    }

    /// The twenty-three fraction bits.
    pub open spec fn fraction_field(self) -> int {
        self.magnitude() % 0x80_0000
    }

    /// The significand: the fraction bits, with a leading one unless the
    /// exponent bits are all zero.
    pub open spec fn significand(self) -> int {
        if self.exponent_field() == 0 {
            self.fraction_field()
        } else {
            self.fraction_field() + 0x80_0000
        }
    }

    /// The power of two by which the significand is scaled, counted from
    /// 2^-149.
    pub open spec fn scale(self) -> nat {
        if self.exponent_field() == 0 {
            0
        } else {
            (self.exponent_field() - 1) as nat
        }
    }

    /// The absolute value of a finite value, in units of 2^-149.
    pub open spec fn units(self) -> int {
        self.significand() * pow2(self.scale())
    }

    /// A finite value in units of 2^-149.
    pub open spec fn signed_units(self) -> int {
        if self.negative() {
            -self.units()
        } else {
            self.units()
        }
    }
}

/// `found` is finite and differs from `value` by at most `tolerance`:
/// `|found - value| <= tolerance`, in exact arithmetic. Not-a-number on any
/// side fails the test; an infinite tolerance passes every finite `found`.
pub open spec fn within_tolerance(found: F32Bits, value: F32Bits, tolerance: F32Bits) -> bool {
    &&& found.finite()
    &&& !value.nan()
    &&& !tolerance.nan()
    &&& if tolerance.bits == 0x7f80_0000 {
        true
    } else if tolerance.negative() && tolerance.magnitude() != 0 {
        false
    } else if !value.finite() {
        false
    } else {
        let d = found.signed_units() - value.signed_units();
        -tolerance.units() <= d <= tolerance.units()
    }
}

fn wide_of(x: &F32Bits) -> (w: Wide)
    requires
        x.finite(),
    ensures
        w.value() == x.units(),
        w.value() >= 0,
        w.l4 < 0x100_0000,
{
    let magnitude: u32 = if x.bits >= 0x8000_0000 {
        x.bits - 0x8000_0000
    } else {
        x.bits
    };
    let field: u32 = magnitude / 0x80_0000;
    let fraction: u32 = magnitude % 0x80_0000;
    let w = if field == 0 {
        Wide::place(fraction, 0)
    } else {
        Wide::place(fraction + 0x80_0000, field - 1)
    };
    proof {
        assert(x.significand() * pow2(x.scale()) >= 0) by (nonlinear_arith)
            requires
                x.significand() >= 0,
                pow2(x.scale()) >= 0,
        ;
    }
    w
}

/// Whether `found` is finite and within `tolerance` of `value`.
pub fn close_enough(found: &F32Bits, value: &F32Bits, tolerance: &F32Bits) -> (b: bool)
    ensures
        b == within_tolerance(*found, *value, *tolerance),
{
    if !found.is_finite() || value.is_nan() || tolerance.is_nan() {
        return false;
    }
    if tolerance.bits == 0x7f80_0000 {
        return true;
    }
    if tolerance.bits > 0x8000_0000 {
        return false;
    }
    if !value.is_finite() {
        return false;
    }
    let a = wide_of(found);
    let b = wide_of(value);
    let t = wide_of(tolerance);
    if (found.bits >= 0x8000_0000) == (value.bits >= 0x8000_0000) {
        let b_up = b.plus(&t);
        let a_up = a.plus(&t);
        a.at_most(&b_up) && b.at_most(&a_up)
    } else {
        let sum = a.plus(&b);
        sum.at_most(&t)
    }
}


proof fn lemma_scaled_less(a: int, b: int, p: int)
    requires
        a < b,
        p > 0,
    ensures
        a * p < b * p,
{
    assert(a * p < b * p) by (nonlinear_arith)
        requires
            a < b,
            p > 0,
    ;
}

proof fn lemma_scaled_most(a: int, b: int, p: int)
    requires
        a <= b,
        p >= 0,
    ensures
        a * p <= b * p,
{
    assert(a * p <= b * p) by (nonlinear_arith)
        requires
            a <= b,
            p >= 0,
    ;
}

/// Of two finite values, the one with the greater bit pattern (sign bit
/// aside) is the greater in absolute value.
pub proof fn lemma_units_increase(a: F32Bits, b: F32Bits)
    requires
        a.finite(),
        b.finite(),
        a.magnitude() < b.magnitude(),
    ensures
        0 <= a.units() < b.units(),
{
    let ea = a.exponent_field();
    let eb = b.exponent_field();
    lemma_pow2_pos(a.scale());
    lemma_pow2_pos(b.scale());
    lemma_scaled_most(0, a.significand(), pow2(a.scale()) as int);
    if ea == eb {
        lemma_scaled_less(a.significand(), b.significand(), pow2(a.scale()) as int);
    } else if ea == 0 {
        lemma2_to64();
        lemma_scaled_most(1, pow2(b.scale()) as int, 0x80_0000);
        lemma_scaled_most(0x80_0000, b.significand(), pow2(b.scale()) as int);
    } else {
        let pa = pow2(a.scale()) as int;
        lemma_pow2_unfold((a.scale() + 1) as nat);
        lemma_scaled_less(a.significand(), 0x100_0000, pa);
        if a.scale() + 1 < b.scale() {
            lemma_pow2_strictly_increases((a.scale() + 1) as nat, b.scale());
        }
        lemma_scaled_most(pow2((a.scale() + 1) as nat) as int, pow2(b.scale()) as int, 0x80_0000);
        lemma_scaled_most(0x80_0000, b.significand(), pow2(b.scale()) as int);
        assert(0x100_0000 * pa == (2 * pa) * 0x80_0000) by (nonlinear_arith);
    }
}

/// The order of the bit patterns is the order of the values: for finite
/// values, comparing ranks is comparing the values in units of 2^-149.
pub proof fn lemma_order_is_numeric(a: F32Bits, b: F32Bits)
    requires
        a.finite(),
        b.finite(),
    ensures
        a.below(b) == (a.signed_units() < b.signed_units()),
        a.at_most(b) == (a.signed_units() <= b.signed_units()),
{
    if a.magnitude() < b.magnitude() {
        lemma_units_increase(a, b);
    } else if b.magnitude() < a.magnitude() {
        lemma_units_increase(b, a);
    }
    lemma_pow2_pos(a.scale());
    lemma_pow2_pos(b.scale());
    lemma_scaled_most(0, a.significand(), pow2(a.scale()) as int);
    lemma_scaled_most(0, b.significand(), pow2(b.scale()) as int);
    if a.magnitude() == 0 {
        assert(a.units() == 0) by (nonlinear_arith)
            requires
                a.units() == a.significand() * pow2(a.scale()),
                a.significand() == 0,
        ;
    }
    if b.magnitude() == 0 {
        assert(b.units() == 0) by (nonlinear_arith)
            requires
                b.units() == b.significand() * pow2(b.scale()),
                b.significand() == 0,
        ;
    }
    if a.magnitude() > 0 {
        lemma_units_increase(F32Bits { bits: 0 }, F32Bits { bits: a.magnitude() as u32 });
        assert((F32Bits { bits: a.magnitude() as u32 }).units() == a.units());
    }
    if b.magnitude() > 0 {
        lemma_units_increase(F32Bits { bits: 0 }, F32Bits { bits: b.magnitude() as u32 });
        assert((F32Bits { bits: b.magnitude() as u32 }).units() == b.units());
    }
}

/// `x < num / den` for a value `x` that is a number, in exact arithmetic;
/// minus infinity is below every ratio and plus infinity below none.
pub open spec fn below_ratio(x: F32Bits, num: int, den: int) -> bool {
    &&& !x.nan()
    &&& if x.finite() {
        den * x.signed_units() < num * pow2(149)
    } else {
        x.negative()
    }
}

/// A positive finite value `c` that is at least `num / den`, while the value
/// just before it is less, stands for the ratio in comparisons: a value is
/// below `c` exactly when it is below the ratio.
proof fn lemma_threshold(c: F32Bits, num: int, den: int, x: F32Bits)
    requires
        c.finite(),
        !c.negative(),
        c.bits > 0,
        den > 0,
        num > 0,
        den * c.units() >= num * pow2(149),
        den * (F32Bits { bits: (c.bits - 1) as u32 }).units() < num * pow2(149),
    ensures
        x.below(c) == below_ratio(x, num, den),
{
    let before = F32Bits { bits: (c.bits - 1) as u32 };
    lemma_pow2_pos(149);
    if x.finite() {
        lemma_order_is_numeric(x, c);
        lemma_order_is_numeric(x, before);
        lemma_pow2_pos(x.scale());
        lemma_scaled_most(0, x.significand(), pow2(x.scale()) as int);
        let xs = x.signed_units();
        if x.below(c) {
            assert(x.at_most(before));
            assert(den * xs <= den * before.units()) by (nonlinear_arith)
                requires
                    xs <= before.units(),
                    den > 0,
            ;
        } else {
            assert(den * xs >= den * c.units()) by (nonlinear_arith)
                requires
                    xs >= c.units(),
                    den > 0,
            ;
        }
        assert(num * pow2(149) > 0) by (nonlinear_arith)
            requires
                num > 0,
                pow2(149) > 0,
        ;
    }
}

/// What a positive value of significand `sig` and scale `scale` amounts to
/// against `num / den`, given what the significand amounts to against the
/// ratio scaled by `2^(149 - scale)`.
proof fn lemma_units_against_ratio(v: F32Bits, num: int, den: int, k: nat)
    requires
        v.scale() + k == 149,
    ensures
        den * v.significand() >= num * pow2(k) ==> den * v.units() >= num * pow2(149),
        den * v.significand() < num * pow2(k) ==> den * v.units() < num * pow2(149),
{
    let p = pow2(v.scale()) as int;
    lemma_pow2_pos(v.scale());
    lemma_pow2_adds(k, v.scale());
    let lhs = den * v.significand();
    let rhs = num * pow2(k);
    if lhs >= rhs {
        lemma_scaled_most(rhs, lhs, p);
    } else {
        lemma_scaled_less(lhs, rhs, p);
    }
    assert(den * v.units() == lhs * p) by (nonlinear_arith)
        requires
            v.units() == v.significand() * p,
            lhs == den * v.significand(),
    ;
    assert(num * pow2(149) == rhs * p) by (nonlinear_arith)
        requires
            pow2(149) == pow2(k) * p,
            rhs == num * pow2(k),
    ;
}

/// A value is below the constant for 0.2 exactly when it is below one fifth.
pub proof fn lemma_fifth(x: F32Bits)
    ensures
        x.below(F32Bits { bits: FIFTH_BITS }) == below_ratio(x, 1, 5),
{
    let c = F32Bits { bits: FIFTH_BITS };
    let before = F32Bits { bits: (FIFTH_BITS - 1) as u32 };
    lemma2_to64();
    assert(c.exponent_field() == 124 && c.significand() == 13421773);
    assert(before.exponent_field() == 124 && before.significand() == 13421772);
    lemma_units_against_ratio(c, 1, 5, 26);
    lemma_units_against_ratio(before, 1, 5, 26);
    lemma_threshold(c, 1, 5, x);
}

/// A value is below the constant for 0.3 exactly when it is below three
/// tenths.
pub proof fn lemma_three_tenths(x: F32Bits)
    ensures
        x.below(F32Bits { bits: THREE_TENTHS_BITS }) == below_ratio(x, 3, 10),
{
    let c = F32Bits { bits: THREE_TENTHS_BITS };
    let before = F32Bits { bits: (THREE_TENTHS_BITS - 1) as u32 };
    lemma2_to64();
    assert(c.exponent_field() == 125 && c.significand() == 10066330);
    assert(before.exponent_field() == 125 && before.significand() == 10066329);
    lemma_units_against_ratio(c, 3, 10, 25);
    lemma_units_against_ratio(before, 3, 10, 25);
    lemma_threshold(c, 3, 10, x);
}

/// A value is below the constant for 0.5 exactly when it is below one half.
pub proof fn lemma_half(x: F32Bits)
    ensures
        x.below(F32Bits { bits: HALF_BITS }) == below_ratio(x, 1, 2),
{
    let c = F32Bits { bits: HALF_BITS };
    let before = F32Bits { bits: (HALF_BITS - 1) as u32 };
    lemma2_to64();
    assert(c.exponent_field() == 126 && c.significand() == 8388608);
    assert(before.exponent_field() == 125 && before.significand() == 16777215);
    lemma_units_against_ratio(c, 1, 2, 24);
    lemma_units_against_ratio(before, 1, 2, 25);
    lemma_threshold(c, 1, 2, x);
}

/// A value is below the constant for 1000 exactly when it is below 1000.
pub proof fn lemma_thousand(x: F32Bits)
    ensures
        x.below(F32Bits { bits: THOUSAND_BITS }) == below_ratio(x, 1000, 1),
{
    let c = F32Bits { bits: THOUSAND_BITS };
    let before = F32Bits { bits: (THOUSAND_BITS - 1) as u32 };
    lemma2_to64();
    assert(c.exponent_field() == 136 && c.significand() == 16384000);
    assert(before.exponent_field() == 136 && before.significand() == 16383999);
    lemma_units_against_ratio(c, 1000, 1, 14);
    lemma_units_against_ratio(before, 1000, 1, 14);
    lemma_threshold(c, 1000, 1, x);
}

/// A value is below the constant for 100000 exactly when it is below 100000.
pub proof fn lemma_hundred_thousand(x: F32Bits)
    ensures
        x.below(F32Bits { bits: HUNDRED_THOUSAND_BITS }) == below_ratio(x, 100000, 1),
{
    let c = F32Bits { bits: HUNDRED_THOUSAND_BITS };
    let before = F32Bits { bits: (HUNDRED_THOUSAND_BITS - 1) as u32 };
    lemma2_to64();
    assert(c.exponent_field() == 143 && c.significand() == 12800000);
    assert(before.exponent_field() == 143 && before.significand() == 12799999);
    lemma_units_against_ratio(c, 100000, 1, 7);
    lemma_units_against_ratio(before, 100000, 1, 7);
    lemma_threshold(c, 100000, 1, x);
}

} // verus!
