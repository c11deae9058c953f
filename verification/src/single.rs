//! Single-precision numbers, held as bit patterns.
//!
//! Everything that can be decided about a number without rounding is decided
//! here: how two numbers compare, which of them is the larger, which integer a
//! number rounds to. Arithmetic that rounds belongs to [`crate::arith`].

use vstd::prelude::*;
use vstd::arithmetic::power2::{
    pow2, lemma2_to64, lemma_pow2_adds, lemma_pow2_pos, lemma_pow2_strictly_increases, lemma_pow2_unfold,
};
use vstd::arithmetic::div_mod::{
    lemma_div_by_multiple, lemma_div_denominator, lemma_div_is_ordered, lemma_fundamental_div_mod,
    lemma_fundamental_div_mod_converse,
};

verus! {

/// The bit that carries the sign.
pub const SIGN_BIT: u32 = 0x8000_0000;
/// The pattern of positive infinity; larger magnitudes are not numbers.
pub const INFINITY_BITS: u32 = 0x7f80_0000;
/// The number of fractions between two neighbouring exponents.
pub const FRACTION_SPAN: u32 = 0x80_0000;

/// An IEEE 754 single-precision number.
#[derive(Clone, Copy, PartialEq, Eq, Structural, Debug)]
pub struct Single(pub u32);

/// The nearest integer to `magnitude` steps of the finest spacing, halves going up.
pub open spec fn rounded_units(magnitude: nat) -> nat {
    (magnitude + pow2(148)) as nat / pow2(149)
}

/// The integer part of `magnitude` steps of the finest spacing.
pub open spec fn whole_units(magnitude: nat) -> nat {
    magnitude / pow2(149)
}

impl Single {
    /// The sign is set. This holds of a zero too.
    pub open spec fn negative(self) -> bool {
        self.0 >= SIGN_BIT
    }

    /// The pattern without its sign.
    pub open spec fn unsigned(self) -> nat {
        if self.0 >= SIGN_BIT {
            (self.0 - SIGN_BIT) as nat
        } else {
            self.0 as nat
        }
    }

    /// The exponent as the pattern holds it.
    pub open spec fn exponent(self) -> nat {
        self.unsigned() / (FRACTION_SPAN as nat)
    }

    /// The fraction as the pattern holds it.
    pub open spec fn fraction(self) -> nat {
        self.unsigned() % (FRACTION_SPAN as nat)
    }

    /// This is no number at all.
    pub open spec fn nan(self) -> bool {
        self.unsigned() > INFINITY_BITS
    }

    /// This is a number other than the infinities.
    pub open spec fn finite(self) -> bool {
        self.unsigned() < INFINITY_BITS
    }

    /// The absolute value in steps of the finest spacing, `2^-149`. Infinity
    /// counts as the step after the largest finite number.
    pub open spec fn magnitude(self) -> nat {
        if self.exponent() == 0 {
            self.fraction()
        } else {
            (self.fraction() + FRACTION_SPAN as nat) * pow2((self.exponent() - 1) as nat)
        }
    }

    /// The value in steps of `2^-149`. Both zeros are 0.
    pub open spec fn steps(self) -> int {
        if self.negative() {
            -(self.magnitude() as int)
        } else {
            self.magnitude() as int
        }
    }

    /// `self < other` between numbers; never true of a NaN.
    pub open spec fn below(self, other: Single) -> bool {
        !self.nan() && !other.nan() && self.steps() < other.steps()
    }

    /// `self <= other` between numbers; never true of a NaN.
    pub open spec fn at_most(self, other: Single) -> bool {
        !self.nan() && !other.nan() && self.steps() <= other.steps()
    }

    /// The larger of two numbers; the other one where one is a NaN.
    pub open spec fn larger(self, other: Single) -> Single {
        if self.nan() || self.below(other) {
            other
        } else {
            self
        }
    }

    /// The smaller of two numbers; the other one where one is a NaN.
    pub open spec fn smaller(self, other: Single) -> Single {
        if self.nan() || other.below(self) {
            other
        } else {
            self
        }
    }

    /// `self` held between `lo` and `hi`; a NaN stays as it is.
    pub open spec fn held(self, lo: Single, hi: Single) -> Single {
        if self.below(lo) {
            lo
        } else if hi.below(self) {
            hi
        } else {
            self
        }
    }

    /// The number without its sign.
    pub open spec fn absolute(self) -> Single {
        Single(self.unsigned() as u32)
    }

    /// The number with the other sign.
    pub open spec fn opposite(self) -> Single {
        if self.negative() {
            Single((self.0 - SIGN_BIT) as u32)
        } else {
            Single((self.0 + SIGN_BIT) as u32)
        }
    }
}

/// A larger pattern without sign is a larger magnitude.
pub proof fn lemma_magnitude_orders(a: Single, b: Single)
    ensures
        a.unsigned() < b.unsigned() ==> a.magnitude() < b.magnitude(),
        a.unsigned() == b.unsigned() ==> a.magnitude() == b.magnitude(),
{
    let span = FRACTION_SPAN as nat;
    assert(a.unsigned() == span * a.exponent() + a.fraction()) by {
        lemma_fundamental_div_mod(a.unsigned() as int, span as int);
    }
    assert(b.unsigned() == span * b.exponent() + b.fraction()) by {
        lemma_fundamental_div_mod(b.unsigned() as int, span as int);
    }
    if a.unsigned() < b.unsigned() {
        if a.exponent() == b.exponent() {
            if a.exponent() > 0 {
                let p = pow2((a.exponent() - 1) as nat);
                lemma_pow2_pos((a.exponent() - 1) as nat);
                assert((a.fraction() + span) * p < (b.fraction() + span) * p) by (nonlinear_arith)
                    requires
                        a.fraction() < b.fraction(),
                        p > 0,
                ;
            }
        } else {
            assert(a.exponent() < b.exponent());
            let q = pow2((b.exponent() - 1) as nat);
            lemma_pow2_pos((b.exponent() - 1) as nat);
            assert((b.fraction() + span) * q >= span * q) by (nonlinear_arith)
                requires
                    b.fraction() >= 0,
                    q > 0,
            ;
            if a.exponent() == 0 {
                assert(span * q >= span) by (nonlinear_arith)
                    requires
                        q >= 1,
                        span >= 0,
                ;
            } else {
                let p = pow2((a.exponent() - 1) as nat);
                lemma_pow2_pos((a.exponent() - 1) as nat);
                lemma_pow2_unfold(a.exponent());
                if a.exponent() < b.exponent() - 1 {
                    lemma_pow2_strictly_increases(a.exponent(), (b.exponent() - 1) as nat);
                }
                assert(2 * p <= q);
                assert((a.fraction() + span) * p < span * q) by (nonlinear_arith)
                    requires
                        a.fraction() < span,
                        2 * p <= q,
                        p > 0,
                        span > 0,
                ;
            }
        }
    }
}

/// Every multiple of a power of two that takes no more than 24 bits is a number.
pub proof fn lemma_is_a_number(k: nat, j: nat) -> (m: Single)
    requires
        k < 2 * FRACTION_SPAN,
        j < 200,
    ensures
        m.finite(),
        m.steps() == k * pow2(j),
    decreases 2 * FRACTION_SPAN - k, j,
{
    let span = FRACTION_SPAN as nat;
    if k == 0 {
        assert(0 * pow2(j) == 0) by (nonlinear_arith);
        Single(0)
    } else if k >= span {
        let m = Single(((j + 1) * span + (k - span)) as u32);
        lemma_fundamental_div_mod_converse(
            m.unsigned() as int,
            span as int,
            (j + 1) as int,
            (k - span) as int,
        );
        m
    } else if j == 0 {
        lemma2_to64();
        assert(k * pow2(0) == k) by (nonlinear_arith)
            requires
                pow2(0) == 1,
        ;
        lemma_fundamental_div_mod_converse(k as int, span as int, 0, k as int);
        Single(k as u32)
    } else {
        let i = (j - 1) as nat;
        lemma_pow2_unfold(j);
        assert((2 * k) * pow2(i) == k * (2 * pow2(i))) by (nonlinear_arith);
        lemma_is_a_number(2 * k, i)
    }
}

/// A larger number rounds to no smaller a count.
pub proof fn lemma_index_near_rises(a: Single, b: Single)
    requires
        a.at_most(b),
    ensures
        a.index_near() <= b.index_near(),
{
    lemma_pow2_pos(149);
    lemma_pow2_strictly_increases(148, 149);
    if !a.negative() {
        lemma_div_is_ordered(
            (a.magnitude() + pow2(148)) as int,
            (b.magnitude() + pow2(148)) as int,
            pow2(149) as int,
        );
        if b.negative() {
            assert(a.magnitude() == 0);
            lemma_fundamental_div_mod_converse(pow2(148) as int, pow2(149) as int, 0, pow2(148) as int);
        }
    }
}

/// No number is below itself, and `below` passes from one number to the next.
pub proof fn lemma_order(a: Single, b: Single, c: Single)
    ensures
        !a.below(a),
        a.below(b) ==> !b.below(a),
        a.below(b) && b.below(c) ==> a.below(c),
        !a.nan() && !b.nan() ==> a.below(b) || b.at_most(a),
{
}

/// Turning the sign turns the value, and turning it twice changes nothing.
pub proof fn lemma_opposite(a: Single)
    ensures
        a.opposite().steps() == -a.steps(),
        a.opposite().opposite() == a,
{
    lemma_magnitude_orders(a, a.opposite());
}

/// Holding a number between two bounds in order leaves it between them.
pub proof fn lemma_held_between(x: Single, lo: Single, hi: Single)
    requires
        lo.at_most(hi),
        !x.nan(),
    ensures
        lo.at_most(x.held(lo, hi)),
        x.held(lo, hi).at_most(hi),
{
}

impl Single {
    /// Whether this is no number at all.
    pub fn is_nan(self) -> (r: bool)
        ensures
            r == self.nan(),
    {
        let u = self.strip();
        u > INFINITY_BITS
    }

    /// Whether this is a number other than the infinities.
    pub fn is_finite(self) -> (r: bool)
        ensures
            r == self.finite(),
    {
        let u = self.strip();
        u < INFINITY_BITS
    }

    /// Whether this is a nonzero number below the normal range.
    pub fn is_subnormal(self) -> (r: bool)
        ensures
            r == (self.exponent() == 0 && self.fraction() != 0),
    {
        let u = self.strip();
        u < FRACTION_SPAN && u != 0
    }

    fn strip(self) -> (u: u32)
        ensures
            u as nat == self.unsigned(),
    {
        if self.0 >= SIGN_BIT {
            self.0 - SIGN_BIT
        } else {
            self.0
        }
    }

    /// The number without its sign.
    pub fn abs(self) -> (r: Single)
        ensures
            r == self.absolute(),
    {
        Single(self.strip())
    }

    /// The number with the other sign.
    pub fn negated(self) -> (r: Single)
        ensures
            r == self.opposite(),
    {
        if self.0 >= SIGN_BIT {
            Single(self.0 - SIGN_BIT)
        } else {
            Single(self.0 + SIGN_BIT)
        }
    }

    /// `self < other`.
    pub fn lt(self, other: Single) -> (r: bool)
        ensures
            r == self.below(other),
    {
        let a = self.strip();
        let b = other.strip();
        proof {
            lemma_magnitude_orders(self, other);
            lemma_magnitude_orders(other, self);
            lemma_magnitude_orders(self, Single(0));
            lemma_magnitude_orders(other, Single(0));
            lemma_magnitude_orders(Single(0), self);
            lemma_magnitude_orders(Single(0), other);
        }
        if a > INFINITY_BITS || b > INFINITY_BITS {
            return false;
        }
        if self.0 >= SIGN_BIT {
            if other.0 >= SIGN_BIT {
                b < a
            } else {
                a != 0 || b != 0
            }
        } else if other.0 >= SIGN_BIT {
            false
        } else {
            a < b
        }
    }

    /// `self <= other`.
    pub fn le(self, other: Single) -> (r: bool)
        ensures
            r == self.at_most(other),
    {
        !self.is_nan() && !other.is_nan() && !other.lt(self)
    }

    /// The larger of the two.
    pub fn max(self, other: Single) -> (r: Single)
        ensures
            r == self.larger(other),
    {
        if self.is_nan() || self.lt(other) {
            other
        } else {
            self
        }
    }

    /// The smaller of the two.
    pub fn min(self, other: Single) -> (r: Single)
        ensures
            r == self.smaller(other),
    {
        if self.is_nan() || other.lt(self) {
            other
        } else {
            self
        }
    }

    /// The number held between `lo` and `hi`.
    pub fn clamp(self, lo: Single, hi: Single) -> (r: Single)
        ensures
            r == self.held(lo, hi),
    {
        if self.lt(lo) {
            lo
        } else if hi.lt(self) {
            hi
        } else {
            self
        }
    }
}

/// One more than the largest integer that conversions tell apart, `2^64`.
pub const UNIT_LIMIT: u128 = 0x1_0000_0000_0000_0000;

/// `units`, or the limit where it is past that.
pub open spec fn limited(units: nat) -> nat {
    if units < UNIT_LIMIT {
        units
    } else {
        UNIT_LIMIT as nat
    }
}

/// `2^k`.
fn power(k: u32) -> (r: u128)
    requires
        k <= 64,
    ensures
        r == pow2(k as nat),
        r <= UNIT_LIMIT,
{
    proof {
        lemma2_to64();
    }
    let mut r: u128 = 1;
    for i in 0..k
        invariant
            k <= 64,
            r == pow2(i as nat),
    {
        proof {
            lemma2_to64();
            lemma_pow2_unfold((i + 1) as nat);
            lemma_pow2_strictly_increases(i as nat, 64);
        }
        r = r * 2;
    }
    proof {
        lemma2_to64();
        if k < 64 {
            lemma_pow2_strictly_increases(k as nat, 64);
        }
    }
    r
}

proof fn lemma_units_of_multiple(m: nat, k: nat)
    ensures
        rounded_units(m * pow2(149 + k)) == m * pow2(k),
        whole_units(m * pow2(149 + k)) == m * pow2(k),
{
    let d = pow2(149);
    let q = m * pow2(k);
    lemma_pow2_adds(k, 149);
    lemma_pow2_unfold(149);
    lemma_pow2_pos(148);
    assert(m * (pow2(k) * d) == q * d) by (nonlinear_arith)
        requires
            q == m * pow2(k),
    ;
    lemma_fundamental_div_mod_converse((q * d + pow2(148)) as int, d as int, q as int, pow2(148) as int);
    lemma_fundamental_div_mod_converse((q * d) as int, d as int, q as int, 0);
}

proof fn lemma_units_of_part(m: nat, s: nat)
    requires
        1 <= s <= 149,
    ensures
        rounded_units(m * pow2((149 - s) as nat)) == (m + pow2((s - 1) as nat)) as nat / pow2(s),
        whole_units(m * pow2((149 - s) as nat)) == m / pow2(s),
{
    let t = (149 - s) as nat;
    lemma_pow2_adds(s, t);
    lemma_pow2_adds((s - 1) as nat, t);
    lemma_pow2_pos(s);
    lemma_pow2_pos(t);
    let h = pow2((s - 1) as nat);
    assert((m + h) * pow2(t) == m * pow2(t) + h * pow2(t)) by (nonlinear_arith);
    lemma_div_denominator(((m + h) * pow2(t)) as int, pow2(t) as int, pow2(s) as int);
    lemma_div_by_multiple((m + h) as int, pow2(t) as int);
    lemma_div_denominator((m * pow2(t)) as int, pow2(t) as int, pow2(s) as int);
    lemma_div_by_multiple(m as int, pow2(t) as int);
    assert(pow2(t) * pow2(s) == pow2(s) * pow2(t)) by (nonlinear_arith);
}

proof fn lemma_small_part(m: nat, s: nat)
    requires
        m < 0x100_0000,
        s >= 25,
    ensures
        m < pow2(s),
        s >= 26 ==> m + pow2((s - 1) as nat) < pow2(s),
{
    lemma2_to64();
    if s > 25 {
        lemma_pow2_strictly_increases(25, s);
        lemma_pow2_unfold(s);
        if s > 26 {
            lemma_pow2_strictly_increases(25, (s - 1) as nat);
        }
    }
}

impl Single {
    /// The significand and the power of two it is multiplied by, in steps.
    fn parts(self) -> (r: (u32, u32))
        ensures
            self.magnitude() == (r.0 as nat) * pow2((r.1 - 1) as nat),
            r.0 < 0x100_0000,
            1 <= r.1 <= 255,
            r.1 > 1 ==> r.0 >= FRACTION_SPAN,
    {
        proof {
            lemma2_to64();
        }
        let u = self.strip();
        let e = u / FRACTION_SPAN;
        let f = u % FRACTION_SPAN;
        if e == 0 {
            assert(f * pow2(0) == f) by {
                assert(pow2(0) == 1);
            }
            (f, 1)
        } else {
            (f + FRACTION_SPAN, e)
        }
    }

    /// The nearest integer to the absolute value, no larger than [`UNIT_LIMIT`].
    pub fn nearest(self) -> (r: u128)
        ensures
            r as nat == limited(rounded_units(self.magnitude())),
    {
        let (m, e) = self.parts();
        if e >= 150 {
            self.integral(m, e)
        } else {
            let s = 150 - e;
            proof {
                lemma_units_of_part(m as nat, s as nat);
            }
            if s > 25 {
                proof {
                    lemma_small_part(m as nat, s as nat);
                    lemma_pow2_pos(s as nat);
                    lemma_fundamental_div_mod_converse(
                        (m + pow2((s - 1) as nat)) as int,
                        pow2(s as nat) as int,
                        0,
                        (m + pow2((s - 1) as nat)) as int,
                    );
                }
                0
            } else {
                proof {
                    lemma2_to64();
                }
                let half = power(s - 1);
                let whole = power(s);
                proof {
                    lemma_pow2_pos(s as nat);
                    lemma_quotient_small((m + half) as nat, whole as nat);
                }
                (m as u128 + half) / whole
            }
        }
    }

    /// The integer part of the absolute value, no larger than [`UNIT_LIMIT`].
    pub fn whole(self) -> (r: u128)
        ensures
            r as nat == limited(whole_units(self.magnitude())),
    {
        let (m, e) = self.parts();
        if e >= 150 {
            self.integral(m, e)
        } else {
            let s = 150 - e;
            proof {
                lemma_units_of_part(m as nat, s as nat);
            }
            if s > 25 {
                proof {
                    lemma_small_part(m as nat, s as nat);
                    lemma_pow2_pos(s as nat);
                    lemma_fundamental_div_mod_converse(m as int, pow2(s as nat) as int, 0, m as int);
                }
                0
            } else {
                let whole = power(s);
                proof {
                    lemma_pow2_pos(s as nat);
                    lemma_quotient_small(m as nat, whole as nat);
                }
                m as u128 / whole
            }
        }
    }

    /// The absolute value where the finest digit is worth an integer.
    fn integral(self, m: u32, e: u32) -> (r: u128)
        requires
            self.magnitude() == (m as nat) * pow2((e - 1) as nat),
            FRACTION_SPAN <= m < 0x100_0000,
            150 <= e <= 255,
        ensures
            r as nat == limited(rounded_units(self.magnitude())),
            r as nat == limited(whole_units(self.magnitude())),
    {
        let k = e - 150;
        proof {
            lemma_units_of_multiple(m as nat, k as nat);
            lemma2_to64();
        }
        if k > 40 {
            proof {
                lemma_pow2_adds(23, k as nat);
                if k > 41 {
                    lemma_pow2_strictly_increases(64, (23 + k) as nat);
                }
                assert(m * pow2(k as nat) >= 0x80_0000 * pow2(k as nat)) by (nonlinear_arith)
                    requires
                        m >= 0x80_0000,
                        pow2(k as nat) >= 0,
                ;
            }
            UNIT_LIMIT
        } else {
            let p = power(k);
            proof {
                lemma_pow2_adds(8, 32);
                if k < 40 {
                    lemma_pow2_strictly_increases(k as nat, 40);
                }
                assert(p <= 0x100_0000_0000);
                assert(m * p <= 0x100_0000 * 0x100_0000_0000) by (nonlinear_arith)
                    requires
                        m <= 0x100_0000,
                        p <= 0x100_0000_0000,
                ;
            }
            let v = m as u128 * p;
            if v < UNIT_LIMIT {
                v
            } else {
                UNIT_LIMIT
            }
        }
    }

    /// The number rounded to the nearest index, as far as indices go; 0 where it
    /// is negative or no number.
    pub fn nearest_index(self) -> (r: usize)
        ensures
            r as nat == self.index_near(),
    {
        if self.is_nan() || self.0 >= SIGN_BIT {
            0
        } else {
            let n = self.nearest();
            if n <= usize::MAX as u128 {
                n as usize
            } else {
                usize::MAX
            }
        }
    }

    /// The nearest count, halves going up; the ends of the range stand for all
    /// beyond them.
    pub open spec fn index_near(self) -> nat {
        if self.nan() || self.negative() {
            0
        } else if rounded_units(self.magnitude()) <= usize::MAX {
            rounded_units(self.magnitude())
        } else {
            usize::MAX as nat
        }
    }

    /// The number rounded to the nearest integer, held to the range of `i32`;
    /// 0 where it is no number.
    pub fn nearest_int(self) -> (r: i32)
        ensures
            r as int == self.int_near(),
    {
        if self.is_nan() {
            0
        } else {
            let n = self.nearest();
            if self.0 >= SIGN_BIT {
                if n <= 0x7fff_ffff {
                    -(n as i32)
                } else {
                    i32::MIN
                }
            } else if n <= 0x7fff_ffff {
                n as i32
            } else {
                i32::MAX
            }
        }
    }

    /// The nearest integer, halves going away from zero; the ends of the range
    /// stand for all beyond them.
    pub open spec fn int_near(self) -> int {
        let n = rounded_units(self.magnitude()) as int;
        if self.nan() {
            0
        } else if self.negative() {
            if n <= i32::MAX {
                -n
            } else {
                i32::MIN as int
            }
        } else if n <= i32::MAX {
            n
        } else {
            i32::MAX as int
        }
    }

    /// The integer part held to the range of `usize`; 0 where the number is
    /// negative or no number.
    pub fn whole_index(self) -> (r: usize)
        ensures
            r as nat == self.index_part(),
    {
        if self.is_nan() || self.0 >= SIGN_BIT {
            0
        } else {
            let n = self.whole();
            if n <= usize::MAX as u128 {
                n as usize
            } else {
                usize::MAX
            }
        }
    }

    /// The integer part as a count; the ends of the range stand for all beyond
    /// them.
    pub open spec fn index_part(self) -> nat {
        if self.nan() || self.negative() {
            0
        } else if whole_units(self.magnitude()) <= usize::MAX {
            whole_units(self.magnitude())
        } else {
            usize::MAX as nat
        }
    }

    /// The integer part held to the range of a byte; 0 where the number is
    /// negative or no number.
    pub fn whole_byte(self) -> (r: u8)
        ensures
            r as nat == self.byte_part(),
    {
        if self.is_nan() || self.0 >= SIGN_BIT {
            0
        } else {
            let n = self.whole();
            if n <= 255 {
                n as u8
            } else {
                255
            }
        }
    }

    /// The integer part as a byte; the ends of the range stand for all beyond
    /// them.
    pub open spec fn byte_part(self) -> nat {
        if self.nan() || self.negative() {
            0
        } else if whole_units(self.magnitude()) <= 255 {
            whole_units(self.magnitude())
        } else {
            255
        }
    }
}

proof fn lemma_quotient_small(x: nat, d: nat)
    requires
        d > 0,
    ensures
        x / d <= x,
{
    lemma_fundamental_div_mod(x as int, d as int);
    assert(x / d <= x) by (nonlinear_arith)
        requires
            x == d * (x / d) + x % d,
            d >= 1,
            x % d >= 0,
            x / d >= 0,
    ;
}

} // verus!
