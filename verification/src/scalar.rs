//! Binary floating point numbers held by their bit patterns.
//!
//! The library compares and carries coordinates but never computes with them.
//! A [`Real`] is the bit pattern of an IEEE 754 binary64 number. Its order is
//! that of its *rank*, the sign-magnitude integer that the pattern spells: for
//! numbers that are not NaN, one is smaller than another exactly where its rank
//! is smaller, and both zeros have rank 0.
use vstd::arithmetic::power2::{lemma2_to64, lemma_pow2_adds, lemma_pow2_pos, lemma_pow2_unfold, pow2};
use vstd::prelude::*;

verus! {

/// The bit pattern of a binary64 number.
#[derive(Debug, Clone, Copy, PartialEq, Eq, Structural)]
pub struct Real {
    pub bits: u64,
}

/// The bit pattern of a binary32 number.
#[derive(Debug, Clone, Copy, PartialEq, Eq, Structural)]
pub struct Single {
    pub bits: u32,
}

/// Rank of positive infinity; a larger magnitude is a NaN.
pub open spec fn infinite_rank() -> int {
    0x7FF0_0000_0000_0000
}

impl Real {
    /// The sign-magnitude integer spelled by the bit pattern.
    pub open spec fn rank(self) -> int {
        if self.bits < 0x8000_0000_0000_0000 {
            self.bits as int
        } else {
            0x8000_0000_0000_0000 - self.bits as int
        }
    }

    /// The pattern stands for no number.
    pub open spec fn nan(self) -> bool {
        self.rank() > infinite_rank() || self.rank() < -infinite_rank()
    }

    /// `self < other` as numbers.
    pub open spec fn below(self, other: Real) -> bool {
        !self.nan() && !other.nan() && self.rank() < other.rank()
    }

    /// `self <= other` as numbers.
    pub open spec fn at_most(self, other: Real) -> bool {
        !self.nan() && !other.nan() && self.rank() <= other.rank()
    }

    /// `self == other` as numbers: both zeros are one number, a NaN equals nothing.
    pub open spec fn equals(self, other: Real) -> bool {
        !self.nan() && !other.nan() && self.rank() == other.rank()
    }

    /// The smaller of the two numbers; a NaN gives way to the other operand.
    pub open spec fn smaller(self, other: Real) -> Real {
        if self.nan() {
            other
        } else if other.nan() || self.rank() <= other.rank() {
            self
        } else {
            other
        }
    }

    /// The larger of the two numbers; a NaN gives way to the other operand.
    pub open spec fn larger(self, other: Real) -> Real {
        if self.nan() {
            other
        } else if other.nan() || self.rank() >= other.rank() {
            self
        } else {
            other
        }
    }

    /// The number with this bit pattern.
    pub fn from_bits(bits: u64) -> (r: Real)
        ensures
            r == (Real { bits }),
    {
        Real { bits }
    }

    /// Positive infinity.
    pub fn infinity() -> (r: Real)
        ensures
            r.rank() == infinite_rank(),
            !r.nan(),
    {
        Real { bits: 0x7FF0_0000_0000_0000 }
    }

    /// Negative infinity.
    pub fn neg_infinity() -> (r: Real)
        ensures
            r.rank() == -infinite_rank(),
            !r.nan(),
    {
        Real { bits: 0xFFF0_0000_0000_0000 }
    }

    /// Positive zero.
    pub fn zero() -> (r: Real)
        ensures
            r == (Real { bits: 0 }),
            r.rank() == 0,
    {
        Real { bits: 0 }
    }

    pub(crate) fn rank_value(self) -> (r: i64)
        ensures
            r == self.rank(),
    {
        if self.bits < 0x8000_0000_0000_0000 {
            self.bits as i64
        } else {
            -((self.bits - 0x8000_0000_0000_0000) as i64)
        }
    }

    /// Whether the pattern stands for no number.
    pub fn is_nan(self) -> (r: bool)
        ensures
            r == self.nan(),
    {
        let k: i64 = self.rank_value();
        k > 0x7FF0_0000_0000_0000 || k < -0x7FF0_0000_0000_0000
    }

    /// `self < other`.
    pub fn lt(self, other: Real) -> (r: bool)
        ensures
            r == self.below(other),
    {
        !self.is_nan() && !other.is_nan() && self.rank_value() < other.rank_value()
    }

    /// `self <= other`.
    pub fn le(self, other: Real) -> (r: bool)
        ensures
            r == self.at_most(other),
    {
        !self.is_nan() && !other.is_nan() && self.rank_value() <= other.rank_value()
    }

    /// `self == other`, as numbers.
    pub fn same(self, other: Real) -> (r: bool)
        ensures
            r == self.equals(other),
    {
        !self.is_nan() && !other.is_nan() && self.rank_value() == other.rank_value()
    }

    /// The smaller of the two numbers.
    pub fn min(self, other: Real) -> (r: Real)
        ensures
            r == self.smaller(other),
    {
        if self.is_nan() {
            other
        } else if other.is_nan() || self.rank_value() <= other.rank_value() {
            self
        } else {
            other
        }
    }

    /// The larger of the two numbers.
    pub fn max(self, other: Real) -> (r: Real)
        ensures
            r == self.larger(other),
    {
        if self.is_nan() {
            other
        } else if other.is_nan() || self.rank_value() >= other.rank_value() {
            self
        } else {
            other
        }
    }
}

// ── From binary32 to binary64 ────────────────────────────────────────────────

/// How often a fraction below 2^23 is doubled until it has 24 bits.
pub open spec fn shift_of(m: int) -> nat
    decreases 0x100_0000 - m,
{
    if m <= 0 || m >= 0x80_0000 {
        0
    } else {
        1 + shift_of(2 * m)
    }
}

impl Single {
    /// The sign bit.
    pub open spec fn sign(self) -> int {
        if self.bits < 0x8000_0000 {
            0
        } else {
            1
        }
    }

    /// The biased exponent.
    pub open spec fn exponent(self) -> int {
        (self.bits as int / 0x80_0000) % 0x100
    }

    /// The fraction.
    pub open spec fn fraction(self) -> int {
        self.bits as int % 0x80_0000
    }

    /// The magnitude of a finite number in steps of the least positive one,
    /// 2^-149.
    pub open spec fn steps(self) -> int {
        if self.exponent() == 0 {
            self.fraction()
        } else {
            (0x80_0000 + self.fraction()) * pow2((self.exponent() - 1) as nat)
        }
    }

    /// Sign, biased exponent and fraction of the same number in binary64. A
    /// number too small for a leading bit gets one, and a NaN becomes quiet.
    pub open spec fn widened_parts(self) -> (int, int, int) {
        let e = self.exponent();
        let m = self.fraction();
        if e == 0xFF {
            let quiet = if 0 < m < 0x40_0000 { m + 0x40_0000 } else { m };
            (self.sign(), 0x7FF, quiet * 0x2000_0000)
        } else if e > 0 {
            (self.sign(), e + 896, m * 0x2000_0000)
        } else if m == 0 {
            (self.sign(), 0, 0)
        } else {
            (
                self.sign(),
                897 - shift_of(m),
                (m * pow2(shift_of(m)) - 0x80_0000) * 0x2000_0000,
            )
        }
    }

    /// The same number in binary64.
    #[verifier::opaque]
    pub open spec fn widened(self) -> Real {
        let (s, e, m) = self.widened_parts();
        Real { bits: (s * 0x8000_0000_0000_0000 + e * 0x10_0000_0000_0000 + m) as u64 }
    }

    /// The same number in binary64.
    pub fn widen(self) -> (r: Real)
        ensures
            r == self.widened(),
    {
        proof {
            reveal(Single::widened);
        }
        let negative: bool = self.bits >= 0x8000_0000;
        let e: u64 = ((self.bits / 0x80_0000) % 0x100) as u64;
        let m: u64 = (self.bits % 0x80_0000) as u64;
        let s: u64 = if negative { 0x8000_0000_0000_0000 } else { 0 };
        if e == 0xFF {
            let quiet: u64 = if 0 < m && m < 0x40_0000 { m + 0x40_0000 } else { m };
            return Real { bits: s + 0x7FF * 0x10_0000_0000_0000 + quiet * 0x2000_0000 };
        }
        if e > 0 {
            return Real { bits: s + (e + 896) * 0x10_0000_0000_0000 + m * 0x2000_0000 };
        }
        if m == 0 {
            return Real { bits: s };
        }
        let mut f: u64 = m;
        let mut k: u64 = 0;
        proof {
            lemma2_to64();
        }
        while f < 0x80_0000
            invariant
                0 < m < 0x80_0000,
                m <= f < 0x100_0000,
                k <= f,
                k + shift_of(f as int) == shift_of(m as int),
                f == m * pow2(k as nat),
            decreases 0x100_0000 - f,
        {
            proof {
                lemma_pow2_unfold((k + 1) as nat);
                assert(2 * (m * pow2(k as nat)) == m * (2 * pow2(k as nat))) by (nonlinear_arith);
            }
            f = 2 * f;
            k += 1;
        }
        proof {
            lemma_shift_bound(m as int);
        }
        Real { bits: s + (897 - k) * 0x10_0000_0000_0000 + (f - 0x80_0000) * 0x2000_0000 }
    }
}

proof fn lemma_shift_bound(m: int)
    requires
        0 < m < 0x80_0000,
    ensures
        1 <= shift_of(m) <= 23,
        0x80_0000 <= m * pow2(shift_of(m)) < 0x100_0000,
{
    lemma2_to64();
    assert(0x80_0000 <= m * pow2(23)) by (nonlinear_arith)
        requires
            m >= 1,
            pow2(23) == 0x80_0000,
    ;
    lemma_shift(m, 0x80_0000, 23);
}

proof fn lemma_shift(m: int, top: int, n: nat)
    requires
        0 < m < 0x100_0000,
        top == 0x80_0000,
        top <= m * pow2(n),
    ensures
        shift_of(m) <= n,
        m < top ==> shift_of(m) >= 1,
        m < top ==> top <= m * pow2(shift_of(m)) < 2 * top,
        m >= top ==> shift_of(m) == 0,
    decreases n,
{
    lemma2_to64();
    if m < top {
        assert(m * pow2(0) == m) by (nonlinear_arith)
            requires
                pow2(0) == 1,
        ;
        lemma_pow2_unfold(n);
        let k = (n - 1) as nat;
        assert((2 * m) * pow2(k) == m * (2 * pow2(k))) by (nonlinear_arith);
        lemma_shift(2 * m, top, k);
        let j = shift_of(2 * m);
        lemma_pow2_unfold((j + 1) as nat);
        assert((2 * m) * pow2(j) == m * (2 * pow2(j))) by (nonlinear_arith);
        assert((2 * m) * pow2(0) == 2 * m) by (nonlinear_arith)
            requires
                pow2(0) == 1,
        ;
    }
}

impl Real {
    /// The sign bit.
    pub open spec fn sign(self) -> int {
        if self.bits < 0x8000_0000_0000_0000 {
            0
        } else {
            1
        }
    }

    /// The biased exponent.
    pub open spec fn exponent(self) -> int {
        (self.bits as int / 0x10_0000_0000_0000) % 0x800
    }

    /// The fraction.
    pub open spec fn fraction(self) -> int {
        self.bits as int % 0x10_0000_0000_0000
    }

    /// The magnitude of a finite number in steps of the least positive one,
    /// 2^-1074.
    pub open spec fn steps(self) -> int {
        if self.exponent() == 0 {
            self.fraction()
        } else {
            (0x10_0000_0000_0000 + self.fraction()) * pow2((self.exponent() - 1) as nat)
        }
    }
}

proof fn lemma_parts(s: int, e: int, m: int)
    requires
        0 <= s <= 1,
        0 <= e < 0x800,
        0 <= m < 0x10_0000_0000_0000,
    ensures
        ({
            let r = Real { bits: (s * 0x8000_0000_0000_0000 + e * 0x10_0000_0000_0000 + m) as u64 };
            r.sign() == s && r.exponent() == e && r.fraction() == m
        }),
{
    let b = s * 0x8000_0000_0000_0000 + e * 0x10_0000_0000_0000 + m;
    assert(b == (s * 0x800 + e) * 0x10_0000_0000_0000 + m);
    vstd::arithmetic::div_mod::lemma_fundamental_div_mod_converse(b, 0x10_0000_0000_0000, s * 0x800 + e, m);
    vstd::arithmetic::div_mod::lemma_fundamental_div_mod_converse(s * 0x800 + e, 0x800, s, e);
}

/// Widening is exact: a finite number keeps its sign and value, an infinity
/// stays one, and so does a NaN.
pub proof fn widening_keeps_the_number(v: Single)
    ensures
        v.widened().sign() == v.sign(),
        v.exponent() < 0xFF ==> v.widened().exponent() < 0x7FF && v.widened().steps() == v.steps() * pow2(925),
        v.exponent() == 0xFF && v.fraction() == 0 ==> !v.widened().nan() && (v.widened().rank()
            == infinite_rank() || v.widened().rank() == -infinite_rank()),
        v.exponent() == 0xFF && v.fraction() != 0 ==> v.widened().nan(),
{
    reveal(Single::widened);
    lemma2_to64();
    let (s, e, m) = v.widened_parts();
    let f = v.fraction();
    if v.exponent() == 0 && f > 0 {
        lemma_shift_bound(f);
        let k = shift_of(f);
        lemma_parts(s, e, m);
        let lead = f * pow2(k);
        assert(0x10_0000_0000_0000 + m == lead * 0x2000_0000);
        lemma_pow2_adds(k, (896 - k) as nat);
        lemma_pow2_adds(29, 896);
        assert((f * pow2(k) * 0x2000_0000) * pow2((896 - k) as nat) == f * (0x2000_0000 * (pow2(k) * pow2(
            (896 - k) as nat,
        )))) by (nonlinear_arith);
    } else if v.exponent() == 0 {
        lemma_parts(s, 0, 0);
        assert(0 * pow2(925) == 0) by (nonlinear_arith);
    } else if v.exponent() < 0xFF {
        lemma_parts(s, e, m);
        let x = (v.exponent() - 1) as nat;
        assert(0x10_0000_0000_0000 + m == (0x80_0000 + f) * 0x2000_0000);
        lemma_pow2_adds(29, 896);
        lemma_pow2_adds(896, x);
        lemma_pow2_adds(925, x);
        assert(pow2((e - 1) as nat) == pow2(896) * pow2(x));
        assert(((0x80_0000 + f) * 0x2000_0000) * (pow2(896) * pow2(x)) == ((0x80_0000 + f) * pow2(x)) * (0x2000_0000
            * pow2(896))) by (nonlinear_arith);
    } else {
        lemma_parts(s, e, m);
    }
}

/// A place on the earth, in degrees.
#[derive(Debug, Clone, Copy, PartialEq, Eq, Structural)]
pub struct Position {
    pub lon: Real,
    pub lat: Real,
}

impl Position {
    /// Both coordinates are equal as numbers.
    pub open spec fn coincides(self, other: Position) -> bool {
        self.lon.equals(other.lon) && self.lat.equals(other.lat)
    }

    /// Whether both coordinates are equal as numbers.
    pub fn same(self, other: Position) -> (r: bool)
        ensures
            r == self.coincides(other),
    {
        self.lon.same(other.lon) && self.lat.same(other.lat)
    }
}

proof fn lemma_magnitude(v: Real)
    requires
        v.exponent() < 0x7FF,
    ensures
        v.sign() == 0 ==> v.rank() == v.exponent() * 0x10_0000_0000_0000 + v.fraction(),
        v.sign() == 1 ==> -v.rank() == v.exponent() * 0x10_0000_0000_0000 + v.fraction(),
        0 <= v.fraction() < 0x10_0000_0000_0000,
        0 <= v.exponent(),
        !v.nan(),
{
    let b = v.bits as int;
    vstd::arithmetic::div_mod::lemma_fundamental_div_mod(b, 0x10_0000_0000_0000);
    vstd::arithmetic::div_mod::lemma_fundamental_div_mod(b / 0x10_0000_0000_0000, 0x800);
}

proof fn lemma_steps_grow(a: Real, b: Real)
    requires
        a.exponent() < 0x7FF,
        b.exponent() < 0x7FF,
        a.exponent() * 0x10_0000_0000_0000 + a.fraction() < b.exponent() * 0x10_0000_0000_0000 + b.fraction(),
    ensures
        0 <= a.steps() < b.steps(),
{
    lemma_magnitude(a);
    lemma_magnitude(b);
    let unit = 0x10_0000_0000_0000int;
    if a.exponent() == b.exponent() {
        let x = (a.exponent() - 1) as nat;
        lemma_pow2_pos(x);
        let p = pow2(x) as int;
        assert(0 <= (unit + a.fraction()) * p < (unit + b.fraction()) * p) by (nonlinear_arith)
            requires
                0 < p,
                0 <= a.fraction() < b.fraction(),
                unit == 0x10_0000_0000_0000,
        ;
    } else {
        assert(a.exponent() < b.exponent());
        let y = (b.exponent() - 1) as nat;
        lemma_pow2_pos(y);
        let q = pow2(y) as int;
        assert((unit + b.fraction()) * q >= unit * q) by (nonlinear_arith)
            requires
                0 < q,
                0 <= b.fraction(),
        ;
        if a.exponent() == 0 {
            assert(unit * q >= unit) by (nonlinear_arith)
                requires
                    0 < q,
                    unit > 0,
            ;
        } else {
            let x = (a.exponent() - 1) as nat;
            lemma_pow2_pos(x);
            let p = pow2(x) as int;
            lemma_pow2_adds((x + 1) as nat, (y - x - 1) as nat);
            lemma_pow2_pos((y - x - 1) as nat);
            lemma_pow2_unfold((x + 1) as nat);
            let more = pow2((y - x - 1) as nat) as int;
            assert(q >= 2 * p) by (nonlinear_arith)
                requires
                    q == (2 * p) * more,
                    more >= 1,
                    p > 0,
            ;
            assert(0 <= (unit + a.fraction()) * p < unit * q) by (nonlinear_arith)
                requires
                    0 < p,
                    q >= 2 * p,
                    0 <= a.fraction() < unit,
            ;
        }
    }
}

/// Numbers are compared by their values: of two positive finite numbers the one
/// with fewer steps is below the other, of two negative ones the one with more, and
/// a negative number is below a positive one.
pub proof fn order_is_that_of_the_values(a: Real, b: Real)
    requires
        a.exponent() < 0x7FF,
        b.exponent() < 0x7FF,
    ensures
        a.sign() == 0 && b.sign() == 0 ==> (a.below(b) <==> a.steps() < b.steps()),
        a.sign() == 1 && b.sign() == 1 ==> (a.below(b) <==> a.steps() > b.steps()),
        a.sign() == 1 && b.sign() == 0 ==> (a.below(b) <==> a.steps() > 0 || b.steps() > 0),
        a.sign() == 0 && b.sign() == 1 ==> !a.below(b),
        a.at_most(b) <==> !b.below(a),
        a.equals(b) <==> a.at_most(b) && b.at_most(a),
{
    lemma_magnitude(a);
    lemma_magnitude(b);
    let x = a.exponent() * 0x10_0000_0000_0000 + a.fraction();
    let y = b.exponent() * 0x10_0000_0000_0000 + b.fraction();
    if x < y {
        lemma_steps_grow(a, b);
    } else if y < x {
        lemma_steps_grow(b, a);
    } else {
        assert(a.exponent() == b.exponent() && a.fraction() == b.fraction());
    }
    let zero = Real { bits: 0 };
    assert(zero.exponent() == 0 && zero.fraction() == 0 && zero.steps() == 0) by {
        lemma_magnitude(zero);
    }
    if x > 0 {
        lemma_steps_grow(zero, a);
    }
    if y > 0 {
        lemma_steps_grow(zero, b);
    }
}

/// The smaller of two numbers is one of them and not above the other, the larger one
/// is one of them and not below the other; with one NaN both are the other operand.
pub proof fn the_smaller_and_the_larger(a: Real, b: Real)
    ensures
        a.smaller(b) == a || a.smaller(b) == b,
        a.larger(b) == a || a.larger(b) == b,
        !a.nan() && !b.nan() ==> a.smaller(b).at_most(a) && a.smaller(b).at_most(b) && a.at_most(a.larger(b))
            && b.at_most(a.larger(b)),
        a.nan() && !b.nan() ==> a.smaller(b) == b && a.larger(b) == b,
        !a.nan() && b.nan() ==> a.smaller(b) == a && a.larger(b) == a,
{
}

} // verus!
