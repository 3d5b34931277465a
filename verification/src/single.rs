//! Single-precision numbers by bit pattern.
//!
//! A [`Single`] is an IEEE 754 binary32 number held as its 32 bits. The basic
//! operations are computed on integers, and each result is proved to be the
//! correctly rounded one (to nearest, ties to even), so that every quantity
//! derived from samples, decibels and frequencies has one exact meaning.
use vstd::arithmetic::div_mod::*;
use vstd::arithmetic::mul::*;
use vstd::arithmetic::power2::*;
use vstd::prelude::*;

use crate::rounding;
use crate::rounding::{power, round, BINADE, INFINITE};

verus! {

/// A binary32 number. Two values are equal as `Single`s when their bits are;
/// numeric comparison is [`Single::lt`] and [`Single::le`].
#[derive(Clone, Copy, Debug, PartialEq, Eq, Structural)]
pub struct Single {
    pub bits: u32,
}

/// The sign bit.
pub const SIGN: u32 = 0x8000_0000;

/// The canonical quiet NaN.
pub const QUIET: u32 = 0x7fc0_0000;

/// The bits of 1.
pub const ONE: u32 = 0x3f80_0000;

/// The bits of 2.
pub const TWO: u32 = 0x4000_0000;

/// The bits of one half.
pub const HALF: u32 = 0x3f00_0000;

impl Single {
    /// The sign bit is set.
    pub open spec fn negative(self) -> bool {
        self.bits >= SIGN
    }

    /// The bits without the sign.
    pub open spec fn magnitude(self) -> int {
        if self.negative() {
            self.bits - SIGN
        } else {
            self.bits as int
        }
    }

    pub open spec fn nan(self) -> bool {
        self.magnitude() > INFINITE
    }

    pub open spec fn infinite(self) -> bool {
        self.magnitude() == INFINITE
    }

    pub open spec fn finite(self) -> bool {
        self.magnitude() < INFINITE
    }

    /// The value of a finite number, in multiples of `2^-149`.
    pub open spec fn value(self) -> int {
        if self.negative() {
            -rounding::units(self.magnitude())
        } else {
            rounding::units(self.magnitude())
        }
    }

    /// Where the number stands in the numeric order; both zeros stand at 0.
    pub open spec fn rank(self) -> int {
        if self.negative() {
            -self.magnitude()
        } else {
            self.magnitude()
        }
    }
}

impl Single {
    /// The number with the given sign and magnitude bits.
    pub open spec fn signed(negative: bool, magnitude: int) -> Single {
        Single {
            bits: if negative {
                (magnitude + SIGN) as u32
            } else {
                magnitude as u32
            },
        }
    }

    pub open spec fn not_a_number() -> Single {
        Single { bits: QUIET }
    }

    /// `self + b`: the exact sum, rounded. A sum of zero is negative only for two
    /// negative zeros.
    pub open spec fn sum(self, b: Single) -> Single {
        if self.nan() || b.nan() {
            Single::not_a_number()
        } else if self.infinite() && b.infinite() && self.negative() != b.negative() {
            Single::not_a_number()
        } else if self.infinite() {
            self
        } else if b.infinite() {
            b
        } else if self.value() + b.value() == 0 {
            Single::signed(self.negative() && b.negative(), 0)
        } else if self.value() + b.value() < 0 {
            Single::signed(true, rounding::rounded(-(self.value() + b.value()), 1))
        } else {
            Single::signed(false, rounding::rounded(self.value() + b.value(), 1))
        }
    }

    /// `-self`.
    pub open spec fn opposite(self) -> Single {
        Single::signed(!self.negative(), self.magnitude())
    }

    /// `self - b`.
    pub open spec fn difference(self, b: Single) -> Single {
        self.sum(b.opposite())
    }

    /// `self * b`: the exact product, rounded.
    pub open spec fn product(self, b: Single) -> Single {
        let negative = self.negative() != b.negative();
        if self.nan() || b.nan() {
            Single::not_a_number()
        } else if self.infinite() && b.magnitude() == 0 || b.infinite() && self.magnitude() == 0 {
            Single::not_a_number()
        } else if self.infinite() || b.infinite() {
            Single::signed(negative, INFINITE as int)
        } else {
            let exact = rounding::units(self.magnitude()) * rounding::units(b.magnitude());
            Single::signed(negative, rounding::rounded(exact, pow2(149) as int))
        }
    }

    /// `self / b`: the exact quotient, rounded.
    pub open spec fn quotient(self, b: Single) -> Single {
        let negative = self.negative() != b.negative();
        if self.nan() || b.nan() {
            Single::not_a_number()
        } else if self.infinite() && b.infinite() || self.magnitude() == 0 && b.magnitude() == 0 {
            Single::not_a_number()
        } else if self.infinite() || b.magnitude() == 0 {
            Single::signed(negative, INFINITE as int)
        } else if b.infinite() {
            Single::signed(negative, 0)
        } else {
            Single::signed(
                negative,
                rounding::rounded(
                    rounding::units(self.magnitude()) * pow2(149),
                    rounding::units(b.magnitude()),
                ),
            )
        }
    }

    /// The integer `n`, rounded.
    pub open spec fn of_integer(n: int) -> Single {
        Single::signed(false, rounding::rounded(n * pow2(149), 1))
    }

    /// `self < b`; false when either is NaN.
    pub open spec fn less(self, b: Single) -> bool {
        !self.nan() && !b.nan() && self.rank() < b.rank()
    }

    /// `self <= b`; false when either is NaN.
    pub open spec fn at_most(self, b: Single) -> bool {
        !self.nan() && !b.nan() && self.rank() <= b.rank()
    }

    /// `low` below `low`, `high` above `high`, and the number itself between (NaN stays).
    pub open spec fn clamped(self, low: Single, high: Single) -> Single {
        if self.less(low) {
            low
        } else if high.less(self) {
            high
        } else {
            self
        }
    }

    /// The lesser of two numbers, or the other one when one is NaN.
    pub open spec fn lesser(self, b: Single) -> Single {
        if self.nan() || b.less(self) {
            b
        } else {
            self
        }
    }

    /// The whole part, held to the range `0..=max`; NaN gives 0.
    pub open spec fn whole_part(self, max: int) -> int {
        if self.nan() || self.negative() {
            0
        } else if self.infinite() || rounding::units(self.magnitude()) / (pow2(149) as int) > max {
            max
        } else {
            rounding::units(self.magnitude()) / (pow2(149) as int)
        }
    }
}

impl Single {
    /// Splits a finite magnitude into its significand and its exponent.
    fn split(self) -> (parts: (u32, u32))
        requires
            self.finite(),
        ensures
            rounding::units(self.magnitude()) == parts.0 * pow2(parts.1 as nat),
            parts.0 < 2 * BINADE,
            parts.1 <= 253,
            parts.1 > 0 ==> parts.0 >= BINADE,
            parts.0 == 0 <==> self.magnitude() == 0,
    {
        let m: u32 = if self.bits >= SIGN {
            self.bits - SIGN
        } else {
            self.bits
        };
        if m < BINADE {
            proof {
                rounding::lemma_units(0, m as int);
            }
            (m, 0)
        } else {
            let e: u32 = m / BINADE - 1;
            let s: u32 = BINADE + m % BINADE;
            proof {
                rounding::lemma_units(e as nat, s as int);
                assert(m == e * BINADE + s);
            }
            (s, e)
        }
    }

    fn of_parts(negative: bool, m: u32) -> (r: Single)
        requires
            m <= INFINITE,
        ensures
            r == Single::signed(negative, m as int),
    {
        Single {
            bits: if negative {
                m + SIGN
            } else {
                m
            },
        }
    }

    fn is_negative(self) -> (r: bool)
        ensures
            r == self.negative(),
    {
        self.bits >= SIGN
    }

    fn magnitude_bits(self) -> (m: u32)
        ensures
            m == self.magnitude(),
    {
        if self.bits >= SIGN {
            self.bits - SIGN
        } else {
            self.bits
        }
    }

    pub fn is_nan(self) -> (r: bool)
        ensures
            r == self.nan(),
    {
        self.magnitude_bits() > INFINITE
    }

    /// `self < other`.
    pub fn lt(self, other: Single) -> (r: bool)
        ensures
            r == self.less(other),
    {
        let a: i64 = self.signed_bits();
        let b: i64 = other.signed_bits();
        !self.is_nan() && !other.is_nan() && a < b
    }

    /// `self <= other`.
    pub fn le(self, other: Single) -> (r: bool)
        ensures
            r == self.at_most(other),
    {
        let a: i64 = self.signed_bits();
        let b: i64 = other.signed_bits();
        !self.is_nan() && !other.is_nan() && a <= b
    }

    fn signed_bits(self) -> (r: i64)
        ensures
            r == self.rank(),
    {
        let m: u32 = self.magnitude_bits();
        if self.is_negative() {
            -(m as i64)
        } else {
            m as i64
        }
    }

    /// `self` held between `low` and `high`.
    pub fn clamp(self, low: Single, high: Single) -> (r: Single)
        requires
            low.at_most(high),
        ensures
            r == self.clamped(low, high),
    {
        if self.lt(low) {
            low
        } else if high.lt(self) {
            high
        } else {
            self
        }
    }

    /// The lesser of the two.
    pub fn min(self, other: Single) -> (r: Single)
        ensures
            r == self.lesser(other),
    {
        if self.is_nan() || other.lt(self) {
            other
        } else {
            self
        }
    }

    /// The nearest number to an integer.
    pub fn from_u64(n: u64) -> (r: Single)
        ensures
            r == Single::of_integer(n as int),
    {
        let ghost num = n * pow2(149);
        proof {
            lemma_pow2_pos(149);
            assert(n * (pow2(149) * 1) == num * 1) by (nonlinear_arith)
                requires
                    num == n * pow2(149),
            ;
            assert((n + 1) * (pow2(149) * 1) > num * 1) by (nonlinear_arith)
                requires
                    num == n * pow2(149),
                    pow2(149) > 0,
            ;
            assert(num >= 0) by (nonlinear_arith)
                requires
                    num == n * pow2(149),
            ;
        }
        let m = round(n as u128, 149, false, Ghost(num as int), Ghost(1int));
        proof {
            rounding::lemma_rounded(num as int, 1);
        }
        Single::of_parts(false, m)
    }

    /// `-self`.
    pub fn negated(self) -> (r: Single)
        ensures
            r == self.opposite(),
    {
        if self.bits >= SIGN {
            Single { bits: self.bits - SIGN }
        } else {
            Single { bits: self.bits + SIGN }
        }
    }

    /// `self * other`.
    pub fn times(self, other: Single) -> (r: Single)
        ensures
            r == self.product(other),
    {
        let negative = self.is_negative() != other.is_negative();
        let ma = self.magnitude_bits();
        let mb = other.magnitude_bits();
        if ma > INFINITE || mb > INFINITE {
            return Single { bits: QUIET };
        }
        if ma == INFINITE && mb == 0 || mb == INFINITE && ma == 0 {
            return Single { bits: QUIET };
        }
        if ma == INFINITE || mb == INFINITE {
            return Single::of_parts(negative, INFINITE);
        }
        let (sa, ea) = self.split();
        let (sb, eb) = other.split();
        proof {
            assert(sa * sb < 0x1_0000_0000_0000) by (nonlinear_arith)
                requires
                    0 <= sa < 0x100_0000,
                    0 <= sb < 0x100_0000,
            ;
        }
        let q: u128 = sa as u128 * sb as u128;
        let k: i32 = ea as i32 + eb as i32 - 149;
        let ghost num = rounding::units(self.magnitude()) * rounding::units(other.magnitude());
        let ghost den = pow2(149) as int;
        proof {
            lemma_product_brackets(sa as int, ea as nat, sb as int, eb as nat);
        }
        let m = round(q, k, false, Ghost(num), Ghost(den));
        proof {
            rounding::lemma_rounded(num, den);
        }
        Single::of_parts(negative, m)
    }

    /// `self / other`.
    pub fn over(self, other: Single) -> (r: Single)
        ensures
            r == self.quotient(other),
    {
        let negative = self.is_negative() != other.is_negative();
        let ma = self.magnitude_bits();
        let mb = other.magnitude_bits();
        if ma > INFINITE || mb > INFINITE {
            return Single { bits: QUIET };
        }
        if ma == INFINITE && mb == INFINITE || ma == 0 && mb == 0 {
            return Single { bits: QUIET };
        }
        if ma == INFINITE || mb == 0 {
            return Single::of_parts(negative, INFINITE);
        }
        if mb == INFINITE {
            return Single::of_parts(negative, 0);
        }
        let (sa, ea) = self.split();
        let (sb, eb) = other.split();
        let wide: u128 = sa as u128 * 0x4_0000_0000_0000;
        let q: u128 = wide / sb as u128;
        let sticky = wide % sb as u128 != 0;
        let k: i32 = ea as i32 - eb as i32 + 99;
        let ghost num = rounding::units(self.magnitude()) * pow2(149);
        let ghost den = rounding::units(other.magnitude());
        proof {
            lemma_quotient_brackets(sa as int, ea as nat, sb as int, eb as nat);
            assert(q <= wide && (sa > 0 ==> q >= 0x200_0000)) by (nonlinear_arith)
                requires
                    q == wide / (sb as u128),
                    wide == sa * 0x4_0000_0000_0000,
                    0 < sb < 0x100_0000,
            ;
            if sa == 0 {
                assert(wide % sb as u128 == 0) by (nonlinear_arith)
                    requires
                        wide == 0,
                        sb > 0,
                ;
            }
        }
        let m = round(q, k, sticky, Ghost(num), Ghost(den));
        proof {
            rounding::lemma_rounded(num, den);
        }
        Single::of_parts(negative, m)
    }

    /// `self + other`.
    pub fn plus(self, other: Single) -> (r: Single)
        ensures
            r == self.sum(other),
    {
        let ma = self.magnitude_bits();
        let mb = other.magnitude_bits();
        if ma > INFINITE || mb > INFINITE || ma == INFINITE && mb == INFINITE && self.is_negative()
            != other.is_negative() {
            return Single { bits: QUIET };
        }
        if ma == INFINITE {
            return self;
        }
        if mb == INFINITE {
            return other;
        }
        let (sa, ea) = self.split();
        let (sb, eb) = other.split();
        if ea >= eb {
            Single::plus_split(self.is_negative(), sa, ea, other.is_negative(), sb, eb)
        } else {
            Single::plus_split(other.is_negative(), sb, eb, self.is_negative(), sa, ea)
        }
    }

    /// The sum of two finite numbers, the one with the greater exponent first.
    fn plus_split(na: bool, sa: u32, ea: u32, nb: bool, sb: u32, eb: u32) -> (r: Single)
        requires
            sa < 2 * BINADE,
            sb < 2 * BINADE,
            eb <= ea <= 253,
            ea > 0 ==> sa >= BINADE,
        ensures
            ({
                let a = sa * pow2(ea as nat);
                let b = sb * pow2(eb as nat);
                let v = (if na { -a } else { a }) + (if nb { -b } else { b });
                r == if v == 0 {
                    Single::signed(na && nb && a == 0, 0)
                } else if v < 0 {
                    Single::signed(true, rounding::rounded(-v, 1))
                } else {
                    Single::signed(false, rounding::rounded(v, 1))
                }
            }),
    {
        let ghost a = sa * pow2(ea as nat);
        let ghost b = sb * pow2(eb as nat);
        let ghost v = (if na { -a } else { a }) + (if nb { -b } else { b });
        let d: u32 = ea - eb;
        proof {
            lemma_pow2_pos(eb as nat);
            lemma_pow2_pos(ea as nat);
        }
        if d <= 64 {
            let p = power(d);
            proof {
                lemma2_to64();
                lemma2_to64_rest();
                if d < 64 {
                    lemma_pow2_strictly_increases(d as nat, 64);
                }
                assert(sa * p <= 0x100_0000 * 0x1_0000_0000_0000_0000) by (nonlinear_arith)
                    requires
                        0 <= sa <= 0x100_0000,
                        0 < p <= 0x1_0000_0000_0000_0000,
                ;
            }
            let hi: u128 = sa as u128 * p;
            let lo: u128 = sb as u128;
            let q: u128;
            let negative: bool;
            if na == nb {
                q = hi + lo;
                negative = na;
            } else if hi >= lo {
                q = hi - lo;
                negative = na;
            } else {
                q = lo - hi;
                negative = nb;
            }
            proof {
                lemma_aligned(sa as int, ea as nat, d as nat, sb as int, eb as nat);
                let w = pow2(eb as nat);
                assert(a == hi * w && b == lo * w);
                assert((hi + lo) * w == hi * w + lo * w && (hi - lo) * w == hi * w - lo * w
                    && (lo - hi) * w == lo * w - hi * w) by (nonlinear_arith);
                assert(v == if negative { -(q * w) } else { q * w });
                assert(q == 0 ==> q * w == 0);
                assert(q > 0 ==> q * w > 0) by (nonlinear_arith)
                    requires
                        w > 0,
                ;
                assert(hi == 0 <==> a == 0) by (nonlinear_arith)
                    requires
                        a == hi * w,
                        w > 0,
                ;
            }
            if q == 0 {
                return Single::of_parts(na && nb, 0);
            }
            let ghost num: int = if v < 0 { -v } else { v };
            proof {
                lemma_exact(q as int, eb as nat);
                rounding::lemma_rounded(num, 1);
            }
            let m = round(q, eb as i32, false, Ghost(num), Ghost(1int));
            Single::of_parts(negative, m)
        } else {
            let ghost num: int = if v < 0 { -v } else { v };
            let wide: u128 = sa as u128 * 0x4000_0000;
            let sticky = sb != 0;
            let q: u128 = if sticky && na != nb {
                wide - 1
            } else {
                wide
            };
            proof {
                lemma_far(sa as int, ea as nat, sb as int, eb as nat);
                rounding::lemma_rounded(num, 1);
            }
            let m = round(q, ea as i32 - 30, sticky, Ghost(num), Ghost(1int));
            Single::of_parts(na, m)
        }
    }

    /// `self - other`.
    pub fn minus(self, other: Single) -> (r: Single)
        ensures
            r == self.difference(other),
    {
        self.plus(other.negated())
    }

    /// The whole part, held to the range `0..=max`; NaN gives 0.
    pub fn whole(self, max: u32) -> (n: u32)
        ensures
            n == self.whole_part(max as int),
    {
        if self.is_nan() || self.is_negative() {
            return 0;
        }
        if self.magnitude_bits() == INFINITE {
            return max;
        }
        let (s, e) = self.split();
        if e >= 149 {
            let d: u32 = e - 149;
            proof {
                lemma_pow2_adds(d as nat, 149);
                lemma_pow2_pos(149);
                lemma_pow2_pos(d as nat);
                assert(s * pow2(e as nat) == (s * pow2(d as nat)) * pow2(149)) by (nonlinear_arith)
                    requires
                        pow2(e as nat) == pow2(d as nat) * pow2(149),
                ;
                lemma_div_multiples_vanish(s * pow2(d as nat), pow2(149) as int);
                lemma_mul_is_commutative(s * pow2(d as nat), pow2(149) as int);
            }
            if d > 8 {
                proof {
                    lemma2_to64();
                    lemma_pow2_strictly_increases(8, d as nat);
                    lemma_pow2_adds(8, 1);
                    if d > 9 {
                        lemma_pow2_strictly_increases(9, d as nat);
                    }
                    assert(s * pow2(d as nat) >= 0x1_0000_0000) by (nonlinear_arith)
                        requires
                            s >= 0x80_0000,
                            pow2(d as nat) >= 512,
                    ;
                }
                return max;
            }
            proof {
                lemma2_to64();
                if d < 8 {
                    lemma_pow2_strictly_increases(d as nat, 8);
                }
                assert(0 <= s * pow2(d as nat) < 0x1_0000_0000) by (nonlinear_arith)
                    requires
                        s < 0x100_0000,
                        0 < pow2(d as nat) <= 256,
                ;
            }
            let w: u128 = s as u128 * power(d);
            if w > max as u128 {
                max
            } else {
                w as u32
            }
        } else {
            let d: u32 = 149 - e;
            proof {
                lemma_pow2_adds(e as nat, d as nat);
                lemma_pow2_pos(e as nat);
                lemma_pow2_pos(d as nat);
                lemma_div_denominator(
                    s * pow2(e as nat),
                    pow2(e as nat) as int,
                    pow2(d as nat) as int,
                );
                lemma_div_multiples_vanish(s as int, pow2(e as nat) as int);
                lemma_mul_is_commutative(s as int, pow2(e as nat) as int);
            }
            if d >= 24 {
                proof {
                    lemma2_to64();
                    if d > 24 {
                        lemma_pow2_strictly_increases(24, d as nat);
                    }
                    lemma_basic_div(s as int, pow2(d as nat) as int);
                }
                return 0;
            }
            let w: u128 = s as u128 / power(d);
            proof {
                lemma_div_nonincreasing(s as int, pow2(d as nat) as int);
            }
            if w > max as u128 {
                max
            } else {
                w as u32
            }
        }
    }
}

/// The numeric order of finite numbers is the order of their values.
pub proof fn order_is_by_value(a: Single, b: Single)
    requires
        a.finite(),
        b.finite(),
    ensures
        a.less(b) <==> a.value() < b.value(),
        a.at_most(b) <==> a.value() <= b.value(),
{
    let (m, n) = (a.magnitude(), b.magnitude());
    if m < n {
        rounding::lemma_units_increase(m, n);
    } else if n < m {
        rounding::lemma_units_increase(n, m);
    }
    if m > 0 {
        rounding::lemma_units_increase(0, m);
    }
    if n > 0 {
        rounding::lemma_units_increase(0, n);
    }
}

proof fn lemma_aligned(sa: int, ea: nat, d: nat, sb: int, eb: nat)
    requires
        ea == eb + d,
    ensures
        sa * pow2(ea) == (sa * pow2(d)) * pow2(eb),
{
    lemma_pow2_adds(d, eb);
    assert(sa * (pow2(d) * pow2(eb)) == (sa * pow2(d)) * pow2(eb)) by (nonlinear_arith);
}

proof fn lemma_exact(q: int, e: nat)
    requires
        q >= 0,
    ensures
        rounding::brackets(q, e as int, false, q * pow2(e), 1),
        q * pow2(e) >= 0,
{
    lemma_pow2_pos(e);
    lemma2_to64();
    assert(rounding::scale_up(e as int) == pow2(e));
    assert((q + 1) * pow2(e) == q * pow2(e) + pow2(e) && q * pow2(e) >= 0) by (nonlinear_arith)
        requires
            q >= 0,
    ;
}

/// Far below the significand, the second operand only decides on which side of it the sum lies.
proof fn lemma_far(sa: int, ea: nat, sb: int, eb: nat)
    requires
        BINADE <= sa < 2 * BINADE,
        0 <= sb < 2 * BINADE,
        ea > eb + 64,
    ensures
        sa * pow2(ea) > sb * pow2(eb),
        sb * pow2(eb) >= 0,
        sb == 0 ==> sb * pow2(eb) == 0,
        rounding::brackets(
            sa * 0x4000_0000,
            ea - 30,
            sb != 0,
            sa * pow2(ea) + sb * pow2(eb),
            1,
        ),
        sb != 0 ==> rounding::brackets(
            sa * 0x4000_0000 - 1,
            ea - 30,
            true,
            sa * pow2(ea) - sb * pow2(eb),
            1,
        ),
{
    let k = (ea - 30) as nat;
    let w = pow2(k);
    let b = sb * pow2(eb);
    lemma2_to64();
    lemma_pow2_pos(eb);
    lemma_pow2_pos(k);
    lemma_pow2_adds(30, k);
    lemma_pow2_adds(24, eb);
    lemma_pow2_strictly_increases(24 + eb, k);
    assert(0 <= b < w) by (nonlinear_arith)
        requires
            b == sb * pow2(eb),
            0 <= sb < 0x100_0000,
            0x100_0000 * pow2(eb) < w,
            pow2(eb) > 0,
    ;
    assert(b > 0 <==> sb > 0) by (nonlinear_arith)
        requires
            b == sb * pow2(eb),
            pow2(eb) > 0,
    ;
    assert(sa * pow2(ea) == (sa * 0x4000_0000) * w) by (nonlinear_arith)
        requires
            pow2(ea) == 0x4000_0000 * w,
    ;
    let q = sa * 0x4000_0000;
    assert((q + 1) * w == q * w + w && (q - 1) * w == q * w - w) by (nonlinear_arith);
    assert(q * w > w) by (nonlinear_arith)
        requires
            q > 1,
            w > 0,
    ;
}

proof fn lemma_quotient_brackets(sa: int, ea: nat, sb: int, eb: nat)
    requires
        sa >= 0,
        sb > 0,
    ensures
        ({
            let wide = sa * 0x4_0000_0000_0000;
            rounding::brackets(
                wide / sb,
                ea - eb + 99,
                wide % sb != 0,
                (sa * pow2(ea)) * pow2(149),
                sb * pow2(eb),
            )
        }),
        (sa * pow2(ea)) * pow2(149) >= 0,
        sb * pow2(eb) > 0,
{
    let k = ea - eb + 99;
    let wide = sa * 0x4_0000_0000_0000;
    let q = wide / sb;
    let r = wide % sb;
    let num = (sa * pow2(ea)) * pow2(149);
    let den = sb * pow2(eb);
    let up = rounding::scale_up(k);
    let down = rounding::scale_down(k);
    let g = pow2(eb) * up;
    rounding::lemma_scales(k, 0, -k);
    lemma_pow2_pos(149);
    lemma_pow2_pos(eb);
    lemma2_to64_rest();
    lemma2_to64();
    lemma_pow2_adds(ea, 149);
    // Both sides are `2^(ea + 149)` or `2^(eb + 50)`, whichever is greater.
    assert(pow2(ea) * pow2(149) * down == g * pow2(50)) by {
        if k > 0 {
            lemma_pow2_adds(eb, k as nat);
            lemma_pow2_adds((eb + k) as nat, 50);
        } else if k < 0 {
            lemma_pow2_adds((ea + 149) as nat, (-k) as nat);
            lemma_pow2_adds(eb, 50);
        } else {
            lemma_pow2_adds(eb, 50);
        }
    }
    assert(wide == q * sb + r && 0 <= r < sb) by (nonlinear_arith)
        requires
            q == wide / sb,
            r == wide % sb,
            sb > 0,
    ;
    assert(g > 0) by (nonlinear_arith)
        requires
            g == pow2(eb) * up,
            pow2(eb) > 0,
            up > 0,
    ;
    assert(num * down == wide * g) by (nonlinear_arith)
        requires
            num == (sa * pow2(ea)) * pow2(149),
            pow2(ea) * pow2(149) * down == g * pow2(50),
            pow2(50) == 0x4_0000_0000_0000,
            wide == sa * 0x4_0000_0000_0000,
    ;
    assert(q * (up * den) == (q * sb) * g && (q + 1) * (up * den) == (q * sb + sb) * g)
        by (nonlinear_arith)
        requires
            den == sb * pow2(eb),
            g == pow2(eb) * up,
    ;
    assert((q * sb) * g <= wide * g && wide * g < (q * sb + sb) * g && ((q * sb) * g == wide * g
        <==> r == 0)) by (nonlinear_arith)
        requires
            wide == q * sb + r,
            0 <= r < sb,
            g > 0,
    ;
    assert(num >= 0) by (nonlinear_arith)
        requires
            num == (sa * pow2(ea)) * pow2(149),
            sa >= 0,
    ;
    assert(den > 0) by (nonlinear_arith)
        requires
            den == sb * pow2(eb),
            sb > 0,
            pow2(eb) > 0,
    ;
}

proof fn lemma_product_brackets(sa: int, ea: nat, sb: int, eb: nat)
    requires
        sa >= 0,
        sb >= 0,
    ensures
        rounding::brackets(
            sa * sb,
            ea + eb - 149,
            false,
            (sa * pow2(ea)) * (sb * pow2(eb)),
            pow2(149) as int,
        ),
        (sa * pow2(ea)) * (sb * pow2(eb)) >= 0,
        pow2(149) > 0,
{
    let k = ea + eb - 149;
    let q = sa * sb;
    let num = (sa * pow2(ea)) * (sb * pow2(eb));
    let den = pow2(149) as int;
    let up = rounding::scale_up(k);
    let down = rounding::scale_down(k);
    rounding::lemma_scales(k, 0, -k);
    lemma_pow2_pos(149);
    lemma_pow2_adds(ea, eb);
    if k > 0 {
        lemma_pow2_adds(k as nat, 149);
    } else if k < 0 {
        lemma_pow2_adds((ea + eb) as nat, (-k) as nat);
    }
    assert(up * den == pow2((ea + eb) as nat) * down);
    assert(num == q * pow2((ea + eb) as nat)) by (nonlinear_arith)
        requires
            q == sa * sb,
            num == (sa * pow2(ea)) * (sb * pow2(eb)),
            pow2((ea + eb) as nat) == pow2(ea) * pow2(eb),
    ;
    assert(q * (up * den) == num * down) by (nonlinear_arith)
        requires
            num == q * pow2((ea + eb) as nat),
            up * den == pow2((ea + eb) as nat) * down,
    ;
    assert((q + 1) * (up * den) > q * (up * den)) by (nonlinear_arith)
        requires
            up > 0,
            den > 0,
    ;
    assert(num >= 0) by (nonlinear_arith)
        requires
            num == q * pow2((ea + eb) as nat),
            q == sa * sb,
            sa >= 0,
            sb >= 0,
    ;
}

} // verus!
