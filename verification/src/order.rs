//! How single-precision arithmetic respects the numeric order.
//!
//! Each operation rounds its exact result, and rounding neither swaps two
//! numbers nor moves one that can be represented. From these two facts come the
//! ranges that the rest of the library promises.
use vstd::arithmetic::mul::*;
use vstd::arithmetic::power2::*;
use vstd::math::*;
use vstd::prelude::*;

use crate::rounding;
use crate::rounding::BINADE;
use crate::single;
use crate::single::{Single, HALF, ONE, TWO};

verus! {

/// Where a quotient of integers rounds to in the numeric order.
pub open spec fn rounded_rank(num: int, den: int) -> int {
    if num < 0 {
        -rounding::rounded(-num, den)
    } else {
        rounding::rounded(num, den)
    }
}

/// Rounding keeps the order, on both sides of zero.
pub proof fn lemma_rank_monotone(num: int, den: int, above: int, over: int)
    requires
        den > 0,
        over > 0,
        num * over <= above * den,
    ensures
        rounded_rank(num, den) <= rounded_rank(above, over),
{
    if num >= 0 {
        assert(above >= 0) by (nonlinear_arith)
            requires
                num >= 0,
                den > 0,
                over > 0,
                num * over <= above * den,
        ;
        rounding::lemma_rounded_monotone(num, den, above, over);
    } else if above < 0 {
        assert((-above) * den <= (-num) * over) by (nonlinear_arith)
            requires
                num * over <= above * den,
        ;
        rounding::lemma_rounded_monotone(-above, over, -num, den);
    } else {
        rounding::lemma_rounded(-num, den);
        rounding::lemma_rounded(above, over);
    }
}

proof fn lemma_zero(den: int)
    requires
        den > 0,
    ensures
        rounding::rounded(0, den) == 0,
{
    rounding::lemma_rounded_exact(0, den);
    assert(rounding::units(0) * den == 0) by (nonlinear_arith)
        requires
            rounding::units(0) == 0,
    ;
}

/// A finite sum stands where its exact value rounds to.
pub proof fn lemma_sum(a: Single, b: Single)
    requires
        a.finite(),
        b.finite(),
    ensures
        !a.sum(b).nan(),
        a.sum(b).rank() == rounded_rank(a.value() + b.value(), 1),
{
    let v = a.value() + b.value();
    lemma_zero(1);
    if v < 0 {
        rounding::lemma_rounded(-v, 1);
    } else {
        rounding::lemma_rounded(v, 1);
    }
}

/// A difference is a sum with the opposite, which has the opposite value.
pub proof fn lemma_opposite(a: Single)
    ensures
        a.opposite().magnitude() == a.magnitude(),
        a.opposite().negative() == !a.negative(),
        a.opposite().rank() == -a.rank(),
        a.opposite().value() == -a.value(),
{
}

/// A finite product stands where its exact value rounds to.
pub proof fn lemma_product(a: Single, b: Single)
    requires
        a.finite(),
        b.finite(),
    ensures
        !a.product(b).nan(),
        a.product(b).rank() == rounded_rank(a.value() * b.value(), pow2(149) as int),
{
    let x = rounding::units(a.magnitude());
    let y = rounding::units(b.magnitude());
    lemma_pow2_pos(149);
    rounding::lemma_rounded(x * y, pow2(149) as int);
    rounding::lemma_units_step(a.magnitude());
    rounding::lemma_units_step(b.magnitude());
    lemma_zero(pow2(149) as int);
    assert(x * y >= 0) by (nonlinear_arith)
        requires
            x >= 0,
            y >= 0,
    ;
    assert((-x) * y == -(x * y) && x * (-y) == -(x * y) && (-x) * (-y) == x * y)
        by (nonlinear_arith);
}

/// A finite quotient by a positive number stands where its exact value rounds to.
pub proof fn lemma_quotient(a: Single, b: Single)
    requires
        a.finite(),
        b.finite(),
        b.rank() > 0,
    ensures
        !a.quotient(b).nan(),
        a.quotient(b).rank() == rounded_rank(a.value() * pow2(149), b.value()),
        b.value() > 0,
{
    let x = rounding::units(a.magnitude());
    lemma_pow2_pos(149);
    rounding::lemma_units_step(a.magnitude());
    rounding::lemma_units_increase(0, b.magnitude());
    rounding::lemma_rounded(x * pow2(149), b.value());
    lemma_zero(b.value());
    assert(x * pow2(149) >= 0) by (nonlinear_arith)
        requires
            x >= 0,
    ;
    assert((-x) * pow2(149) == -(x * pow2(149))) by (nonlinear_arith);
    assert(x == 0 ==> x * pow2(149) == 0) by (nonlinear_arith);
    if a.magnitude() > 0 {
        rounding::lemma_units_increase(0, a.magnitude());
    }
}

/// A defined number divided by a positive finite one gives a defined one.
pub proof fn lemma_quotient_defined(a: Single, b: Single)
    requires
        !a.nan(),
        b.finite(),
        b.rank() > 0,
    ensures
        !a.quotient(b).nan(),
{
    if a.finite() {
        lemma_quotient(a, b);
    }
}

/// The difference of two different numbers is not zero: the lesser subtracted
/// from the greater is positive.
pub proof fn lemma_difference_positive(a: Single, b: Single)
    requires
        a.finite(),
        b.finite(),
        a.less(b),
    ensures
        !b.difference(a).nan(),
        b.difference(a).rank() > 0,
{
    let least = Single { bits: 1 };
    single::order_is_by_value(a, b);
    lemma_opposite(a);
    lemma_sum(b, a.opposite());
    lemma_rank_exact(least, 1);
    lemma_rank_monotone(least.value() * 1, 1, b.value() - a.value(), 1);
}

/// A value that can be represented is not moved by rounding.
pub proof fn lemma_rank_exact(r: Single, den: int)
    requires
        den > 0,
        r.finite(),
    ensures
        rounded_rank(r.value() * den, den) == r.rank(),
{
    let m = r.magnitude();
    let u = rounding::units(m);
    rounding::lemma_rounded_exact(m, den);
    rounding::lemma_units_step(m);
    assert((-u) * den == -(u * den)) by (nonlinear_arith);
    assert(u * den >= 0 && (u > 0 ==> u * den > 0)) by (nonlinear_arith)
        requires
            u >= 0,
            den > 0,
    ;
    if m > 0 {
        rounding::lemma_units_increase(0, m);
    }
}

/// A finite number that a quotient rounds to is off by at most half a unit, or by at
/// most the quotient's 2^24th part.
pub proof fn lemma_rank_error(r: Single, num: int, den: int)
    requires
        den > 0,
        r.finite(),
        r.rank() == rounded_rank(num, den),
    ensures
        2 * abs(r.value() * den - num) <= den || 0x100_0000 * abs(r.value() * den - num) <= abs(
            num,
        ),
{
    let size = abs(num) as int;
    rounding::lemma_rounded(size, den);
    rounding::lemma_error(size, den);
    let u = rounding::units(r.magnitude());
    assert((-u) * den == -(u * den)) by (nonlinear_arith);
}

/// `r` is the quotient `num / den` up to rounding: off by at most half a unit, or by at
/// most the 2^24th part. It is infinite only for quotients beyond `2^127`, and then on
/// their side of zero.
pub open spec fn near(r: Single, num: int, den: int) -> bool {
    &&& !r.nan()
    &&& r.finite() ==> {
        ||| 2 * abs(r.value() * den - num) <= den
        ||| 0x100_0000 * abs(r.value() * den - num) <= abs(num)
    }
    &&& r.infinite() ==> abs(num) >= pow2(276) * den && r.negative() == (num < 0)
}

/// What a quotient rounds to is near it.
pub proof fn lemma_near(r: Single, num: int, den: int)
    requires
        den > 0,
        !r.nan(),
        r.rank() == rounded_rank(num, den),
    ensures
        near(r, num, den),
{
    let size = abs(num) as int;
    let limit = Single { bits: 0x7f00_0000 };
    rounding::lemma_rounded(size, den);
    if r.finite() {
        lemma_rank_error(r, num, den);
    } else if size < pow2(276) * den {
        lemma2_to64();
        rounding::lemma_units(253, BINADE as int);
        lemma_pow2_adds(23, 253);
        rounding::lemma_rounded_exact(0x7f00_0000, den);
        assert(size * den <= (pow2(276) * den) * den) by (nonlinear_arith)
            requires
                size < pow2(276) * den,
                den > 0,
        ;
        rounding::lemma_rounded_monotone(size, den, pow2(276) * den, den);
    }
}

/// A common factor does not matter.
pub proof fn lemma_near_scaled(r: Single, num: int, small: int, den: int)
    requires
        near(r, num, den),
        num == small * den || num == den * small,
        den > 0,
    ensures
        near(r, small, 1),
{
    let d = r.value() - small;
    assert(num == small * den) by (nonlinear_arith)
        requires
            num == small * den || num == den * small,
    ;
    assert(r.value() * den - num == d * den) by (nonlinear_arith)
        requires
            num == small * den,
            d == r.value() - small,
    ;
    assert(r.finite() ==> 2 * d <= 1 && -2 * d <= 1 || 0x100_0000 * d <= abs(small) && -0x100_0000
        * d <= abs(small)) by {
        if r.finite() {
            let a = abs(small) as int;
            assert(abs(num) == a * den) by (nonlinear_arith)
                requires
                    num == small * den,
                    den > 0,
                    a == abs(small),
            ;
            assert(2 * d <= 1 && -2 * d <= 1 || 0x100_0000 * d <= a && -0x100_0000 * d <= a)
                by (nonlinear_arith)
                requires
                    2 * (d * den) <= den && -2 * (d * den) <= den || 0x100_0000 * (d * den) <= a
                        * den && -0x100_0000 * (d * den) <= a * den,
                    den > 0,
            ;
        }
    }
    if r.infinite() {
        assert(abs(small) >= pow2(276) && (num < 0 <==> small < 0)) by (nonlinear_arith)
            requires
                abs(num) >= pow2(276) * den,
                num == small * den,
                den > 0,
        ;
    }
}

/// A common factor of both terms does not matter.
pub proof fn lemma_near_reduced(r: Single, num: int, den: int, f: int, n: int, d: int)
    requires
        near(r, n, d),
        n == num * f,
        d == den * f,
        f > 0,
        den > 0,
    ensures
        near(r, num, den),
{
    let v = r.value();
    let e = v * den - num;
    let a = abs(num) as int;
    assert(v * d - n == e * f) by (nonlinear_arith)
        requires
            n == num * f,
            d == den * f,
            e == v * den - num,
    ;
    assert(abs(n) == a * f) by (nonlinear_arith)
        requires
            n == num * f,
            a == abs(num),
            f > 0,
    ;
    if r.finite() {
        assert(2 * e <= den && -2 * e <= den || 0x100_0000 * e <= a && -0x100_0000 * e <= a)
            by (nonlinear_arith)
            requires
                2 * (e * f) <= den * f && -2 * (e * f) <= den * f || 0x100_0000 * (e * f) <= a * f
                    && -0x100_0000 * (e * f) <= a * f,
                f > 0,
        ;
    }
    if r.infinite() {
        let p = pow2(276) as int;
        assert(a >= p * den && (n < 0 <==> num < 0)) by (nonlinear_arith)
            requires
                a * f >= p * d,
                d == den * f,
                n == num * f,
                f > 0,
        ;
    }
}

/// Sums, products and quotients of finite numbers are those of their values, up to
/// rounding.
pub proof fn operations_are_near(a: Single, b: Single)
    requires
        a.finite(),
        b.finite(),
    ensures
        near(a.sum(b), a.value() + b.value(), 1),
        near(a.difference(b), a.value() - b.value(), 1),
        near(a.product(b), a.value() * b.value(), pow2(149) as int),
        b.rank() > 0 ==> near(a.quotient(b), a.value() * pow2(149), b.value()),
{
    lemma_pow2_pos(149);
    lemma_sum(a, b);
    lemma_near(a.sum(b), a.value() + b.value(), 1);
    lemma_opposite(b);
    lemma_sum(a, b.opposite());
    lemma_near(a.difference(b), a.value() - b.value(), 1);
    lemma_product(a, b);
    lemma_near(a.product(b), a.value() * b.value(), pow2(149) as int);
    if b.rank() > 0 {
        lemma_quotient(a, b);
        lemma_near(a.quotient(b), a.value() * pow2(149), b.value());
    }
}

/// The arithmetic operators compute the sum, difference, product and quotient of the
/// values of finite numbers, up to rounding.
pub proof fn operators_follow_the_values(
    a: Single,
    b: Single,
    sum: Single,
    difference: Single,
    product: Single,
    quotient: Single,
)
    requires
        a.finite(),
        b.finite(),
        call_ensures(Single::plus, (a, b), sum),
        call_ensures(Single::minus, (a, b), difference),
        call_ensures(Single::times, (a, b), product),
        call_ensures(Single::over, (a, b), quotient),
    ensures
        near(sum, a.value() + b.value(), 1),
        near(difference, a.value() - b.value(), 1),
        near(product, a.value() * b.value(), pow2(149) as int),
        b.rank() > 0 ==> near(quotient, a.value() * pow2(149), b.value()),
{
    operations_are_near(a, b);
}

/// What the operators do with signs and with what is not finite: a quotient by a negative
/// number is that of the opposites, products and quotients take their sign from both, an
/// infinite number stays infinite beside a finite one, and what is undefined is NaN.
pub proof fn operators_respect_signs_and_infinities(
    a: Single,
    b: Single,
    sum: Single,
    difference: Single,
    product: Single,
    quotient: Single,
)
    requires
        call_ensures(Single::plus, (a, b), sum),
        call_ensures(Single::minus, (a, b), difference),
        call_ensures(Single::times, (a, b), product),
        call_ensures(Single::over, (a, b), quotient),
    ensures
        a.nan() || b.nan() ==> sum.nan() && difference.nan() && product.nan() && quotient.nan(),
        !product.nan() ==> product.negative() == (a.negative() != b.negative()),
        !quotient.nan() ==> quotient.negative() == (a.negative() != b.negative()),
        b.finite() && b.rank() < 0 && !a.nan() ==> quotient == a.opposite().quotient(
            b.opposite(),
        ),
        a.infinite() && b.finite() ==> sum == a && difference == a && quotient.infinite(),
        a.finite() && b.infinite() ==> sum == b && difference == b.opposite() && quotient.rank()
            == 0 && !quotient.nan(),
        a.infinite() && b.infinite() ==> {
            &&& product.infinite()
            &&& quotient.nan()
            &&& sum.nan() <==> a != b
            &&& difference.nan() <==> a == b
        },
        a.infinite() && b.finite() ==> (product.nan() <==> b.rank() == 0) && (product.infinite()
            <==> b.rank() != 0),
        a.finite() && b.infinite() ==> (product.nan() <==> a.rank() == 0) && (product.infinite()
            <==> a.rank() != 0),
        b.rank() == 0 && a.finite() ==> (quotient.nan() <==> a.rank() == 0) && (
        quotient.infinite() <==> a.rank() != 0),
        a.rank() == 0 && b.rank() == 0 ==> sum.rank() == 0 && (sum.negative() <==> a.negative()
            && b.negative()),
{
    lemma_pow2_pos(149);
    if a.finite() && b.finite() {
        let (x, y) = (rounding::units(a.magnitude()), rounding::units(b.magnitude()));
        rounding::lemma_units_step(a.magnitude());
        rounding::lemma_units_step(b.magnitude());
        assert(x * y >= 0 && x * pow2(149) >= 0) by (nonlinear_arith)
            requires
                x >= 0,
                y >= 0,
        ;
        rounding::lemma_rounded(x * y, pow2(149) as int);
        if b.magnitude() > 0 {
            rounding::lemma_units_increase(0, b.magnitude());
            rounding::lemma_units(0, 0);
            rounding::lemma_rounded(x * pow2(149), y);
        }
        rounding::lemma_units(0, 0);
    }
}

/// Comparisons are those of the values, the lesser of two numbers is one of them and not
/// above the other, and a number is held to a range by the nearer end.
pub proof fn comparisons_follow_the_values(
    a: Single,
    b: Single,
    below: bool,
    up_to: bool,
    lesser: Single,
    low: Single,
    high: Single,
    held: Single,
)
    requires
        a.finite(),
        b.finite(),
        low.finite(),
        high.finite(),
        low.value() <= high.value(),
        call_ensures(Single::lt, (a, b), below),
        call_ensures(Single::le, (a, b), up_to),
        call_ensures(Single::min, (a, b), lesser),
        call_ensures(Single::clamp, (a, low, high), held),
    ensures
        below == (a.value() < b.value()),
        up_to == (a.value() <= b.value()),
        lesser == a || lesser == b,
        lesser.value() <= a.value() && lesser.value() <= b.value(),
        a.value() < low.value() ==> held == low,
        high.value() < a.value() ==> held == high,
        low.value() <= a.value() <= high.value() ==> held == a,
{
    single::order_is_by_value(a, b);
    single::order_is_by_value(b, a);
    single::order_is_by_value(a, low);
    single::order_is_by_value(high, a);
}

/// The whole part of a number that is not negative is the greatest whole number up to it,
/// or the limit where that is less; integers are converted exactly as far as 24 bits
/// go, and otherwise up to the 2^24th part.
pub proof fn whole_numbers_come_and_go(a: Single, max: u32, n: u32, m: u64, converted: Single)
    requires
        a.finite(),
        a.value() >= 0,
        call_ensures(Single::whole, (a, max), n),
        call_ensures(Single::from_u64, (m,), converted),
    ensures
        n <= max,
        n * pow2(149) <= a.value(),
        n < max ==> a.value() < (n + 1) * pow2(149),
        converted.finite(),
        m <= 0x100_0000 ==> converted.value() == m * pow2(149),
        0x100_0000 * abs(converted.value() - m * pow2(149)) <= m * pow2(149),
{
    let u = pow2(149) as int;
    let v = a.value();
    let w = v / u;
    lemma_pow2_pos(149);
    lemma_conversion_error(m as int);
    if m <= 0x100_0000 {
        whole_numbers_are_exact(m as int);
    }
    vstd::arithmetic::div_mod::lemma_fundamental_div_mod(v, u);
    rounding::lemma_units_step(a.magnitude());
    if a.negative() && a.magnitude() > 0 {
        rounding::lemma_units_increase(0, a.magnitude());
        rounding::lemma_units(0, 0);
    }
    if a.negative() {
        rounding::lemma_units(0, 0);
        assert(v == 0);
    }
    assert(0 <= w && w * u <= v < (w + 1) * u) by (nonlinear_arith)
        requires
            v == u * w + v % u,
            0 <= v % u < u,
            v >= 0,
            u > 0,
    ;
    assert(n <= w) by {
        if a.negative() {
            assert(n == 0);
        }
    }
    assert(n * u <= w * u) by (nonlinear_arith)
        requires
            n <= w,
            u > 0,
    ;
    if n < max && !a.negative() {
        assert(n == w);
    }
    assert(0 * u == 0 && 1 * u == u) by (nonlinear_arith);
}

/// A sum is off by at most the 2^24th part of the exact one, and by no more than
/// what was added.
pub proof fn lemma_sum_error(a: Single, b: Single)
    requires
        a.finite(),
        b.finite(),
        a.sum(b).finite(),
    ensures
        0x100_0000 * abs(a.sum(b).value() - (a.value() + b.value())) <= abs(
            a.value() + b.value(),
        ),
        abs(a.sum(b).value() - (a.value() + b.value())) <= abs(b.value()),
{
    let v = a.value() + b.value();
    let size = abs(v) as int;
    lemma_sum(a, b);
    lemma_rank_error(a.sum(b), v, 1);
    rounding::lemma_rounded(size, 1);
    rounding::lemma_closest(size, 1, a.magnitude());
    rounding::lemma_closest(size, 1, 0);
    rounding::lemma_units_step(a.magnitude());
}

/// A product is off by at most half a unit, or by at most the 2^24th part of the
/// exact one.
pub proof fn lemma_product_error(a: Single, b: Single)
    requires
        a.finite(),
        b.finite(),
        a.product(b).finite(),
    ensures
        ({
            let exact = a.value() * b.value();
            let error = abs(a.product(b).value() * pow2(149) - exact);
            2 * error <= pow2(149) || 0x100_0000 * error <= abs(exact)
        }),
{
    lemma_pow2_pos(149);
    lemma_product(a, b);
    lemma_rank_error(a.product(b), a.value() * b.value(), pow2(149) as int);
}

/// A quotient by a positive number is off by at most half a unit, or by at most the
/// 2^24th part of the exact one.
pub proof fn lemma_quotient_error(a: Single, b: Single)
    requires
        a.finite(),
        b.finite(),
        b.rank() > 0,
        a.quotient(b).finite(),
    ensures
        b.value() > 0,
        ({
            let exact = a.value() * pow2(149);
            let error = abs(a.quotient(b).value() * b.value() - exact);
            2 * error <= b.value() || 0x100_0000 * error <= abs(exact)
        }),
{
    lemma_quotient(a, b);
    lemma_rank_error(a.quotient(b), a.value() * pow2(149), b.value());
}

/// A quotient of integers that is at least `2^-126` and at most `2^(j - 149)` rounds to
/// a positive finite number, off by at most the 2^24th part.
proof fn lemma_normal(r: Single, num: int, den: int, j: nat)
    requires
        den > 0,
        24 <= j <= 250,
        0x80_0000 * den <= num <= pow2(j) * den,
        !r.nan(),
        r.rank() == rounded_rank(num, den),
    ensures
        r.finite(),
        r.rank() > 0,
        r.value() > 0,
        0x100_0000 * abs(r.value() * den - num) <= num,
{
    let top = rounding::lemma_whole(1, j);
    rounding::lemma_rounded_exact(top, 1);
    rounding::lemma_rounded_monotone(num, den, pow2(j) as int, 1);
    rounding::lemma_rounded_exact(1, 1);
    rounding::lemma_rounded_monotone(1, 1, num, den);
    lemma_rank_error(r, num, den);
    rounding::lemma_units_increase(0, r.magnitude());
}

/// A product of positive numbers, neither too small nor too great, is off by at most
/// the 2^24th part.
pub proof fn lemma_product_relative(a: Single, b: Single, j: nat)
    requires
        a.finite(),
        b.finite(),
        24 <= j <= 250,
        0x80_0000 * pow2(149) <= a.value() * b.value() <= pow2(j) * pow2(149),
    ensures
        a.product(b).finite(),
        a.product(b).rank() > 0,
        a.product(b).value() > 0,
        0x100_0000 * abs(a.product(b).value() * pow2(149) - a.value() * b.value()) <= a.value()
            * b.value(),
{
    lemma_pow2_pos(149);
    lemma_product(a, b);
    lemma_normal(a.product(b), a.value() * b.value(), pow2(149) as int, j);
}

/// A quotient of positive numbers, neither too small nor too great, is off by at most
/// the 2^24th part.
pub proof fn lemma_quotient_relative(a: Single, b: Single, j: nat)
    requires
        a.finite(),
        b.finite(),
        b.rank() > 0,
        24 <= j <= 250,
        0x80_0000 * b.value() <= a.value() * pow2(149) <= pow2(j) * b.value(),
    ensures
        a.quotient(b).finite(),
        a.quotient(b).rank() > 0,
        a.quotient(b).value() > 0,
        0x100_0000 * abs(a.quotient(b).value() * b.value() - a.value() * pow2(149)) <= a.value()
            * pow2(149),
{
    lemma_quotient(a, b);
    lemma_normal(a.quotient(b), a.value() * pow2(149), b.value(), j);
}

/// Adding the same number keeps the order, unless a sum is undefined.
pub proof fn sum_is_monotone(a: Single, b: Single, c: Single)
    requires
        a.at_most(b),
        !a.sum(c).nan(),
        !b.sum(c).nan(),
    ensures
        a.sum(c).at_most(b.sum(c)),
{
    if a.finite() && c.finite() {
        lemma_sum(a, c);
    }
    if b.finite() && c.finite() {
        lemma_sum(b, c);
    }
    if a.finite() && b.finite() && c.finite() {
        single::order_is_by_value(a, b);
        lemma_rank_monotone(a.value() + c.value(), 1, b.value() + c.value(), 1);
    }
}

/// Subtracting the same number keeps the order, unless a difference is undefined.
pub proof fn difference_is_monotone(a: Single, b: Single, c: Single)
    requires
        a.at_most(b),
        !a.difference(c).nan(),
        !b.difference(c).nan(),
    ensures
        a.difference(c).at_most(b.difference(c)),
{
    sum_is_monotone(a, b, c.opposite());
}

/// Multiplying by the same non-negative number keeps the order, unless a product
/// is undefined.
pub proof fn product_is_monotone(a: Single, b: Single, c: Single)
    requires
        a.at_most(b),
        !c.nan(),
        c.rank() >= 0,
        !a.product(c).nan(),
        !b.product(c).nan(),
    ensures
        a.product(c).at_most(b.product(c)),
{
    if a.finite() && c.finite() {
        lemma_product(a, c);
    }
    if b.finite() && c.finite() {
        lemma_product(b, c);
    }
    if a.finite() && b.finite() && c.finite() {
        single::order_is_by_value(a, b);
        rounding::lemma_units_step(c.magnitude());
        lemma_pow2_pos(149);
        lemma_mul_inequality(a.value(), b.value(), c.value());
        lemma_mul_inequality(a.value() * c.value(), b.value() * c.value(), pow2(149) as int);
        lemma_rank_monotone(
            a.value() * c.value(),
            pow2(149) as int,
            b.value() * c.value(),
            pow2(149) as int,
        );
    }
}

/// Dividing by the same positive number keeps the order, unless a quotient is
/// undefined.
pub proof fn quotient_is_monotone(a: Single, b: Single, c: Single)
    requires
        a.at_most(b),
        !c.nan(),
        c.rank() > 0,
        !a.quotient(c).nan(),
        !b.quotient(c).nan(),
    ensures
        a.quotient(c).at_most(b.quotient(c)),
{
    if a.finite() && c.finite() {
        lemma_quotient(a, c);
    }
    if b.finite() && c.finite() {
        lemma_quotient(b, c);
    }
    if a.finite() && b.finite() && c.finite() {
        single::order_is_by_value(a, b);
        lemma_mul_inequality(a.value(), b.value(), pow2(149) as int);
        lemma_mul_inequality(a.value() * pow2(149), b.value() * pow2(149), c.value());
        lemma_rank_monotone(
            a.value() * pow2(149),
            c.value(),
            b.value() * pow2(149),
            c.value(),
        );
    }
}

/// Numbers of the same sign at the same place of the order are the same.
pub proof fn lemma_bits_of_rank(a: Single, b: Single)
    requires
        a.rank() == b.rank(),
        a.negative() == b.negative(),
    ensures
        a == b,
{
}

/// Multiplying by a fraction from 0 to 1 leads from zero at most to the number itself.
pub proof fn product_with_fraction(a: Single, f: Single)
    requires
        a.finite(),
        0 <= f.rank() <= ONE,
    ensures
        !a.product(f).nan(),
        a.rank() >= 0 ==> 0 <= a.product(f).rank() <= a.rank(),
        a.rank() <= 0 ==> a.rank() <= a.product(f).rank() <= 0,
{
    let u = pow2(149) as int;
    let zero = Single { bits: 0 };
    lemma_one();
    lemma_pow2_pos(149);
    lemma_product(a, f);
    lemma_rank_exact(a, u);
    lemma_rank_exact(zero, u);
    single::order_is_by_value(f, Single { bits: ONE });
    single::order_is_by_value(zero, f);
    single::order_is_by_value(zero, a);
    single::order_is_by_value(a, zero);
    let x = a.value();
    let y = f.value();
    assert((x >= 0 ==> 0 <= x * y <= x * u) && (x <= 0 ==> x * u <= x * y <= 0))
        by (nonlinear_arith)
        requires
            0 <= y <= u,
    ;
    assert(zero.value() * u == 0);
    if x >= 0 {
        assert((x * y) * u <= (x * u) * u && 0 * u <= (x * y) * u) by (nonlinear_arith)
            requires
                0 <= x * y <= x * u,
                u > 0,
        ;
        lemma_rank_monotone(x * y, u, x * u, u);
        lemma_rank_monotone(0, u, x * y, u);
    }
    if x <= 0 {
        assert((x * u) * u <= (x * y) * u && (x * y) * u <= 0 * u) by (nonlinear_arith)
            requires
                x * u <= x * y <= 0,
                u > 0,
        ;
        lemma_rank_monotone(x * u, u, x * y, u);
        lemma_rank_monotone(x * y, u, 0, u);
    }
}

/// A finite sum has finite terms.
pub proof fn finite_sum_has_finite_terms(a: Single, b: Single)
    requires
        a.sum(b).finite(),
    ensures
        a.finite(),
        b.finite(),
{
}

/// Multiplying by a number from -1 to 1 does not lead further from zero.
pub proof fn product_within(a: Single, f: Single)
    requires
        a.finite(),
        -ONE <= f.rank() <= ONE,
    ensures
        a.product(f).finite(),
        abs(a.product(f).value()) <= abs(a.value()),
{
    let u = pow2(149) as int;
    let high = Single::signed(false, a.magnitude());
    let low = Single::signed(true, a.magnitude());
    let one = Single { bits: ONE };
    lemma_one();
    lemma_pow2_pos(149);
    lemma_opposite(one);
    lemma_product(a, f);
    lemma_rank_exact(high, u);
    lemma_rank_exact(low, u);
    single::order_is_by_value(f, one);
    single::order_is_by_value(one.opposite(), f);
    rounding::lemma_units_step(a.magnitude());
    let x = a.value();
    let y = f.value();
    let h = high.value();
    assert(-(h * u) <= x * y <= h * u) by (nonlinear_arith)
        requires
            -h <= x <= h,
            -u <= y <= u,
    ;
    assert(low.value() * u == -(h * u)) by (nonlinear_arith)
        requires
            low.value() == -h,
    ;
    lemma_mul_inequality(x * y, h * u, u);
    lemma_mul_inequality(low.value() * u, x * y, u);
    lemma_rank_monotone(x * y, u, h * u, u);
    lemma_rank_monotone(low.value() * u, u, x * y, u);
    single::order_is_by_value(a.product(f), high);
    single::order_is_by_value(low, a.product(f));
}

/// The bits of 1 have the value 1.
pub proof fn lemma_one()
    ensures
        (Single { bits: ONE }).value() == pow2(149),
{
    rounding::lemma_units(126, BINADE as int);
    lemma2_to64();
    lemma_pow2_adds(23, 126);
}

/// Two halves make 1.
pub proof fn lemma_half()
    ensures
        2 * (Single { bits: HALF }).value() == (Single { bits: ONE }).value(),
{
    rounding::lemma_units(125, BINADE as int);
    rounding::lemma_units(126, BINADE as int);
    lemma_pow2_unfold(126);
    assert(2 * (BINADE * pow2(125)) == BINADE * (2 * pow2(125))) by (nonlinear_arith);
}

/// The bits of 2 have the value 2.
pub proof fn lemma_two()
    ensures
        (Single { bits: TWO }).value() == 2 * pow2(149),
{
    rounding::lemma_units(127, BINADE as int);
    lemma2_to64();
    lemma_pow2_adds(23, 127);
    lemma_pow2_unfold(150);
}

/// Conversion from an integer is off by at most the 2^24th part.
pub proof fn lemma_conversion_error(n: int)
    requires
        0 <= n <= u64::MAX,
    ensures
        Single::of_integer(n).finite(),
        Single::of_integer(n).value() >= 0,
        0x100_0000 * abs(Single::of_integer(n).value() - n * pow2(149)) <= n * pow2(149),
{
    let r = Single::of_integer(n);
    lemma_conversion(n);
    lemma_pow2_pos(149);
    assert(n * pow2(149) >= 0) by (nonlinear_arith)
        requires
            n >= 0,
    ;
    rounding::lemma_rounded(n * pow2(149), 1);
    rounding::lemma_error(n * pow2(149), 1);
    rounding::lemma_units_step(r.magnitude());
}

/// Zero times or divided by a positive finite number is zero.
pub proof fn zero_stays_zero(a: Single, b: Single)
    requires
        a.rank() == 0,
        b.finite(),
        b.rank() > 0,
    ensures
        a.product(b).rank() == 0,
        a.quotient(b).rank() == 0,
{
    lemma_pow2_pos(149);
    lemma_product(a, b);
    lemma_quotient(a, b);
    lemma_zero(pow2(149) as int);
    lemma_zero(b.value());
    assert(a.value() * b.value() == 0 && a.value() * pow2(149) == 0) by (nonlinear_arith)
        requires
            a.value() == 0,
    ;
}

/// Addition commutes.
pub proof fn sum_commutes(a: Single, b: Single)
    requires
        a.finite(),
        b.finite(),
    ensures
        a.sum(b) == b.sum(a),
{
}

/// Multiplication commutes.
pub proof fn product_commutes(a: Single, b: Single)
    ensures
        a.product(b) == b.product(a),
{
    lemma_mul_is_commutative(
        rounding::units(a.magnitude()),
        rounding::units(b.magnitude()),
    );
}

/// Multiplying a finite number by 1 gives the number itself.
pub proof fn product_with_one(a: Single)
    requires
        a.finite(),
    ensures
        a.product(Single { bits: ONE }) == a,
{
    lemma_one();
    lemma_pow2_pos(149);
    rounding::lemma_rounded_exact(a.magnitude(), pow2(149) as int);
}

/// A finite sum whose exact value can be represented has that value.
pub proof fn exact_sum(a: Single, b: Single, r: Single)
    requires
        a.finite(),
        b.finite(),
        r.finite(),
        a.value() + b.value() == r.value(),
        r.value() != 0,
    ensures
        a.sum(b) == r,
{
    rounding::lemma_rounded_exact(r.magnitude(), 1);
}

/// A finite positive number divided by itself is exactly 1.
pub proof fn self_quotient_is_one(a: Single)
    requires
        a.finite(),
        a.rank() > 0,
    ensures
        a.quotient(a) == (Single { bits: ONE }),
{
    let one = Single { bits: ONE };
    lemma_one();
    lemma_quotient(a, a);
    lemma_rank_exact(one, a.value());
    lemma_mul_is_commutative(one.value(), a.value());
}

/// The quotient of two different numbers does not round up to 1.
pub proof fn proper_fraction_is_below_one(a: Single, b: Single)
    requires
        a.finite(),
        b.finite(),
        0 <= a.rank() < b.rank(),
    ensures
        (Single { bits: 0 }).at_most(a.quotient(b)),
        a.quotient(b).less(Single { bits: ONE }),
{
    let m = a.magnitude();
    let n = b.magnitude();
    let u = rounding::units(m);
    let v = rounding::units(n);
    let below = ONE - 1;
    lemma_quotient(a, b);
    rounding::lemma_units_step(m);
    rounding::lemma_gap_below(n);
    if m < n - 1 {
        rounding::lemma_units_increase(m, n - 1);
    }
    // The number below 1 is one 2^24th less than 1.
    rounding::lemma_units(125, 0xff_ffff);
    lemma2_to64();
    lemma_pow2_adds(24, 125);
    let p = pow2(125) as int;
    assert(u * (0x100_0000 * p) <= (0xff_ffff * p) * v) by (nonlinear_arith)
        requires
            v <= 0x100_0000 * (v - u),
            p >= 0,
    ;
    rounding::lemma_rounded_exact(below, 1);
    assert(u * pow2(149) >= 0) by (nonlinear_arith)
        requires
            u >= 0,
    ;
    rounding::lemma_rounded_monotone(u * pow2(149), v, 0xff_ffff * p, 1);
    rounding::lemma_rounded(u * pow2(149), v);
}

/// A finite number minus itself is zero.
pub proof fn self_difference_is_zero(a: Single)
    requires
        a.finite(),
    ensures
        a.difference(a) == (Single { bits: 0 }),
{
    lemma_opposite(a);
}

/// Where numbers are no more than 1 apart, subtracting 1 gives a lesser one.
pub proof fn minus_one_is_less(a: Single)
    requires
        -0x4b80_0000 < a.rank() <= 0x4b80_0000,
    ensures
        a.difference(Single { bits: ONE }).less(a),
{
    let one = Single { bits: ONE };
    let lower = Single::signed(
        a.rank() <= 0,
        if a.rank() > 0 {
            a.rank() - 1
        } else {
            1 - a.rank()
        },
    );
    lemma_one();
    lemma_opposite(one);
    lemma_sum(a, one.opposite());
    if a.rank() > 0 {
        rounding::lemma_gap_above(a.rank() - 1);
    } else {
        rounding::lemma_gap_above(-a.rank());
    }
    lemma_rank_exact(lower, 1);
    lemma_rank_monotone(a.value() + one.opposite().value(), 1, lower.value() * 1, 1);
}

/// The difference of two numbers of `[0, 1]` exceeds a positive exact one by less
/// than `2^-24`, is not positive where the exact one is not, and is no less than
/// the opposite of what is subtracted.
pub proof fn lemma_unit_difference(a: Single, b: Single)
    requires
        0 <= a.rank() <= ONE,
        0 <= b.rank() <= ONE,
    ensures
        !b.difference(a).nan(),
        b.difference(a).finite(),
        a.value() < b.value() ==> b.difference(a).value() < b.value() - a.value() + pow2(125),
        b.value() <= a.value() ==> b.difference(a).value() <= 0,
        -a.value() <= b.difference(a).value(),
{
    let d = b.difference(a);
    let exact = b.value() - a.value();
    let p = pow2(125) as int;
    let zero = Single { bits: 0 };
    let one = Single { bits: ONE };
    lemma_one();
    lemma2_to64();
    lemma_pow2_pos(125);
    lemma_pow2_adds(24, 125);
    lemma_opposite(a);
    lemma_sum(b, a.opposite());
    single::order_is_by_value(zero, a);
    single::order_is_by_value(zero, b);
    single::order_is_by_value(a, one);
    single::order_is_by_value(b, one);
    // From below by `-a`.
    lemma_rank_exact(a.opposite(), 1);
    lemma_rank_monotone(a.opposite().value() * 1, 1, exact, 1);
    // From above by the next multiple of `2^-24`, or by zero.
    let k = if exact <= 0 {
        0
    } else {
        (exact + p - 1) / p
    };
    if exact > 0 {
        vstd::arithmetic::div_mod::lemma_fundamental_div_mod(exact + p - 1, p);
        assert(k * p >= exact && k * p < exact + p) by (nonlinear_arith)
            requires
                exact + p - 1 == p * k + (exact + p - 1) % p,
                0 <= (exact + p - 1) % p < p,
        ;
        assert(k <= 0x100_0000) by (nonlinear_arith)
            requires
                k * p < exact + p,
                exact <= 0x100_0000 * p,
                p > 0,
        ;
        assert(k >= 0) by (nonlinear_arith)
            requires
                k * p >= exact,
                exact > 0,
                p > 0,
        ;
    }
    let m = rounding::lemma_whole(k, 125);
    if m > ONE {
        rounding::lemma_units_increase(ONE as int, m);
        assert(k * p <= 0x100_0000 * p) by (nonlinear_arith)
            requires
                k <= 0x100_0000,
                p > 0,
        ;
    }
    let bound = Single::signed(false, m);
    lemma_rank_exact(bound, 1);
    lemma_rank_monotone(exact, 1, bound.value() * 1, 1);
    single::order_is_by_value(d, bound);
    single::order_is_by_value(a.opposite(), d);
    if exact <= 0 {
        assert(k * p == 0);
        lemma_rank_exact(zero, 1);
        lemma_rank_monotone(exact, 1, zero.value() * 1, 1);
        single::order_is_by_value(d, zero);
    }
}

/// Conversion from integers keeps the order.
pub proof fn conversion_is_monotone(m: int, n: int)
    requires
        0 <= m <= n,
    ensures
        Single::of_integer(m).at_most(Single::of_integer(n)),
        Single::of_integer(m).rank() >= 0,
{
    lemma_pow2_pos(149);
    rounding::lemma_rounded(m * pow2(149), 1);
    rounding::lemma_rounded(n * pow2(149), 1);
    assert(m * pow2(149) <= n * pow2(149)) by (nonlinear_arith)
        requires
            m <= n,
    ;
    rounding::lemma_rounded_monotone(m * pow2(149), 1, n * pow2(149), 1);
}

/// Conversion gives a finite number, and a positive one for a positive integer.
pub proof fn lemma_conversion(n: int)
    requires
        0 <= n <= u64::MAX,
    ensures
        Single::of_integer(n).finite(),
        Single::of_integer(n).rank() >= 0,
        n > 0 ==> Single::of_integer(n).rank() > 0,
{
    let top = rounding::lemma_whole(1, 213);
    rounding::lemma_rounded_exact(top, 1);
    lemma2_to64();
    lemma_pow2_adds(64, 149);
    conversion_is_monotone(0, n);
    assert(n * pow2(149) <= pow2(64) * pow2(149)) by (nonlinear_arith)
        requires
            n <= pow2(64),
    ;
    rounding::lemma_rounded(n * pow2(149), 1);
    rounding::lemma_rounded_monotone(n * pow2(149), 1, pow2(213) as int, 1);
    if n > 0 {
        lemma_pow2_pos(149);
        whole_numbers_are_exact(1);
        conversion_is_monotone(1, n);
    }
}

/// Whole numbers of up to 24 bits are converted exactly, and so stay apart.
pub proof fn whole_numbers_are_exact(n: int)
    requires
        0 <= n <= 0x100_0000,
    ensures
        Single::of_integer(n).finite(),
        !Single::of_integer(n).negative(),
        Single::of_integer(n).value() == n * pow2(149),
{
    let m = rounding::lemma_whole(n, 149);
    rounding::lemma_rounded_exact(m, 1);
}

} // verus!
