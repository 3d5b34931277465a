//! Rounding to the single-precision grid.
//!
//! The non-negative binary32 numbers are enumerated by their magnitude bits.
//! [`nearest`] says which of them a quotient of integers rounds to, and
//! [`round`] finds it.
use vstd::arithmetic::power2::*;
use vstd::math::*;
use vstd::prelude::*;

verus! {

/// Magnitude bits of infinity: magnitudes below it are finite, those above are NaN.
pub const INFINITE: u32 = 0x7f80_0000;

/// The number of significands per binade.
pub const BINADE: u32 = 0x80_0000;

/// The value with magnitude bits `m`, in multiples of the smallest positive
/// number (`2^-149`). Infinity stands at the place of the next binade, `2^128`,
/// which is where rounding meets it.
pub open spec fn units(m: int) -> int {
    if m < BINADE {
        m
    } else {
        (BINADE + m % (BINADE as int)) * pow2((m / (BINADE as int) - 1) as nat)
    }
}

/// Magnitude bits `m` are the ones nearest to `num / den` (counted in units of
/// `2^-149`); of two equally near ones they are the even ones.
pub open spec fn nearest(m: int, num: int, den: int) -> bool {
    &&& 0 <= m <= INFINITE
    &&& m > 0 ==> {
        ||| (units(m - 1) + units(m)) * den < 2 * num
        ||| (units(m - 1) + units(m)) * den == 2 * num && m % 2 == 0
    }
    &&& m < INFINITE ==> {
        ||| 2 * num < (units(m) + units(m + 1)) * den
        ||| 2 * num == (units(m) + units(m + 1)) * den && m % 2 == 0
    }
}

/// `e` binades up, the significand `s` has the value `s * 2^e`.
pub proof fn lemma_units(e: nat, s: int)
    requires
        0 <= s <= 2 * BINADE,
        e > 0 ==> s >= BINADE,
    ensures
        units(e * BINADE + s) == s * pow2(e),
{
    lemma2_to64();
    let m = e * BINADE + s;
    let b = BINADE as int;
    if s < b {
        assert(e == 0);
    } else if s < 2 * b {
        assert(m / b == e + 1 && m % b == s - b) by (nonlinear_arith)
            requires
                m == e * b + s,
                b <= s < 2 * b,
                b == 0x80_0000,
        ;
    } else {
        assert(m / b == e + 2 && m % b == 0) by (nonlinear_arith)
            requires
                m == e * b + s,
                s == 2 * b,
                b == 0x80_0000,
        ;
        lemma_pow2_unfold(e + 1);
        assert(b * (2 * pow2(e)) == s * pow2(e)) by (nonlinear_arith)
            requires
                s == 2 * b,
        ;
    }
}

/// Rounding within a binade: from where `num / den` lies between two adjacent
/// significands to the nearest magnitude.
proof fn lemma_nearest(e: nat, s: int, up: bool, num: int, den: int)
    requires
        den > 0,
        0 <= s < 2 * BINADE,
        e > 0 ==> s >= BINADE,
        s * (pow2(e) * den) <= num < (s + 1) * (pow2(e) * den),
        up ==> (2 * s + 1) * (pow2(e) * den) <= 2 * num,
        !up ==> 2 * num <= (2 * s + 1) * (pow2(e) * den),
        2 * num == (2 * s + 1) * (pow2(e) * den) ==> up == (s % 2 == 1),
        e * BINADE + s + 1 <= INFINITE,
    ensures
        nearest(e * BINADE + s + if up { 1int } else { 0 }, num, den),
{
    let b = BINADE as int;
    let p = pow2(e) as int;
    let d = p * den;
    lemma_pow2_pos(e);
    let t: int = s + if up { 1int } else { 0 };
    let m = e * b + t;
    lemma_units(e, s);
    lemma_units(e, s + 1);
    assert((e * b) % 2 == 0) by (nonlinear_arith)
        requires
            b == 0x80_0000,
    ;
    assert(m % 2 == t % 2);
    assert((s * p + (s + 1) * p) * den == (2 * s + 1) * d) by (nonlinear_arith)
        requires
            d == p * den,
    ;
    assert(d > 0) by (nonlinear_arith)
        requires
            d == p * den,
            p > 0,
            den > 0,
    ;
    if up {
        // Below stands `s`; above, the distance to the next magnitude is at least `p`.
        assert(m - 1 == e * b + s);
        if m < INFINITE {
            lemma_units_step(m);
            assert((units(m) + units(m + 1)) * den > 2 * num) by (nonlinear_arith)
                requires
                    units(m) == (s + 1) * p,
                    units(m + 1) > units(m),
                    num < (s + 1) * (p * den),
                    den > 0,
            ;
        }
    } else {
        assert(m + 1 == e * b + s + 1);
        if m > 0 {
            lemma_units_step(m - 1);
            assert((units(m - 1) + units(m)) * den < 2 * num) by (nonlinear_arith)
                requires
                    units(m) == s * p,
                    units(m - 1) < units(m),
                    s * (p * den) <= num,
                    den > 0,
            ;
        }
    }
}

/// The values of the magnitudes rise strictly.
pub proof fn lemma_units_step(m: int)
    requires
        0 <= m,
    ensures
        0 <= units(m) < units(m + 1),
{
    let b = BINADE as int;
    lemma2_to64();
    if m < b {
        if m + 1 == b {
            assert(units(m + 1) == b);
        }
    } else {
        let e = (m / b - 1) as nat;
        let s = b + m % b;
        assert(m == e * b + s) by (nonlinear_arith)
            requires
                e == m / b - 1,
                s == b + m % b,
                b == 0x80_0000,
        ;
        lemma_units(e, s);
        lemma_units(e, s + 1);
        lemma_pow2_pos(e);
        assert(0 <= s * pow2(e) < (s + 1) * pow2(e)) by (nonlinear_arith)
            requires
                pow2(e) > 0,
                s >= 0,
        ;
    }
}

/// The order of magnitudes is the order of their values.
pub proof fn lemma_units_increase(m: int, n: int)
    requires
        0 <= m < n,
    ensures
        units(m) < units(n),
    decreases n - m,
{
    lemma_units_step(m);
    if m + 1 < n {
        lemma_units_increase(m + 1, n);
    }
}

/// Every quotient has one nearest magnitude.
pub proof fn lemma_nearest_unique(m: int, n: int, num: int, den: int)
    requires
        den > 0,
        nearest(m, num, den),
        nearest(n, num, den),
    ensures
        m == n,
{
    if m < n {
        lemma_nearest_ordered(m, n, num, den);
    } else if n < m {
        lemma_nearest_ordered(n, m, num, den);
    }
}

proof fn lemma_nearest_ordered(m: int, n: int, num: int, den: int)
    requires
        den > 0,
        nearest(m, num, den),
        m < n,
    ensures
        !nearest(n, num, den),
{
    lemma_units_step(m);
    lemma_units_step(n - 1);
    let above = units(m) + units(m + 1);
    let below = units(n - 1) + units(n);
    if m + 1 == n {
        assert(above == below);
    } else {
        lemma_units_increase(m, n - 1);
        lemma_units_increase(m + 1, n);
        assert(above * den < below * den) by (nonlinear_arith)
            requires
                above < below,
                den > 0,
        ;
    }
}

/// The last magnitude up to `top` that `num / den` is not below the middle of.
proof fn lemma_nearest_exists_from(top: int, num: int, den: int) -> (m: int)
    requires
        den > 0,
        0 <= top <= INFINITE,
        top < INFINITE ==> {
            ||| 2 * num < (units(top) + units(top + 1)) * den
            ||| 2 * num == (units(top) + units(top + 1)) * den && top % 2 == 0
        },
    ensures
        nearest(m, num, den),
    decreases top,
{
    if top > 0 && !((units(top - 1) + units(top)) * den < 2 * num || (units(top - 1) + units(top))
        * den == 2 * num && top % 2 == 0) {
        lemma_nearest_exists_from(top - 1, num, den)
    } else {
        top
    }
}

/// Every non-negative quotient has a nearest magnitude, and `rounded` is it.
pub proof fn lemma_rounded(num: int, den: int)
    requires
        den > 0,
    ensures
        nearest(rounded(num, den), num, den),
        forall|m: int| #[trigger] nearest(m, num, den) ==> m == rounded(num, den),
{
    let m = lemma_nearest_exists_from(INFINITE as int, num, den);
    assert(nearest(m, num, den));
    assert forall|m: int| #[trigger] nearest(m, num, den) implies m == rounded(num, den) by {
        lemma_nearest_unique(m, rounded(num, den), num, den);
    }
}

/// The magnitude nearest to `num / den`.
pub open spec fn rounded(num: int, den: int) -> int {
    choose|m: int| nearest(m, num, den)
}

/// A value of the grid rounds to itself.
pub proof fn lemma_rounded_exact(m: int, den: int)
    requires
        den > 0,
        0 <= m <= INFINITE,
    ensures
        rounded(units(m) * den, den) == m,
{
    let num = units(m) * den;
    lemma_units_step(m);
    assert(2 * num < (units(m) + units(m + 1)) * den) by (nonlinear_arith)
        requires
            num == units(m) * den,
            units(m) < units(m + 1),
            den > 0,
    ;
    if m > 0 {
        lemma_units_step(m - 1);
        assert((units(m - 1) + units(m)) * den < 2 * num) by (nonlinear_arith)
            requires
                num == units(m) * den,
                units(m - 1) < units(m),
                den > 0,
        ;
    }
    assert(nearest(m, num, den));
    lemma_rounded(num, den);
}

/// Rounding keeps the order of quotients.
pub proof fn lemma_rounded_monotone(num: int, den: int, above: int, over: int)
    requires
        den > 0,
        over > 0,
        num * over <= above * den,
    ensures
        rounded(num, den) <= rounded(above, over),
{
    let m = rounded(num, den);
    let k = rounded(above, over);
    lemma_rounded(num, den);
    lemma_rounded(above, over);
    if k < m {
        let low = units(k) + units(k + 1);
        let high = units(m - 1) + units(m);
        if k + 1 < m {
            lemma_units_increase(k, m - 1);
            lemma_units_increase(k + 1, m);
        }
        assert(low < high || k + 1 == m && low == high);
        assert(high * den <= 2 * num && 2 * above <= low * over);
        assert(high * (den * over) <= low * (den * over)) by (nonlinear_arith)
            requires
                high * den <= 2 * num,
                2 * above <= low * over,
                num * over <= above * den,
                den > 0,
                over > 0,
        ;
        assert(den * over > 0) by (nonlinear_arith)
            requires
                den > 0,
                over > 0,
        ;
        assert(high <= low) by (nonlinear_arith)
            requires
                high * (den * over) <= low * (den * over),
                den * over > 0,
        ;
        // Both bounds are met with equality, so two neighbours would be even.
        assert(high * den == 2 * num) by (nonlinear_arith)
            requires
                high * den <= 2 * num,
                2 * above <= high * over,
                num * over <= above * den,
                den > 0,
                over > 0,
        ;
        assert(2 * above == low * over) by (nonlinear_arith)
            requires
                high * den <= 2 * num,
                2 * above <= low * over,
                low == high,
                num * over <= above * den,
                den > 0,
                over > 0,
        ;
    }
}

/// No value exceeds `2^24` times the distance to its lower neighbour.
pub proof fn lemma_gap_below(m: int)
    requires
        m >= 1,
    ensures
        units(m) <= 0x100_0000 * (units(m) - units(m - 1)),
{
    let b = BINADE as int;
    lemma2_to64();
    if m <= b {
        lemma_units(0, m);
        lemma_units(0, m - 1);
    } else {
        let e = ((m - 1) / b - 1) as nat;
        let s = b + (m - 1) % b;
        assert(m - 1 == e * b + s);
        lemma_units(e, s);
        lemma_units(e, s + 1);
        lemma_pow2_pos(e);
        let p = pow2(e) as int;
        assert((s + 1) * p <= 0x100_0000 * ((s + 1) * p - s * p)) by (nonlinear_arith)
            requires
                s + 1 <= 0x100_0000,
                p > 0,
        ;
    }
}

/// Magnitudes below that of `2^24` are at most 1 apart.
pub proof fn lemma_gap_above(m: int)
    requires
        0 <= m < 0x4b80_0000,
    ensures
        units(m + 1) - units(m) <= pow2(149),
{
    let b = BINADE as int;
    lemma2_to64();
    lemma_pow2_pos(149);
    if m < b {
        lemma_units(0, m);
        lemma_units(0, m + 1);
    } else {
        let e = (m / b - 1) as nat;
        let s = b + m % b;
        assert(m == e * b + s);
        lemma_units(e, s);
        lemma_units(e, s + 1);
        if e < 149 {
            lemma_pow2_strictly_increases(e, 149);
        }
        assert((s + 1) * pow2(e) - s * pow2(e) == pow2(e)) by (nonlinear_arith);
    }
}

/// The gap above a magnitude is one unit, or no more than the 2^23rd part of its value.
proof fn lemma_relative_gap(m: int)
    requires
        m >= 0,
    ensures
        units(m + 1) - units(m) == 1 || 0x80_0000 * (units(m + 1) - units(m)) <= units(m),
{
    let b = BINADE as int;
    lemma2_to64();
    if m < b {
        lemma_units(0, m);
        lemma_units(0, m + 1);
    } else {
        let e = (m / b - 1) as nat;
        let s = b + m % b;
        assert(m == e * b + s);
        lemma_units(e, s);
        lemma_units(e, s + 1);
        let p = pow2(e) as int;
        assert(0x80_0000 * ((s + 1) * p - s * p) <= s * p) by (nonlinear_arith)
            requires
                s >= 0x80_0000,
                p >= 0,
        ;
    }
}

/// Below `e + 2` binades, magnitudes are at most `2^e` apart.
pub proof fn lemma_gap_below_binade(m: int, e: nat)
    requires
        0 <= m < (e + 2) * BINADE,
    ensures
        units(m + 1) - units(m) <= pow2(e),
{
    let b = BINADE as int;
    lemma2_to64();
    lemma_pow2_pos(e);
    if m < b {
        lemma_units(0, m);
        lemma_units(0, m + 1);
    } else {
        let f = (m / b - 1) as nat;
        let s = b + m % b;
        assert(m == f * b + s);
        lemma_units(f, s);
        lemma_units(f, s + 1);
        if f < e {
            lemma_pow2_strictly_increases(f, e);
        }
        assert((s + 1) * pow2(f) - s * pow2(f) == pow2(f)) by (nonlinear_arith);
    }
}

/// Rounding moves a quotient by at most half a unit, or by at most its 2^24th part.
pub proof fn lemma_error(num: int, den: int)
    requires
        den > 0,
        num >= 0,
        rounded(num, den) < INFINITE,
    ensures
        ({
            let error = abs(units(rounded(num, den)) * den - num);
            2 * error <= den || 0x100_0000 * error <= num
        }),
{
    let m = rounded(num, den);
    lemma_rounded(num, den);
    let x = units(m) * den;
    if x <= num {
        let g = units(m + 1) - units(m);
        lemma_relative_gap(m);
        assert(2 * (num - x) <= g * den) by (nonlinear_arith)
            requires
                2 * num <= (units(m) + units(m + 1)) * den,
                x == units(m) * den,
                g == units(m + 1) - units(m),
        ;
        if g == 1 {
            assert(g * den == den) by (nonlinear_arith)
                requires
                    g == 1,
            ;
        } else {
            assert(0x80_0000 * (g * den) <= x) by (nonlinear_arith)
                requires
                    0x80_0000 * g <= units(m),
                    x == units(m) * den,
                    den > 0,
            ;
        }
    } else {
        if m == 0 {
            assert(x == 0) by (nonlinear_arith)
                requires
                    x == units(m) * den,
                    units(m) == 0,
            ;
        }
        let y = units(m - 1) * den;
        let g = units(m) - units(m - 1);
        lemma_relative_gap(m - 1);
        lemma_units_step(m - 1);
        assert(2 * (x - num) <= g * den && y <= num) by (nonlinear_arith)
            requires
                (units(m - 1) + units(m)) * den <= 2 * num,
                x == units(m) * den,
                y == units(m - 1) * den,
                g == units(m) - units(m - 1),
                g > 0,
                den > 0,
        ;
        if g == 1 {
            assert(g * den == den) by (nonlinear_arith)
                requires
                    g == 1,
            ;
        } else {
            assert(0x80_0000 * (g * den) <= y) by (nonlinear_arith)
                requires
                    0x80_0000 * g <= units(m - 1),
                    y == units(m - 1) * den,
                    den > 0,
            ;
        }
    }
}

/// Below `e + 2` binades, rounding a whole number of units moves it by at most half
/// of `2^e`.
pub proof fn lemma_error_below_binade(num: int, e: nat)
    requires
        rounded(num, 1) < (e + 2) * BINADE,
        rounded(num, 1) < INFINITE,
        num >= 0,
    ensures
        2 * abs(units(rounded(num, 1)) - num) <= pow2(e),
{
    let m = rounded(num, 1);
    lemma_rounded(num, 1);
    lemma_gap_below_binade(m, e);
    if m > 0 {
        lemma_gap_below_binade(m - 1, e);
    }
}

/// The gap below a magnitude is no greater than the gap above it.
pub proof fn lemma_gaps_grow(m: int)
    requires
        m >= 1,
    ensures
        units(m) - units(m - 1) <= units(m + 1) - units(m),
{
    let b = BINADE as int;
    lemma2_to64();
    if m < b {
        lemma_units(0, m - 1);
        lemma_units(0, m);
        lemma_units(0, m + 1);
    } else {
        let e = (m / b - 1) as nat;
        let s = b + m % b;
        assert(m == e * b + s);
        lemma_units(e, s);
        lemma_units(e, s + 1);
        assert((s + 1) * pow2(e) - s * pow2(e) == pow2(e)) by (nonlinear_arith);
        lemma_gap_below_binade(m - 1, e);
    }
}

/// No magnitude is nearer to a quotient than the one that it rounds to.
pub proof fn lemma_closest(num: int, den: int, k: int)
    requires
        den > 0,
        0 <= k <= INFINITE,
    ensures
        abs(units(rounded(num, den)) * den - num) <= abs(units(k) * den - num),
{
    let m = rounded(num, den);
    lemma_rounded(num, den);
    let x = units(m) * den;
    let z = units(k) * den;
    if k > m {
        lemma_units_step(m);
        if k > m + 1 {
            lemma_units_increase(m + 1, k);
        }
        assert(2 * num <= x + z && x <= z) by (nonlinear_arith)
            requires
                2 * num <= (units(m) + units(m + 1)) * den,
                units(m) <= units(m + 1) <= units(k),
                x == units(m) * den,
                z == units(k) * den,
                den > 0,
        ;
    } else if k < m {
        lemma_units_step(m - 1);
        if k < m - 1 {
            lemma_units_increase(k, m - 1);
        }
        assert(x + z <= 2 * num && z <= x) by (nonlinear_arith)
            requires
                (units(m - 1) + units(m)) * den <= 2 * num,
                units(k) <= units(m - 1) <= units(m),
                x == units(m) * den,
                z == units(k) * den,
                den > 0,
        ;
    }
}

/// The significand and exponent of `n * 2^j`, for a whole number that 24 bits
/// hold: its value lies on the grid.
proof fn lemma_whole_parts(n: int, j: nat) -> (parts: (nat, int))
    requires
        0 < n <= 2 * BINADE,
        24 <= j,
    ensures
        BINADE <= parts.1 <= 2 * BINADE,
        parts.0 <= j,
        parts.1 * pow2(parts.0) == n * pow2(j),
    decreases 2 * BINADE - n,
{
    if n >= BINADE {
        (j, n)
    } else {
        let (e, s) = lemma_whole_parts(2 * n, j);
        lemma2_to64();
        if e == 0 {
            lemma_pow2_adds(24, (j - 24) as nat);
            lemma_pow2_pos((j - 24) as nat);
            assert((2 * n) * pow2(j) >= 2 * 0x100_0000) by (nonlinear_arith)
                requires
                    n >= 1,
                    pow2(j) == 0x100_0000 * pow2((j - 24) as nat),
                    pow2((j - 24) as nat) > 0,
            ;
            assert(s * pow2(e) == s) by (nonlinear_arith)
                requires
                    pow2(e) == 1,
            ;
        }
        lemma_pow2_unfold(e);
        let half = (e - 1) as nat;
        assert(s * pow2(half) == n * pow2(j)) by (nonlinear_arith)
            requires
                s * pow2(e) == (2 * n) * pow2(j),
                pow2(e) == 2 * pow2(half),
        ;
        (half, s)
    }
}

/// A whole number that 24 bits hold, scaled by a power of two, lies on the grid.
pub proof fn lemma_whole(n: int, j: nat) -> (m: int)
    requires
        0 <= n <= 2 * BINADE,
        24 <= j <= 250,
    ensures
        0 <= m < INFINITE,
        units(m) == n * pow2(j),
{
    if n == 0 {
        0
    } else {
        let (e, s) = lemma_whole_parts(n, j);
        lemma_units(e, s);
        e * BINADE + s
    }
}

proof fn lemma_shl(n: u32)
    requires
        n < 128,
    ensures
        (1u128 << n) == pow2(n as nat),
    decreases n,
{
    if n == 0 {
        lemma2_to64();
        assert(1u128 << 0u32 == 1u128) by (bit_vector);
    } else {
        let k = (n - 1) as u32;
        lemma_shl(k);
        lemma_pow2_unfold(n as nat);
        assert(1u128 << n == 2 * (1u128 << k)) by (bit_vector)
            requires
                0 < n < 128,
                k == n - 1,
        ;
    }
}

pub(crate) fn power(n: u32) -> (p: u128)
    requires
        n < 128,
    ensures
        p == pow2(n as nat),
        p > 0,
{
    proof {
        lemma_shl(n);
        lemma_pow2_pos(n as nat);
    }
    1u128 << n
}

/// The position of the highest set bit.
fn high_bit(q: u128) -> (h: u32)
    requires
        0 < q < 0x10_0000_0000_0000_0000_0000_0000,
    ensures
        h < 100,
        pow2(h as nat) <= q < pow2((h + 1) as nat),
{
    let mut h: u32 = 0;
    let mut step: u32 = 64;
    proof {
        lemma2_to64();
        lemma2_to64_rest();
        lemma_pow2_adds(64, 64);
    }
    while step > 0
        invariant
            step == 64 || step == 32 || step == 16 || step == 8 || step == 4 || step == 2 || step
                == 1 || step == 0,
            h + 2 * step <= 128,
            pow2(h as nat) <= q,
            step > 0 ==> q < pow2((h + 2 * step) as nat),
            step == 0 ==> q < pow2((h + 1) as nat),
        decreases step,
    {
        if power(h + step) <= q {
            h = h + step;
        }
        step = step / 2;
    }
    proof {
        if h >= 100 {
            lemma2_to64();
            lemma2_to64_rest();
            lemma_pow2_adds(50, 50);
            if h > 100 {
                lemma_pow2_strictly_increases(100, h as nat);
            }
        }
    }
    h
}

/// `2^k` as a fraction: its numerator.
pub open spec fn scale_up(k: int) -> int {
    if k > 0 {
        pow2(k as nat) as int
    } else {
        1
    }
}

/// `2^k` as a fraction: its denominator.
pub open spec fn scale_down(k: int) -> int {
    if k < 0 {
        pow2((-k) as nat) as int
    } else {
        1
    }
}

/// `num / den` lies at `q * 2^k`, or above it and below the next multiple of
/// `2^k` when `sticky`.
pub open spec fn brackets(q: int, k: int, sticky: bool, num: int, den: int) -> bool {
    &&& q * (scale_up(k) * den) <= num * scale_down(k)
    &&& num * scale_down(k) < (q + 1) * (scale_up(k) * den)
    &&& sticky <==> q * (scale_up(k) * den) != num * scale_down(k)
}

pub proof fn lemma_scales(k: int, e: nat, shift: int)
    requires
        shift == e - k,
    ensures
        scale_up(k) > 0,
        scale_down(k) > 0,
        shift >= 0 ==> pow2(e) * scale_down(k) == pow2(shift as nat) * scale_up(k),
        shift < 0 ==> pow2(e) * scale_down(k) * pow2((-shift) as nat) == scale_up(k),
{
    lemma2_to64();
    if k > 0 {
        lemma_pow2_pos(k as nat);
        if shift >= 0 {
            lemma_pow2_adds(shift as nat, k as nat);
        } else {
            lemma_pow2_adds(e, (-shift) as nat);
        }
    } else if k < 0 {
        lemma_pow2_pos((-k) as nat);
        lemma_pow2_adds(e, (-k) as nat);
    }
}

/// Dropping `shift` bits of `q` leaves the significand `s` at exponent `e`.
proof fn lemma_dropped(
    q: int,
    k: int,
    sticky: bool,
    num: int,
    den: int,
    e: nat,
    shift: nat,
    s: int,
    r: int,
    half: int,
    up: bool,
)
    requires
        den > 0,
        brackets(q, k, sticky, num, den),
        shift == e - k,
        shift > 0,
        q == s * pow2(shift) + r,
        0 <= r < pow2(shift),
        pow2(shift) == 2 * half,
        up == (r > half || (r == half && (sticky || s % 2 == 1))),
    ensures
        s * (pow2(e) * den) <= num < (s + 1) * (pow2(e) * den),
        up ==> (2 * s + 1) * (pow2(e) * den) <= 2 * num,
        !up ==> 2 * num <= (2 * s + 1) * (pow2(e) * den),
        2 * num == (2 * s + 1) * (pow2(e) * den) ==> up == (s % 2 == 1),
{
    lemma_scales(k, e, shift as int);
    let a = scale_down(k);
    let w = scale_up(k) * den;
    let p = pow2(shift) as int;
    let d = pow2(e) * den;
    let x = num * a;
    assert(d * a == p * w) by (nonlinear_arith)
        requires
            d == pow2(e) * den,
            w == scale_up(k) * den,
            pow2(e) * a == p * scale_up(k),
    ;
    assert(w > 0) by (nonlinear_arith)
        requires
            w == scale_up(k) * den,
            scale_up(k) > 0,
            den > 0,
    ;
    let sp = s * p;
    assert((s * d) * a == sp * w && ((s + 1) * d) * a == (sp + p) * w && ((2 * s + 1) * d) * a == (
    2 * sp + p) * w) by (nonlinear_arith)
        requires
            d * a == p * w,
            sp == s * p,
    ;
    assert(q * w == sp * w + r * w && (q + 1) * w == sp * w + r * w + w) by (nonlinear_arith)
        requires
            q == sp + r,
    ;
    assert((sp + p) * w == sp * w + p * w && (2 * sp + p) * w == 2 * (sp * w) + p * w)
        by (nonlinear_arith);
    assert(p * w == 2 * (half * w)) by (nonlinear_arith)
        requires
            p == 2 * half,
    ;
    assert(r * w + w <= p * w && 0 <= r * w) by (nonlinear_arith)
        requires
            0 <= r < p,
            w > 0,
    ;
    assert((s * d) * a <= x);
    assert(x < ((s + 1) * d) * a);
    assert(r > half ==> r * w > half * w) by (nonlinear_arith)
        requires
            w > 0,
    ;
    assert(r < half ==> r * w + w <= half * w) by (nonlinear_arith)
        requires
            w > 0,
    ;
    let mid = ((2 * s + 1) * d) * a;
    assert(r > half ==> mid < 2 * x);
    assert(r < half ==> 2 * x < mid);
    assert(r == half ==> mid <= 2 * x && (mid == 2 * x <==> !sticky));
    assert(s * d <= num) by (nonlinear_arith)
        requires
            (s * d) * a <= num * a,
            a > 0,
    ;
    assert(num < (s + 1) * d) by (nonlinear_arith)
        requires
            num * a < ((s + 1) * d) * a,
            a > 0,
    ;
    let c = (2 * s + 1) * d;
    assert(c * a < 2 * (num * a) ==> c < 2 * num) by (nonlinear_arith)
        requires
            a > 0,
    ;
    assert(c * a > 2 * (num * a) ==> c > 2 * num) by (nonlinear_arith)
        requires
            a > 0,
    ;
    assert(c * a == 2 * (num * a) ==> c == 2 * num) by (nonlinear_arith)
        requires
            a > 0,
    ;
}

/// The magnitude bits nearest to `num / den`, which lies at `q * 2^k` units.
pub(crate) fn round(q: u128, k: i32, sticky: bool, num: Ghost<int>, den: Ghost<int>) -> (m: u32)
    requires
        q < 0x10_0000_0000_0000_0000_0000_0000,
        -1000 <= k <= 1000,
        num@ >= 0,
        den@ > 0,
        brackets(q as int, k as int, sticky, num@, den@),
        sticky ==> q >= 0x200_0000,
    ensures
        nearest(m as int, num@, den@),
{
    let ghost num = num@;
    let ghost den = den@;
    if q == 0 {
        proof {
            lemma_scales(k as int, 0, -k as int);
            assert(q * (scale_up(k as int) * den) == 0) by (nonlinear_arith)
                requires
                    q == 0,
            ;
            assert(num == 0) by (nonlinear_arith)
                requires
                    num * scale_down(k as int) == 0,
                    scale_down(k as int) > 0,
            ;
            assert(units(0) + units(1) == 1);
            assert(2 * num < (units(0) + units(1)) * den);
        }
        return 0;
    }
    let h = high_bit(q) as i32;
    let e: i32 = if k + h >= 23 {
        k + h - 23
    } else {
        0
    };
    let shift: i32 = e - k;
    let ghost eg = e as nat;
    let s: u32;
    let up: bool;
    proof {
        lemma2_to64();
        lemma2_to64_rest();
    }
    if shift <= 0 {
        proof {
            if sticky {
                if h < 25 {
                    if h < 24 {
                        lemma_pow2_strictly_increases((h + 1) as nat, 25);
                    }
                    assert(false);
                }
            }
            // No bit is dropped: the significand is `q` shifted up.
            lemma_scales(k as int, eg, shift as int);
            lemma_pow2_adds((h + 1) as nat, (-shift) as nat);
            lemma_pow2_adds(h as nat, (-shift) as nat);
            if h + 1 - shift < 24 {
                lemma_pow2_strictly_increases((h + 1 - shift) as nat, 24);
            }
            lemma_pow2_pos((-shift) as nat);
            assert(q * pow2((-shift) as nat) < pow2(24) && q * pow2((-shift) as nat) >= pow2(
                h as nat,
            ) * pow2((-shift) as nat)) by (nonlinear_arith)
                requires
                    pow2(h as nat) <= q < pow2((h + 1) as nat),
                    pow2((h + 1) as nat) * pow2((-shift) as nat) <= pow2(24),
                    pow2((-shift) as nat) > 0,
            ;
        }
        let t: u128 = q * power((-shift) as u32);
        s = t as u32;
        up = false;
        proof {
            let a = scale_down(k as int);
            let d = pow2(eg) * den;
            assert(s * d == num) by (nonlinear_arith)
                requires
                    s == q * pow2((-shift) as nat),
                    d == pow2(eg) * den,
                    pow2(eg) * a * pow2((-shift) as nat) == scale_up(k as int),
                    q * (scale_up(k as int) * den) == num * a,
                    a > 0,
            ;
            lemma_pow2_pos(eg);
            assert(d > 0 && 2 * (s * d) < (2 * s + 1) * d && s * d < (s + 1) * d)
                by (nonlinear_arith)
                requires
                    d == pow2(eg) * den,
                    pow2(eg) > 0,
                    den > 0,
            ;
        }
    } else if shift > h + 1 {
        // Less than half of the smallest unit.
        s = 0;
        up = false;
        proof {
            assert(e == 0);
            lemma_scales(k as int, 0, shift as int);
            let a = scale_down(k as int);
            lemma_pow2_adds((h + 1) as nat, 1);
            if h + 2 < shift {
                lemma_pow2_strictly_increases((h + 2) as nat, shift as nat);
            }
            assert(2 * num < den) by (nonlinear_arith)
                requires
                    num * a < (q + 1) * (1 * den),
                    q + 1 <= pow2((h + 1) as nat),
                    2 * pow2((h + 1) as nat) <= a,
                    a > 0,
                    den > 0,
            ;
        }
    } else {
        let p = power(shift as u32);
        let half = power((shift - 1) as u32);
        let sig: u128 = q / p;
        let r: u128 = q % p;
        proof {
            lemma_pow2_unfold(shift as nat);
            assert(q == sig * p + r) by (nonlinear_arith)
                requires
                    sig == q / p,
                    r == q % p,
                    p > 0,
            ;
            lemma_pow2_adds((h + 1 - shift) as nat, shift as nat);
            if h + 1 - shift < 24 {
                lemma_pow2_strictly_increases((h + 1 - shift) as nat, 24);
            }
            assert(sig < pow2(24)) by (nonlinear_arith)
                requires
                    q == sig * p + r,
                    r >= 0,
                    q < pow2((h + 1 - shift) as nat) * p,
                    pow2((h + 1 - shift) as nat) <= pow2(24),
                    p > 0,
            ;
            if e > 0 {
                lemma_pow2_adds(23, shift as nat);
                assert(sig >= pow2(23)) by (nonlinear_arith)
                    requires
                        q == sig * p + r,
                        r < p,
                        q >= pow2(23) * p,
                        p > 0,
                ;
            }
        }
        s = sig as u32;
        up = r > half || (r == half && (sticky || s % 2 == 1));
        proof {
            lemma_dropped(
                q as int,
                k as int,
                sticky,
                num,
                den,
                eg,
                shift as nat,
                s as int,
                r as int,
                half as int,
                up,
            );
        }
    }
    if e >= 254 {
        proof {
            lemma_overflow(eg, s as int, num, den);
        }
        return INFINITE;
    }
    proof {
        lemma_nearest(eg, s as int, up, num, den);
    }
    let m: u32 = e as u32 * BINADE + s;
    if up {
        m + 1
    } else {
        m
    }
}

proof fn lemma_overflow(e: nat, s: int, num: int, den: int)
    requires
        den > 0,
        e >= 254,
        s >= BINADE,
        s * (pow2(e) * den) <= num,
    ensures
        nearest(INFINITE as int, num, den),
{
    let top = INFINITE as int;
    lemma_units(254, BINADE as int);
    lemma_units_step(top - 1);
    if e > 254 {
        lemma_pow2_strictly_increases(254, e);
    }
    assert((units(top - 1) + units(top)) * den < 2 * num) by (nonlinear_arith)
        requires
            units(top) == BINADE * pow2(254),
            units(top - 1) < units(top),
            s * (pow2(e) * den) <= num,
            s >= BINADE,
            pow2(e) >= pow2(254),
            den > 0,
    ;
}

} // verus!
