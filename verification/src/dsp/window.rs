//! Analysis window functions.
use vstd::arithmetic::power2::*;
use vstd::math::*;
use vstd::prelude::*;

use crate::config::WindowKind;
use crate::order;
use crate::rounding;
use crate::single;
use crate::single::{Single, HALF, ONE, TWO};

verus! {

/// The bits of pi.
pub const PI: u32 = 0x4049_0fdb;

/// The bits of 4.
pub const FOUR: u32 = 0x4080_0000;

/// The bits of 6.
pub const SIX: u32 = 0x40c0_0000;

/// The bits of 0.54.
pub const HAMMING_A: u32 = 0x3f0a_3d71;

/// The bits of 0.46.
pub const HAMMING_B: u32 = 0x3eeb_851f;

/// The bits of 0.35875.
pub const HARRIS_A0: u32 = 0x3eb7_ae14;

/// The bits of 0.48829.
pub const HARRIS_A1: u32 = 0x3efa_0126;

/// The bits of 0.14128.
pub const HARRIS_A2: u32 = 0x3e10_abb4;

/// The bits of 0.01168.
pub const HARRIS_A3: u32 = 0x3c3f_5d79;

/// The angle `multiple * pi * i / n`.
pub open spec fn angle(multiple: u32, i: int, n: int) -> Single {
    (Single { bits: multiple }).product(Single { bits: PI }).product(
        Single::of_integer(i).quotient(Single::of_integer(n)),
    )
}

/// `w` is coefficient `i` of a window of length `n`, for some cosines that
/// `cosine` gives at its angles.
pub open spec fn is_coefficient<C: Fn(Single) -> Single>(
    kind: WindowKind,
    n: int,
    i: int,
    cosine: C,
    w: Single,
) -> bool {
    match kind {
        WindowKind::Hann => exists|c: Single| #[trigger]
            call_ensures(cosine, (angle(TWO, i, n),), c) && w == (Single {
                bits: HALF,
            }).difference((Single { bits: HALF }).product(c)),
        WindowKind::Hamming => exists|c: Single| #[trigger]
            call_ensures(cosine, (angle(TWO, i, n),), c) && w == (Single {
                bits: HAMMING_A,
            }).difference((Single { bits: HAMMING_B }).product(c)),
        WindowKind::BlackmanHarris => exists|c1: Single, c2: Single, c3: Single|
            {
                &&& #[trigger] call_ensures(cosine, (angle(TWO, i, n),), c1)
                &&& #[trigger] call_ensures(cosine, (angle(FOUR, i, n),), c2)
                &&& #[trigger] call_ensures(cosine, (angle(SIX, i, n),), c3)
                &&& w == (Single { bits: HARRIS_A0 }).difference(
                    (Single { bits: HARRIS_A1 }).product(c1),
                ).sum((Single { bits: HARRIS_A2 }).product(c2)).difference(
                    (Single { bits: HARRIS_A3 }).product(c3),
                )
            },
    }
}

/// `w` is a window of `n` coefficients: a single one is 1, and more follow the formula.
pub open spec fn is_window<C: Fn(Single) -> Single>(
    kind: WindowKind,
    n: int,
    cosine: C,
    w: Seq<Single>,
) -> bool {
    &&& w.len() == n
    &&& n == 1 ==> w[0].bits == ONE
    &&& n > 1 ==> forall|i: int|
        0 <= i < n ==> is_coefficient(kind, n, i, cosine, #[trigger] w[i])
}

fn phase(multiple: u32, i: usize, n: usize) -> (r: Single)
    ensures
        r == angle(multiple, i as int, n as int),
{
    (Single { bits: multiple }).times(Single { bits: PI }).times(
        Single::from_u64(i as u64).over(Single::from_u64(n as u64)),
    )
}

fn coefficient<C: Fn(Single) -> Single>(kind: WindowKind, n: usize, i: usize, cosine: &C) -> (w:
    Single)
    requires
        forall|x: Single| call_requires(*cosine, (x,)),
    ensures
        is_coefficient(kind, n as int, i as int, *cosine, w),
{
    match kind {
        WindowKind::Hann => {
            let c = cosine(phase(TWO, i, n));
            (Single { bits: HALF }).minus((Single { bits: HALF }).times(c))
        },
        WindowKind::Hamming => {
            let c = cosine(phase(TWO, i, n));
            (Single { bits: HAMMING_A }).minus((Single { bits: HAMMING_B }).times(c))
        },
        WindowKind::BlackmanHarris => {
            let c1 = cosine(phase(TWO, i, n));
            let c2 = cosine(phase(FOUR, i, n));
            let c3 = cosine(phase(SIX, i, n));
            (Single { bits: HARRIS_A0 }).minus((Single { bits: HARRIS_A1 }).times(c1)).plus(
                (Single { bits: HARRIS_A2 }).times(c2),
            ).minus((Single { bits: HARRIS_A3 }).times(c3))
        },
    }
}

/// Compute window coefficients of length `n` for the given [`WindowKind`], with
/// the cosines that `cosine` gives.
///
/// Each window has its "periodic" (DFT-even) form, with denominator `n` rather
/// than `n - 1`, which avoids a discontinuity when frames are laid end to end.
pub fn coefficients<C: Fn(Single) -> Single>(kind: WindowKind, n: usize, cosine: &C) -> (w: Vec<
    Single,
>)
    requires
        forall|x: Single| call_requires(*cosine, (x,)),
    ensures
        is_window(kind, n as int, *cosine, w@),
{
    let mut w: Vec<Single> = Vec::new();
    if n == 1 {
        w.push(Single { bits: ONE });
        return w;
    }
    let mut i: usize = 0;
    while i < n
        invariant
            i <= n,
            n != 1,
            w.len() == i,
            forall|x: Single| call_requires(*cosine, (x,)),
            forall|k: int|
                0 <= k < i ==> is_coefficient(kind, n as int, k, *cosine, #[trigger] w[k]),
        decreases n - i,
    {
        w.push(coefficient(kind, n, i, cosine));
        i = i + 1;
    }
    w
}

/// What the constants stand for.
proof fn lemma_constants()
    ensures
        (Single { bits: FOUR }).value() == 4 * pow2(149),
        (Single { bits: SIX }).value() == 6 * pow2(149),
        0x200_0000 * abs(100_000_000 * (Single { bits: PI }).value() - 314_159_265 * pow2(149))
            <= 314_159_265 * pow2(149),
        0x4_0000 * abs(100 * (Single { bits: HAMMING_A }).value() - 54 * pow2(149)) <= pow2(149),
        0x4_0000 * abs(100 * (Single { bits: HAMMING_B }).value() - 46 * pow2(149)) <= pow2(149),
        0x80 * abs(100_000 * (Single { bits: HARRIS_A0 }).value() - 35_875 * pow2(149)) <= pow2(
            149,
        ),
        0x80 * abs(100_000 * (Single { bits: HARRIS_A1 }).value() - 48_829 * pow2(149)) <= pow2(
            149,
        ),
        0x80 * abs(100_000 * (Single { bits: HARRIS_A2 }).value() - 14_128 * pow2(149)) <= pow2(
            149,
        ),
        0x80 * abs(100_000 * (Single { bits: HARRIS_A3 }).value() - 1_168 * pow2(149)) <= pow2(149),
{
    lemma2_to64();
    rounding::lemma_units(128, 0x80_0000);
    rounding::lemma_units(128, 0xc0_0000);
    lemma_pow2_adds(21, 128);
    rounding::lemma_units(127, 0xc9_0fdb);
    lemma_pow2_adds(22, 127);
    rounding::lemma_units(125, 0x8a_3d71);
    lemma_pow2_adds(24, 125);
    rounding::lemma_units(124, 0xeb_851f);
    rounding::lemma_units(124, 0xb7_ae14);
    rounding::lemma_units(124, 0xfa_0126);
    lemma_pow2_adds(25, 124);
    rounding::lemma_units(123, 0x90_abb4);
    lemma_pow2_adds(26, 123);
    rounding::lemma_units(119, 0xbf_5d79);
    lemma_pow2_adds(30, 119);
    lemma_pow2_pos(119);
    lemma_pow2_pos(123);
    lemma_pow2_pos(124);
    lemma_pow2_pos(125);
    lemma_pow2_pos(127);
}

/// A factor keeps a relative error.
proof fn lemma_scale(x: int, y: int, f: int, fx: int, fy: int)
    requires
        0x100_0000 * abs(x - y) <= y,
        f >= 0,
        fx == f * x,
        fy == f * y,
    ensures
        0x100_0000 * abs(fx - fy) <= fy,
{
    let d = x - y;
    assert(0x100_0000 * (f * d) <= fy && -0x100_0000 * (f * d) <= fy && fx - fy == f * d)
        by (nonlinear_arith)
        requires
            0x100_0000 * d <= y,
            -0x100_0000 * d <= y,
            d == x - y,
            f >= 0,
            fx == f * x,
            fy == f * y,
    ;
}

/// The angle `m * pi * i / n`, up to a millionth.
proof fn lemma_angle(multiple: u32, m: int, i: int, n: int)
    requires
        multiple == TWO && m == 2 || multiple == FOUR && m == 4 || multiple == SIX && m == 6,
        0 <= i < n <= 0x100_0000,
    ensures
        angle(multiple, i, n).finite(),
        0x10_0000 * abs(
            100_000_000 * (n * angle(multiple, i, n).value()) - m * 314_159_265 * (i * pow2(149)),
        ) <= m * 314_159_265 * (i * pow2(149)),
{
    let u = pow2(149) as int;
    let (a, b) = (Single::of_integer(i), Single::of_integer(n));
    let times = Single { bits: multiple };
    let pi = Single { bits: PI };
    let p = times.product(pi);
    let q = a.quotient(b);
    let r = p.product(q);
    lemma_constants();
    order::lemma_two();
    lemma_pow2_pos(149);
    lemma2_to64();
    lemma_pow2_strictly_increases(60, 149);
    lemma_pow2_adds(30, 30);
    lemma_pow2_adds(11, 149);
    order::whole_numbers_are_exact(i);
    order::whole_numbers_are_exact(n);
    order::lemma_conversion(n);
    let pv = pi.value();
    assert(3 * u <= pv <= 4 * u);
    // The multiple of pi.
    let mp = m * pv;
    assert(times.value() * pv == mp * u) by (nonlinear_arith)
        requires
            times.value() == m * u,
            mp == m * pv,
    ;
    assert(6 * u <= mp <= 24 * u) by (nonlinear_arith)
        requires
            mp == m * pv,
            2 <= m <= 6,
            3 * u <= pv <= 4 * u,
    ;
    assert(0x80_0000 * u <= mp * u && mp * u <= pow2(160) * u) by (nonlinear_arith)
        requires
            0x80_0000 <= mp <= pow2(160),
            u > 0,
    ;
    order::lemma_product_relative(times, pi, 160);
    let v = p.value();
    assert(0x100_0000 * (v - mp) <= mp && 0x100_0000 * (mp - v) <= mp) by (nonlinear_arith)
        requires
            0x100_0000 * (v * u - mp * u) <= mp * u,
            0x100_0000 * (mp * u - v * u) <= mp * u,
            u > 0,
    ;
    if i == 0 {
        assert(i * u == 0 && n * 0 == 0) by (nonlinear_arith)
            requires
                i == 0,
        ;
        rounding::lemma_units(0, 0);
        if a.magnitude() > 0 {
            rounding::lemma_units_increase(0, a.magnitude());
        }
        order::zero_stays_zero(a, b);
        order::product_commutes(p, q);
        order::zero_stays_zero(q, p);
        assert(r.value() == 0);
    } else {
        let iu = i * u;
        let nu = n * u;
        assert(0x80_0000 * nu <= iu * u && iu * u <= pow2(160) * nu && iu <= nu && nu
            <= 0x100_0000 * iu) by (nonlinear_arith)
            requires
                iu == i * u,
                nu == n * u,
                1 <= i <= n <= 0x100_0000,
                u >= 0x80_0000 * 0x100_0000,
                pow2(160) >= u,
        ;
        order::lemma_quotient_relative(a, b, 160);
        let w = q.value();
        let wn = n * w;
        assert(0x100_0000 * (wn - iu) <= iu && 0x100_0000 * (iu - wn) <= iu) by (nonlinear_arith)
            requires
                0x100_0000 * (w * nu - iu * u) <= iu * u,
                0x100_0000 * (iu * u - w * nu) <= iu * u,
                nu == n * u,
                wn == n * w,
                u > 0,
        ;
        let vw = v * w;
        assert(w >= 0x80_0000 && w <= 2 * u) by (nonlinear_arith)
            requires
                2 * wn >= iu,
                wn <= 2 * iu,
                wn == n * w,
                iu == i * u,
                1 <= i < n <= 0x100_0000,
                u >= 2 * 0x80_0000 * 0x100_0000,
        ;
        assert(0x80_0000 * u <= vw && vw <= pow2(160) * u) by (nonlinear_arith)
            requires
                vw == v * w,
                u <= v <= 48 * u,
                0x80_0000 <= w <= 2 * u,
                pow2(160) >= 96 * u,
                u > 0,
        ;
        order::lemma_product_relative(p, q, 160);
        // One step after the other.
        let s = r.value();
        assert(iu > 0) by (nonlinear_arith)
            requires
                iu == i * u,
                i >= 1,
                u > 0,
        ;
        let y0 = m * 314_159_265 * iu * u;
        let y1 = 100_000_000 * (mp * (i * u));
        let y2 = 100_000_000 * (v * (i * u));
        let y3 = 100_000_000 * (v * wn);
        let y4 = 100_000_000 * (n * (s * u));
        assert(0x200_0000 * (y1 - y0) <= y0 && 0x200_0000 * (y0 - y1) <= y0) by (nonlinear_arith)
            requires
                0x200_0000 * (100_000_000 * pv - 314_159_265 * u) <= 314_159_265 * u,
                0x200_0000 * (314_159_265 * u - 100_000_000 * pv) <= 314_159_265 * u,
                y0 == m * 314_159_265 * iu * u,
                y1 == 100_000_000 * (mp * (i * u)),
                mp == m * pv,
                iu == i * u,
                iu > 0,
                m > 0,
        ;
        lemma_scale(v, mp, iu, iu * v, iu * mp);
        assert(iu * v == v * (i * u) && iu * mp == mp * (i * u)) by (nonlinear_arith)
            requires
                iu == i * u,
        ;
        lemma_scale(wn, iu, v, v * wn, v * iu);
        lemma_scale(s * u, vw, n, n * (s * u), n * vw);
        assert(n * vw == v * wn) by (nonlinear_arith)
            requires
                vw == v * w,
                wn == n * w,
        ;
        assert(0x100_0000 * abs(y2 - y1) <= y1);
        assert(0x100_0000 * abs(y3 - y2) <= y2);
        assert(0x100_0000 * abs(y4 - y3) <= y3);
        assert(0x10_0000 * (y4 - y0) <= y0 && 0x10_0000 * (y0 - y4) <= y0);
        let x = 100_000_000 * (n * s);
        let z = m * 314_159_265 * iu;
        assert(n * (s * u) == (n * s) * u) by (nonlinear_arith);
        assert(y4 == x * u) by (nonlinear_arith)
            requires
                y4 == 100_000_000 * (n * (s * u)),
                n * (s * u) == (n * s) * u,
                x == 100_000_000 * (n * s),
        ;
        assert(0x10_0000 * (x - z) <= z && 0x10_0000 * (z - x) <= z) by (nonlinear_arith)
            requires
                0x10_0000 * (y4 - y0) <= y0,
                0x10_0000 * (y0 - y4) <= y0,
                y0 == z * u,
                y4 == x * u,
                u > 0,
        ;
    }
}

/// A constant below 1 times a cosine.
proof fn lemma_term(k: Single, c: Single)
    requires
        k.finite(),
        0 <= k.rank() <= ONE,
        c.finite(),
        abs(c.value()) <= pow2(149),
    ensures
        k.product(c).finite(),
        abs(k.product(c).value()) <= pow2(149),
        0x100_0000 * abs(k.product(c).value() * pow2(149) - k.value() * c.value()) <= pow2(149)
            * pow2(149),
{
    let u = pow2(149) as int;
    let one = Single { bits: ONE };
    lemma_pow2_pos(149);
    lemma2_to64();
    lemma_pow2_strictly_increases(24, 149);
    order::lemma_one();
    rounding::lemma_units(0, 0);
    single::order_is_by_value(k, one);
    single::order_is_by_value(Single { bits: 0 }, k);
    order::product_commutes(k, c);
    order::product_within(c, k);
    order::lemma_product_error(k, c);
    let (kv, cv) = (k.value(), c.value());
    assert(-(u * u) <= kv * cv <= u * u && 0x80_0000 * u <= u * u) by (nonlinear_arith)
        requires
            0 <= kv <= u,
            -u <= cv <= u,
            u >= 0x80_0000,
    ;
}

/// A sum or difference of numbers of moderate size.
proof fn lemma_moderate(a: Single, b: Single, size: int)
    requires
        a.finite(),
        b.finite(),
        1 <= size <= 8,
        abs(a.value()) + abs(b.value()) <= size * pow2(149),
    ensures
        a.sum(b).finite(),
        a.difference(b).finite(),
        0x100_0000 * abs(a.sum(b).value() - (a.value() + b.value())) <= size * pow2(149),
        0x100_0000 * abs(a.difference(b).value() - (a.value() - b.value())) <= size * pow2(149),
{
    lemma_pow2_strictly_increases(152, 276);
    lemma2_to64();
    lemma_pow2_adds(3, 149);
    lemma_pow2_pos(149);
    assert(size * pow2(149) <= 8 * pow2(149)) by (nonlinear_arith)
        requires
            size <= 8,
    ;
    assert(size * pow2(149) >= 0) by (nonlinear_arith)
        requires
            size >= 1,
    ;
    order::operations_are_near(a, b);
}

proof fn lemma_hann(c: Single, w: Single)
    requires
        c.finite(),
        abs(c.value()) <= pow2(149),
        w == (Single { bits: HALF }).difference((Single { bits: HALF }).product(c)),
    ensures
        w.finite(),
        0x10_0000 * abs(2 * w.value() - (pow2(149) - c.value())) <= pow2(149),
{
    let u = pow2(149) as int;
    let half = Single { bits: HALF };
    lemma_pow2_pos(149);
    order::lemma_one();
    order::lemma_half();
    lemma_term(half, c);
    lemma_moderate(half, half.product(c), 4);
    let (h, v, x) = (half.value(), c.value(), w.value());
    lemma_affine_term(u, h, h, v, half.product(c).value(), x);
    let e = x * u - (h * u - h * v);
    let r = 2 * x - (u - v);
    let ru = r * u;
    let uu = u * u;
    assert(ru == 2 * e) by (nonlinear_arith)
        requires
            ru == r * u,
            r == 2 * x - (u - v),
            e == x * u - (h * u - h * v),
            2 * h == u,
    ;
    assert(-uu <= 0x10_0000 * ru <= uu);
    assert(-u <= 0x10_0000 * r <= u) by (nonlinear_arith)
        requires
            -uu <= 0x10_0000 * ru <= uu,
            ru == r * u,
            uu == u * u,
            u > 0,
    ;
}

proof fn lemma_hamming(c: Single, w: Single)
    requires
        c.finite(),
        abs(c.value()) <= pow2(149),
        w == (Single { bits: HAMMING_A }).difference((Single { bits: HAMMING_B }).product(c)),
    ensures
        w.finite(),
        0x2000 * abs(100 * w.value() - (54 * pow2(149) - 46 * c.value())) <= pow2(149),
{
    let u = pow2(149) as int;
    let (ka, kb) = (Single { bits: HAMMING_A }, Single { bits: HAMMING_B });
    lemma_pow2_pos(149);
    lemma_constants();
    lemma_term(kb, c);
    lemma_moderate(ka, kb.product(c), 4);
    let (a, b, v, x) = (ka.value(), kb.value(), c.value(), w.value());
    lemma_affine_term(u, a, b, v, kb.product(c).value(), x);
    let uu = u * u;
    let (da, db) = (100 * a - 54 * u, 100 * b - 46 * u);
    let (dau, dbv) = (da * u, db * v);
    let r = 100 * x - (54 * u - 46 * v);
    let ru = r * u;
    let e = x * u - (a * u - b * v);
    assert(ru == 100 * e + dau - dbv) by (nonlinear_arith)
        requires
            ru == r * u,
            r == 100 * x - (54 * u - 46 * v),
            e == x * u - (a * u - b * v),
            dau == da * u,
            dbv == db * v,
            da == 100 * a - 54 * u,
            db == 100 * b - 46 * u,
    ;
    assert(-uu <= 0x4_0000 * dau <= uu && -uu <= 0x4_0000 * dbv <= uu) by (nonlinear_arith)
        requires
            uu == u * u,
            dau == da * u,
            dbv == db * v,
            -u <= 0x4_0000 * da <= u,
            -u <= 0x4_0000 * db <= u,
            -u <= v <= u,
            u > 0,
    ;
    assert(-uu <= 0x2000 * ru <= uu);
    assert(-u <= 0x2000 * r <= u) by (nonlinear_arith)
        requires
            -uu <= 0x2000 * ru <= uu,
            ru == r * u,
            uu == u * u,
            u > 0,
    ;
}

proof fn lemma_harris(c1: Single, c2: Single, c3: Single, w: Single)
    requires
        c1.finite(),
        c2.finite(),
        c3.finite(),
        abs(c1.value()) <= pow2(149),
        abs(c2.value()) <= pow2(149),
        abs(c3.value()) <= pow2(149),
        w == (Single { bits: HARRIS_A0 }).difference(
            (Single { bits: HARRIS_A1 }).product(c1),
        ).sum((Single { bits: HARRIS_A2 }).product(c2)).difference(
            (Single { bits: HARRIS_A3 }).product(c3),
        ),
    ensures
        w.finite(),
        4 * abs(
            100_000 * w.value() - (35_875 * pow2(149) - 48_829 * c1.value() + 14_128 * c2.value()
                - 1_168 * c3.value()),
        ) <= pow2(149),
{
    let (k0, k1) = (Single { bits: HARRIS_A0 }, Single { bits: HARRIS_A1 });
    let (k2, k3) = (Single { bits: HARRIS_A2 }, Single { bits: HARRIS_A3 });
    lemma_constants();
    lemma_harris_term(k1, c1, 48_829);
    lemma_harris_term(k2, c2, 14_128);
    lemma_harris_term(k3, c3, 1_168);
    lemma_harris_sum(
        k0,
        k1.product(c1),
        k2.product(c2),
        k3.product(c3),
        (c1.value(), c2.value(), c3.value()),
    );
}

proof fn lemma_harris_term(k: Single, c: Single, d: int)
    requires
        k.finite(),
        0 <= k.rank() <= ONE,
        c.finite(),
        abs(c.value()) <= pow2(149),
        0x80 * abs(100_000 * k.value() - d * pow2(149)) <= pow2(149),
    ensures
        k.product(c).finite(),
        abs(k.product(c).value()) <= pow2(149),
        0x40 * abs(100_000 * k.product(c).value() - d * c.value()) <= pow2(149),
{
    lemma_pow2_pos(149);
    lemma_term(k, c);
    lemma_constant_term(pow2(149) as int, k.value(), c.value(), k.product(c).value(), d);
}

proof fn lemma_harris_sum(k: Single, x: Single, y: Single, z: Single, c: (int, int, int))
    requires
        k.finite(),
        x.finite(),
        y.finite(),
        z.finite(),
        abs(k.value()) <= pow2(149),
        abs(x.value()) <= pow2(149),
        abs(y.value()) <= pow2(149),
        abs(z.value()) <= pow2(149),
        0x80 * abs(100_000 * k.value() - 35_875 * pow2(149)) <= pow2(149),
        0x40 * abs(100_000 * x.value() - 48_829 * c.0) <= pow2(149),
        0x40 * abs(100_000 * y.value() - 14_128 * c.1) <= pow2(149),
        0x40 * abs(100_000 * z.value() - 1_168 * c.2) <= pow2(149),
    ensures
        k.difference(x).sum(y).difference(z).finite(),
        4 * abs(
            100_000 * k.difference(x).sum(y).difference(z).value() - (35_875 * pow2(149) - 48_829
                * c.0 + 14_128 * c.1 - 1_168 * c.2),
        ) <= pow2(149),
{
    let u = pow2(149) as int;
    lemma_pow2_pos(149);
    let s = k.difference(x);
    let t = s.sum(y);
    let w = t.difference(z);
    lemma_moderate(k, x, 2);
    assert(abs(s.value()) <= 3 * u);
    lemma_moderate(s, y, 4);
    assert(abs(t.value()) <= 5 * u);
    lemma_moderate(t, z, 6);
    lemma_harris_errors(
        u,
        (k.value(), x.value(), y.value(), z.value()),
        (s.value(), t.value(), w.value()),
        c,
    );
}

/// How the errors of a Blackman-Harris coefficient add up.
proof fn lemma_harris_errors(
    u: int,
    x: (int, int, int, int),
    s: (int, int, int),
    c: (int, int, int),
)
    requires
        u > 0,
        0x80 * abs(100_000 * x.0 - 35_875 * u) <= u,
        0x40 * abs(100_000 * x.1 - 48_829 * c.0) <= u,
        0x40 * abs(100_000 * x.2 - 14_128 * c.1) <= u,
        0x40 * abs(100_000 * x.3 - 1_168 * c.2) <= u,
        0x100_0000 * abs(s.0 - (x.0 - x.1)) <= 2 * u,
        0x100_0000 * abs(s.1 - (s.0 + x.2)) <= 4 * u,
        0x100_0000 * abs(s.2 - (s.1 - x.3)) <= 6 * u,
    ensures
        4 * abs(100_000 * s.2 - (35_875 * u - 48_829 * c.0 + 14_128 * c.1 - 1_168 * c.2)) <= u,
{
    let e = (s.0 - (x.0 - x.1)) + (s.1 - (s.0 + x.2)) + (s.2 - (s.1 - x.3));
    assert(-(12 * u) <= 0x100_0000 * e <= 12 * u);
    let d0 = 100_000 * x.0 - 35_875 * u;
    let d1 = 100_000 * x.1 - 48_829 * c.0;
    let d2 = 100_000 * x.2 - 14_128 * c.1;
    let d3 = 100_000 * x.3 - 1_168 * c.2;
    let d = d0 - d1 + d2 - d3;
    assert(-(4 * u) <= 0x40 * d <= 4 * u);
    let r = 100_000 * s.2 - (35_875 * u - 48_829 * c.0 + 14_128 * c.1 - 1_168 * c.2);
    assert(r == 100_000 * e + d);
    assert(-u <= 4 * r <= u);
}

/// What coefficient `i` of a window of `n` is made of: `cosine` is asked for the angles
/// `2 pi i / n` (and twice and three times that), up to a millionth, and the
/// coefficient is `(1 - c) / 2` for Hann, `0.54 - 0.46 c` for Hamming, and
/// `0.35875 - 0.48829 c + 0.14128 c' - 0.01168 c''` for Blackman-Harris, up to rounding.
/// (Values are in units of `2^-149`.) Returns the angles and the cosines.
pub proof fn coefficients_follow_the_formulas<C: Fn(Single) -> Single>(
    kind: WindowKind,
    n: int,
    cosine: C,
    w: Seq<Single>,
    i: int,
) -> (asked: (Single, Single, Single, Single, Single, Single))
    requires
        is_window(kind, n, cosine, w),
        1 < n <= 0x100_0000,
        0 <= i < n,
        forall|x: Single, c: Single| #[trigger]
            call_ensures(cosine, (x,), c) ==> c.finite() && abs(c.value()) <= pow2(149),
    ensures
        w.len() == n,
        w[i].finite(),
        call_ensures(cosine, (asked.0,), asked.3),
        asked.0.finite(),
        0x10_0000 * abs(
            100_000_000 * (n * asked.0.value()) - 628_318_530 * (i * pow2(149)),
        ) <= 628_318_530 * (i * pow2(149)),
        kind == WindowKind::Hann ==> 0x10_0000 * abs(
            2 * w[i].value() - (pow2(149) - asked.3.value()),
        ) <= pow2(149),
        kind == WindowKind::Hamming ==> 0x2000 * abs(
            100 * w[i].value() - (54 * pow2(149) - 46 * asked.3.value()),
        ) <= pow2(149),
        kind == WindowKind::BlackmanHarris ==> {
            &&& call_ensures(cosine, (asked.1,), asked.4)
            &&& call_ensures(cosine, (asked.2,), asked.5)
            &&& asked.1.finite() && asked.2.finite()
            &&& 0x10_0000 * abs(
                100_000_000 * (n * asked.1.value()) - 1_256_637_060 * (i * pow2(149)),
            ) <= 1_256_637_060 * (i * pow2(149))
            &&& 0x10_0000 * abs(
                100_000_000 * (n * asked.2.value()) - 1_884_955_590 * (i * pow2(149)),
            ) <= 1_884_955_590 * (i * pow2(149))
            &&& 4 * abs(
                100_000 * w[i].value() - (35_875 * pow2(149) - 48_829 * asked.3.value() + 14_128
                    * asked.4.value() - 1_168 * asked.5.value()),
            ) <= pow2(149)
        },
{
    let half = Single { bits: HALF };
    lemma_angle(TWO, 2, i, n);
    lemma_angle(FOUR, 4, i, n);
    lemma_angle(SIX, 6, i, n);
    let (a1, a2, a3) = (angle(TWO, i, n), angle(FOUR, i, n), angle(SIX, i, n));
    assert(is_coefficient(kind, n, i, cosine, w[i]));
    match kind {
        WindowKind::Hann => {
            let c = choose|c: Single| #[trigger]
                call_ensures(cosine, (a1,), c) && w[i] == half.difference(half.product(c));
            lemma_hann(c, w[i]);
            (a1, a2, a3, c, c, c)
        },
        WindowKind::Hamming => {
            let (ka, kb) = (Single { bits: HAMMING_A }, Single { bits: HAMMING_B });
            let c = choose|c: Single| #[trigger]
                call_ensures(cosine, (a1,), c) && w[i] == ka.difference(kb.product(c));
            lemma_hamming(c, w[i]);
            (a1, a2, a3, c, c, c)
        },
        WindowKind::BlackmanHarris => {
            let (k0, k1) = (Single { bits: HARRIS_A0 }, Single { bits: HARRIS_A1 });
            let (k2, k3) = (Single { bits: HARRIS_A2 }, Single { bits: HARRIS_A3 });
            let (c1, c2, c3) = choose|c1: Single, c2: Single, c3: Single|
                {
                    &&& #[trigger] call_ensures(cosine, (a1,), c1)
                    &&& #[trigger] call_ensures(cosine, (a2,), c2)
                    &&& #[trigger] call_ensures(cosine, (a3,), c3)
                    &&& w[i] == k0.difference(k1.product(c1)).sum(k2.product(c2)).difference(
                        k3.product(c3),
                    )
                };
            lemma_harris(c1, c2, c3, w[i]);
            (a1, a2, a3, c1, c2, c3)
        },
    }
}

proof fn lemma_affine_term(u: int, a: int, b: int, c: int, x: int, w: int)
    requires
        u > 0,
        0x100_0000 * abs(x * u - b * c) <= u * u,
        0x40_0000 * abs(w - (a - x)) <= u,
    ensures
        0x20_0000 * abs(w * u - (a * u - b * c)) <= u * u,
{
    let uu = u * u;
    let e = w - (a - x);
    let eu = e * u;
    assert(-uu <= 0x40_0000 * eu <= uu) by (nonlinear_arith)
        requires
            -u <= 0x40_0000 * e <= u,
            eu == e * u,
            uu == u * u,
            u > 0,
    ;
    let f = x * u - b * c;
    assert(w * u - (a * u - b * c) == eu - f) by (nonlinear_arith)
        requires
            eu == e * u,
            e == w - (a - x),
            f == x * u - b * c,
    ;
}

/// A term in hundred thousandths.
proof fn lemma_constant_term(u: int, k: int, c: int, x: int, d: int)
    requires
        u > 0,
        abs(c) <= u,
        0x80 * abs(100_000 * k - d * u) <= u,
        0x100_0000 * abs(x * u - k * c) <= u * u,
    ensures
        0x40 * abs(100_000 * x - d * c) <= u,
{
    let uu = u * u;
    let e = x * u - k * c;
    let g = 100_000 * k - d * u;
    let gc = g * c;
    assert(-uu <= 0x80 * gc <= uu) by (nonlinear_arith)
        requires
            gc == g * c,
            -u <= 0x80 * g <= u,
            -u <= c <= u,
            uu == u * u,
    ;
    let r = 100_000 * x - d * c;
    let ru = r * u;
    assert(ru == 100_000 * e + gc) by (nonlinear_arith)
        requires
            ru == r * u,
            r == 100_000 * x - d * c,
            e == x * u - k * c,
            gc == g * c,
            g == 100_000 * k - d * u,
    ;
    assert(-uu <= 0x40 * ru <= uu);
    assert(-u <= 0x40 * r <= u) by (nonlinear_arith)
        requires
            -uu <= 0x40 * ru <= uu,
            ru == r * u,
            uu == u * u,
            u > 0,
    ;
}

/// The coefficients that are computed are those of the window asked for, and a window of
/// one is 1.
pub proof fn computed_coefficients_are_the_window<C: Fn(Single) -> Single>(
    kind: WindowKind,
    n: usize,
    cosine: C,
    w: Vec<Single>,
)
    requires
        call_ensures(coefficients::<C>, (kind, n, &cosine), w),
    ensures
        w.len() == n,
        n == 1 ==> w[0].bits == ONE,
        n > 1 ==> is_window(kind, n as int, cosine, w@),
{
}

/// Hann coefficients stay in `[0, 1]`, as long as the cosines stay in `[-1, 1]`.
pub proof fn hann_stays_in_unit_range<C: Fn(Single) -> Single>(cosine: C, n: int, i: int, w: Single)
    requires
        is_coefficient(WindowKind::Hann, n, i, cosine, w),
        forall|x: Single, c: Single| #[trigger]
            call_ensures(cosine, (x,), c) ==> (Single { bits: ONE }).opposite().at_most(c)
                && c.at_most(Single { bits: ONE }),
    ensures
        (Single { bits: 0 }).at_most(w),
        w.at_most(Single { bits: ONE }),
{
    let half = Single { bits: HALF };
    let one = Single { bits: ONE };
    let c = choose|c: Single| #[trigger]
        call_ensures(cosine, (angle(TWO, i, n),), c) && w == half.difference(half.product(c));
    order::lemma_one();
    order::lemma_half();
    order::lemma_opposite(one);
    // Half of the cosine lies between minus one half and one half.
    order::product_with_one(half);
    order::product_commutes(half, one);
    order::product_commutes(half, one.opposite());
    order::product_commutes(half, c);
    order::lemma_product(one.opposite(), half);
    order::lemma_product(c, half);
    order::product_is_monotone(c, one, half);
    order::product_is_monotone(one.opposite(), c, half);
    let x = half.product(c);
    assert(one.opposite().product(half).rank() == -half.rank()) by {
        order::lemma_rank_exact(half.opposite(), pow2(149) as int);
        order::lemma_opposite(half);
        lemma_pow2_pos(149);
        assert(one.opposite().value() * half.value() == half.opposite().value() * pow2(149))
            by (nonlinear_arith)
            requires
                one.opposite().value() == -(pow2(149) as int),
                half.opposite().value() == -half.value(),
        ;
    }
    // What is left of one half lies between zero and one.
    order::lemma_opposite(x);
    order::lemma_opposite(half);
    order::lemma_sum(x.opposite(), half);
    order::sum_commutes(x.opposite(), half);
    order::exact_sum(half, half, one);
    order::self_difference_is_zero(half);
    order::sum_commutes(half.opposite(), half);
    order::sum_is_monotone(x.opposite(), half, half);
    order::sum_is_monotone(half.opposite(), x.opposite(), half);
}

} // verus!
