//! Frequency-axis and dB normalization math.
//!
//! These functions are the CPU-side mirror of the arithmetic performed in the
//! fragment shader.
use vstd::arithmetic::power2::*;
use vstd::math::*;
use vstd::prelude::*;

use crate::config;
use crate::config::Config;
use crate::dsp;
use crate::order;
use crate::rounding;
use crate::single;
use crate::single::{Single, ONE};

verus! {

/// A level's place in the window from floor to ceiling, held to `[0, 1]`; 0 when
/// the window is empty.
pub open spec fn level_position(db: Single, floor: Single, ceiling: Single) -> Single {
    let span = ceiling.difference(floor);
    if span.at_most(Single { bits: 0 }) {
        Single { bits: 0 }
    } else {
        db.difference(floor).quotient(span).clamped(Single { bits: 0 }, Single { bits: ONE })
    }
}

/// Normalize a dB value to `[0, 1]` against the floor/ceiling window.
///
/// `t = clamp((db - floor) / (ceiling - floor), 0, 1)`.
pub fn normalize_db(db: Single, db_floor: Single, db_ceiling: Single) -> (t: Single)
    ensures
        t == level_position(db, db_floor, db_ceiling),
{
    let span = db_ceiling.minus(db_floor);
    if span.le(Single { bits: 0 }) {
        return Single { bits: 0 };
    }
    db.minus(db_floor).over(span).clamp(Single { bits: 0 }, Single { bits: ONE })
}

/// A position is in `[0, 1]`; it is undefined only for an undefined level or a
/// window whose width is not a finite number.
pub proof fn position_is_in_unit_range(db: Single, floor: Single, ceiling: Single)
    ensures
        level_position(db, floor, ceiling).nan() || {
            &&& (Single { bits: 0 }).at_most(level_position(db, floor, ceiling))
            &&& level_position(db, floor, ceiling).at_most(Single { bits: ONE })
        },
        ceiling.difference(floor).finite() && !db.nan() ==> !level_position(
            db,
            floor,
            ceiling,
        ).nan(),
{
    let span = ceiling.difference(floor);
    if span.finite() && !db.nan() && !span.at_most(Single { bits: 0 }) {
        if db.finite() {
            order::lemma_sum(db, floor.opposite());
        }
        order::lemma_quotient_defined(db.difference(floor), span);
    }
}

/// The floor is mapped to 0 and the ceiling to 1, and every level beyond one of
/// them with it.
pub proof fn window_ends_map_to_range_ends(db: Single, floor: Single, ceiling: Single)
    requires
        floor.less(ceiling),
        ceiling.difference(floor).finite(),
    ensures
        db.at_most(floor) ==> level_position(db, floor, ceiling).rank() == 0,
        ceiling.at_most(db) ==> level_position(db, floor, ceiling) == (Single { bits: ONE }),
{
    let zero = Single { bits: 0 };
    let one = Single { bits: ONE };
    let span = ceiling.difference(floor);
    let distance = db.difference(floor);
    order::lemma_difference_positive(floor, ceiling);
    order::self_difference_is_zero(floor);
    order::lemma_quotient(zero, span);
    order::lemma_rank_exact(zero, span.value());
    assert(zero.value() * pow2(149) == zero.value() * span.value())
        by (nonlinear_arith)
        requires
            zero.value() == 0,
    ;
    order::self_quotient_is_one(span);
    if !db.nan() {
        if db.finite() {
            order::lemma_sum(db, floor.opposite());
        }
        order::lemma_quotient_defined(distance, span);
    }
    if db.at_most(floor) {
        order::difference_is_monotone(db, floor, floor);
        order::quotient_is_monotone(distance, zero, span);
    }
    if ceiling.at_most(db) {
        order::difference_is_monotone(ceiling, db, floor);
        order::quotient_is_monotone(span, distance, span);
        if !one.less(distance.quotient(span)) {
            order::lemma_bits_of_rank(distance.quotient(span), one);
        }
    }
}

/// A level is mapped to its share of the window from the floor to the ceiling, within
/// four 2^24ths: to 0 up to the floor, and to 1 from the ceiling on.
pub proof fn positions_are_shares_of_the_window(
    db: Single,
    floor: Single,
    ceiling: Single,
    t: Single,
)
    requires
        call_ensures(normalize_db, (db, floor, ceiling), t),
        db.finite(),
        floor.finite(),
        ceiling.finite(),
        floor.value() < ceiling.value() < floor.value() + pow2(276),
    ensures
        db.value() <= floor.value() ==> t.rank() == 0,
        ceiling.value() <= db.value() ==> t.bits == ONE,
        floor.value() <= db.value() <= ceiling.value() ==> {
            let window = ceiling.value() - floor.value();
            &&& t.finite()
            &&& 0x100_0000 * abs(
                t.value() * window - (db.value() - floor.value()) * pow2(149),
            ) <= 4 * (window * pow2(149))
        },
{
    let u = pow2(149) as int;
    let zero = Single { bits: 0 };
    let one = Single { bits: ONE };
    let span = ceiling.difference(floor);
    let distance = db.difference(floor);
    lemma_pow2_pos(149);
    order::lemma_one();
    rounding::lemma_units(0, 0);
    single::order_is_by_value(floor, ceiling);
    single::order_is_by_value(db, floor);
    single::order_is_by_value(ceiling, db);
    order::operations_are_near(ceiling, floor);
    order::lemma_difference_positive(floor, ceiling);
    window_ends_map_to_range_ends(db, floor, ceiling);
    if floor.value() <= db.value() <= ceiling.value() {
        let w = ceiling.value() - floor.value();
        let x = db.value() - floor.value();
        single::order_is_by_value(floor, db);
        single::order_is_by_value(db, ceiling);
        order::operations_are_near(db, floor);
        order::difference_is_monotone(floor, db, floor);
        order::difference_is_monotone(db, ceiling, floor);
        order::self_difference_is_zero(floor);
        let (s, d) = (span.value(), distance.value());
        single::order_is_by_value(zero, span);
        single::order_is_by_value(zero, distance);
        single::order_is_by_value(distance, span);
        order::lemma_quotient_defined(distance, span);
        order::self_quotient_is_one(span);
        order::quotient_is_monotone(distance, span, span);
        order::zero_stays_zero(zero, span);
        order::quotient_is_monotone(zero, distance, span);
        let q = distance.quotient(span);
        order::operations_are_near(distance, span);
        single::order_is_by_value(zero, q);
        single::order_is_by_value(q, one);
        single::order_is_by_value(zero, t);
        single::order_is_by_value(t, zero);
        assert(t.value() == q.value());
        lemma2_to64();
        lemma_pow2_strictly_increases(24, 149);
        lemma_share_of_window(w, x, s, d, q.value(), u);
    }
}

/// How the errors of a share add up.
proof fn lemma_share_of_window(w: int, x: int, s: int, d: int, q: int, u: int)
    requires
        u >= 0x100_0000,
        0 <= x <= w,
        w > 0,
        0 <= d <= s,
        s > 0,
        0 <= q <= u,
        2 * abs(s - w) <= 1 || 0x100_0000 * abs(s - w) <= w,
        2 * abs(d - x) <= 1 || 0x100_0000 * abs(d - x) <= x,
        2 * abs(q * s - d * u) <= s || 0x100_0000 * abs(q * s - d * u) <= d * u,
    ensures
        0x100_0000 * abs(q * w - x * u) <= 4 * (w * u),
{
    let wu = w * u;
    let e = q * s - d * u;
    let g = s - w;
    let h = d - x;
    assert(-w <= 0x100_0000 * g <= w);
    assert(-w <= 0x100_0000 * h <= w);
    let su = s * u;
    assert(su <= 2 * wu && d * u <= su && 0x80_0000 * s <= su) by (nonlinear_arith)
        requires
            su == s * u,
            wu == w * u,
            s <= 2 * w,
            d <= s,
            s > 0,
            u >= 0x100_0000,
    ;
    assert(-(2 * wu) <= 0x100_0000 * e <= 2 * wu);
    let qg = q * g;
    let hu = h * u;
    assert(-wu <= 0x100_0000 * qg <= wu && -wu <= 0x100_0000 * hu <= wu) by (nonlinear_arith)
        requires
            qg == q * g,
            hu == h * u,
            wu == w * u,
            0 <= q <= u,
            -w <= 0x100_0000 * g <= w,
            -w <= 0x100_0000 * h <= w,
    ;
    assert(q * w - x * u == e - qg + hu) by (nonlinear_arith)
        requires
            e == q * s - d * u,
            qg == q * g,
            hu == h * u,
            g == s - w,
            h == d - x,
    ;
}

/// A louder level is never mapped lower.
pub proof fn position_is_monotone(low: Single, high: Single, floor: Single, ceiling: Single)
    requires
        low.at_most(high),
        !level_position(low, floor, ceiling).nan(),
        !level_position(high, floor, ceiling).nan(),
    ensures
        level_position(low, floor, ceiling).at_most(level_position(high, floor, ceiling)),
{
    let span = ceiling.difference(floor);
    if !span.at_most(Single { bits: 0 }) {
        order::difference_is_monotone(low, high, floor);
        order::quotient_is_monotone(low.difference(floor), high.difference(floor), span);
    }
}

/// `f` is the frequency at a row of the log axis, for a power that `powf` gives.
pub open spec fn is_row_frequency<P: Fn(Single, Single) -> Single>(
    powf: P,
    row: Single,
    freq_min: Single,
    freq_max: Single,
    f: Single,
) -> bool {
    exists|p: Single| #[trigger]
        call_ensures(
            powf,
            (
                freq_max.quotient(freq_min),
                row.clamped(Single { bits: 0 }, Single { bits: ONE }),
            ),
            p,
        ) && f == freq_min.product(p)
}

/// Frequency (Hz) displayed at a normalized vertical position `row_norm`
/// (0 = bottom = `freq_min`, 1 = top = `freq_max`) on the log axis:
/// `freq = freq_min * (freq_max / freq_min)^row_norm`, with the power that `powf`
/// gives.
pub fn log_freq_for_row<P: Fn(Single, Single) -> Single>(
    row_norm: Single,
    freq_min: Single,
    freq_max: Single,
    powf: &P,
) -> (f: Single)
    requires
        forall|x: Single, y: Single| call_requires(*powf, (x, y)),
    ensures
        is_row_frequency(*powf, row_norm, freq_min, freq_max, f),
{
    let p = powf(
        freq_max.over(freq_min),
        row_norm.clamp(Single { bits: 0 }, Single { bits: ONE }),
    );
    freq_min.times(p)
}

/// How the frequency of a row comes about: `powf` is given the ratio of the highest to
/// the lowest frequency, up to rounding, and the row itself as the exponent (an end of
/// the axis for a row beyond it), and the lowest frequency times what it answers is
/// shown, up to rounding.
pub proof fn rows_are_powers_of_the_ratio<P: Fn(Single, Single) -> Single>(
    row: Single,
    freq_min: Single,
    freq_max: Single,
    powf: P,
    f: Single,
) -> (asked: (Single, Single, Single))
    requires
        call_ensures(log_freq_for_row::<P>, (row, freq_min, freq_max, &powf), f),
        freq_min.finite(),
        freq_min.rank() > 0,
        freq_max.finite(),
        !row.nan(),
    ensures
        call_ensures(powf, (asked.0, asked.1), asked.2),
        order::near(asked.0, freq_max.value() * pow2(149), freq_min.value()),
        row.rank() < 0 ==> asked.1.rank() == 0,
        0 <= row.rank() <= ONE ==> asked.1 == row,
        row.rank() > ONE ==> asked.1.bits == ONE,
        asked.2.finite() ==> order::near(
            f,
            freq_min.value() * asked.2.value(),
            pow2(149) as int,
        ),
{
    let ratio = freq_max.quotient(freq_min);
    let exponent = row.clamped(Single { bits: 0 }, Single { bits: ONE });
    order::operations_are_near(freq_max, freq_min);
    let p = choose|p: Single| #[trigger]
        call_ensures(powf, (ratio, exponent), p) && f == freq_min.product(p);
    if p.finite() {
        order::operations_are_near(freq_min, p);
    }
    (ratio, exponent, p)
}

/// Rows beyond an end of the axis show the frequency of that end.
pub proof fn rows_beyond_the_axis_show_its_ends<P: Fn(Single, Single) -> Single>(
    powf: P,
    row: Single,
    freq_min: Single,
    freq_max: Single,
    f: Single,
)
    requires
        is_row_frequency(powf, row, freq_min, freq_max, f),
    ensures
        row.less(Single { bits: 0 }) ==> is_row_frequency(
            powf,
            Single { bits: 0 },
            freq_min,
            freq_max,
            f,
        ),
        (Single { bits: ONE }).less(row) ==> is_row_frequency(
            powf,
            Single { bits: ONE },
            freq_min,
            freq_max,
            f,
        ),
{
}

/// The bottom row shows the lowest frequency, provided that `powf` gives 1 for the
/// exponent 0.
pub proof fn bottom_row_shows_lowest_frequency<P: Fn(Single, Single) -> Single>(
    powf: P,
    freq_min: Single,
    freq_max: Single,
    f: Single,
)
    requires
        is_row_frequency(powf, Single { bits: 0 }, freq_min, freq_max, f),
        forall|x: Single, p: Single| #[trigger]
            call_ensures(powf, (x, Single { bits: 0 }), p) ==> p.bits == ONE,
        freq_min.finite(),
    ensures
        f == freq_min,
{
    order::product_with_one(freq_min);
}

/// A quotient and its product with the divisor, each off by at most half a unit or by
/// at most the 2^24th part, lead back to the dividend `high`.
proof fn lemma_ratio_restored(low: int, high: int, q: int, f: int, u: int)
    requires
        u > 0,
        low > 0,
        high >= 0x80_0000,
        q >= 0x80_0000,
        2 * abs(q * low - high * u) <= low || 0x100_0000 * abs(q * low - high * u) <= high * u,
    ensures
        0x80_0000 * abs(q * low - high * u) <= high * u,
        2 * abs(f * u - low * q) <= u || 0x100_0000 * abs(f * u - low * q) <= abs(low * q)
            ==> 0x40_0000 * abs(f - high) <= high,
{
    let x = q * low;
    let y = high * u;
    assert(low * q == x) by (nonlinear_arith)
        requires
            x == q * low,
    ;
    assert(x >= 0x80_0000 * low) by (nonlinear_arith)
        requires
            x == q * low,
            q >= 0x80_0000,
            low > 0,
    ;
    assert(y >= 0x80_0000 * u) by (nonlinear_arith)
        requires
            y == high * u,
            high >= 0x80_0000,
            u > 0,
    ;
    let d = x - y;
    assert(0x80_0000 * d <= y && -0x80_0000 * d <= y);
    let e = f * u - x;
    if 2 * abs(e) <= u || 0x100_0000 * abs(e) <= x {
        let r = f - high;
        assert(r * u == e + d) by (nonlinear_arith)
            requires
                r == f - high,
                e == f * u - x,
                d == x - y,
                y == high * u,
        ;
        assert(0x40_0000 * (e + d) <= y && -0x40_0000 * (e + d) <= y);
        assert(0x40_0000 * r <= high && -0x40_0000 * r <= high) by (nonlinear_arith)
            requires
                0x40_0000 * (r * u) <= y,
                -0x40_0000 * (r * u) <= y,
                y == high * u,
                u > 0,
        ;
    }
}

/// The top row shows the highest frequency, up to its 2^22nd part, provided that
/// `powf` gives the base for the exponent 1 and that neither the highest frequency nor
/// its ratio to the lowest is below the normal range. Up to `2^127` Hz it is always
/// finite; beyond, rounding may lead out of the range of numbers.
pub proof fn top_row_shows_highest_frequency<P: Fn(Single, Single) -> Single>(
    powf: P,
    freq_min: Single,
    freq_max: Single,
    f: Single,
)
    requires
        is_row_frequency(powf, Single { bits: ONE }, freq_min, freq_max, f),
        forall|x: Single, p: Single| #[trigger]
            call_ensures(powf, (x, Single { bits: ONE }), p) ==> p == x,
        freq_min.finite(),
        freq_min.rank() > 0,
        freq_max.finite(),
        freq_max.rank() >= 0x80_0000,
        freq_max.quotient(freq_min).finite(),
        freq_max.quotient(freq_min).rank() >= 0x80_0000,
    ensures
        freq_max.rank() <= 0x7f00_0000 ==> f.finite(),
        f.finite() ==> 0x40_0000 * abs(f.value() - freq_max.value()) <= freq_max.value(),
{
    let u = pow2(149) as int;
    let ratio = freq_max.quotient(freq_min);
    let normal = Single { bits: 0x80_0000 };
    lemma_pow2_pos(149);
    lemma2_to64();
    assert(f == freq_min.product(ratio));
    rounding::lemma_units(0, 0x80_0000);
    single::order_is_by_value(normal, freq_max);
    single::order_is_by_value(normal, ratio);
    order::lemma_quotient_error(freq_max, freq_min);
    let low = freq_min.value();
    let high = freq_max.value();
    let q = ratio.value();
    assert(high * u >= 0) by (nonlinear_arith)
        requires
            high >= 0,
            u >= 0,
    ;
    lemma_ratio_restored(low, high, q, f.value(), u);
    assert(q * low == low * q) by (nonlinear_arith);
    order::lemma_product(freq_min, ratio);
    if freq_max.rank() <= 0x7f00_0000 {
        let limit = Single { bits: 0x7f00_0000 };
        let beyond = Single { bits: 0x7f00_0001 };
        let p = pow2(253) as int;
        single::order_is_by_value(freq_max, limit);
        rounding::lemma_units(253, 0x80_0000);
        rounding::lemma_units(253, 0x80_0001);
        assert(low * q <= beyond.value() * u) by (nonlinear_arith)
            requires
                0x80_0000 * (low * q - high * u) <= high * u,
                high <= 0x80_0000 * p,
                beyond.value() == 0x80_0001 * p,
                u > 0,
        ;
        order::lemma_rank_exact(beyond, u);
        vstd::arithmetic::mul::lemma_mul_inequality(low * q, beyond.value() * u, u);
        order::lemma_rank_monotone(low * q, u, beyond.value() * u, u);
        order::lemma_rank_exact(Single { bits: 0 }, u);
        assert(0 * u == 0 && low * q >= 0) by (nonlinear_arith)
            requires
                low > 0,
                q > 0,
        ;
        vstd::arithmetic::mul::lemma_mul_inequality(0, low * q, u);
        order::lemma_rank_monotone(0, u, low * q, u);
    }
    if f.finite() {
        order::lemma_product_error(freq_min, ratio);
    }
}

/// Higher rows never show lower frequencies, provided that `powf` rises with the
/// exponent.
pub proof fn frequencies_rise_with_rows<P: Fn(Single, Single) -> Single>(
    powf: P,
    low: Single,
    high: Single,
    freq_min: Single,
    freq_max: Single,
    f: Single,
    g: Single,
)
    requires
        low.at_most(high),
        is_row_frequency(powf, low, freq_min, freq_max, f),
        is_row_frequency(powf, high, freq_min, freq_max, g),
        forall|x: Single, y: Single, z: Single, p: Single, q: Single|
            y.at_most(z) && #[trigger] call_ensures(powf, (x, y), p) && #[trigger] call_ensures(
                powf,
                (x, z),
                q,
            ) ==> p.at_most(q),
        freq_min.finite(),
        freq_min.rank() > 0,
        !f.nan(),
        !g.nan(),
    ensures
        f.at_most(g),
{
    let zero = Single { bits: 0 };
    let one = Single { bits: ONE };
    let ratio = freq_max.quotient(freq_min);
    assert(low.clamped(zero, one).at_most(high.clamped(zero, one)));
    let p = choose|p: Single| #[trigger]
        call_ensures(powf, (ratio, low.clamped(zero, one)), p) && f == freq_min.product(p);
    let q = choose|q: Single| #[trigger]
        call_ensures(powf, (ratio, high.clamped(zero, one)), q) && g == freq_min.product(q);
    order::product_commutes(freq_min, p);
    order::product_commutes(freq_min, q);
    order::product_is_monotone(p, q, freq_min);
}

/// The bin that a frequency falls on.
pub open spec fn bin_position(freq: Single, fft_size: int, sample_rate: int) -> Single {
    freq.product(Single::of_integer(fft_size)).quotient(Single::of_integer(sample_rate))
}

/// Fractional FFT bin index for a frequency: `bin = freq * fft_size / sample_rate`.
pub fn freq_to_bin(freq: Single, fft_size: usize, sample_rate: u32) -> (bin: Single)
    ensures
        bin == bin_position(freq, fft_size as int, sample_rate as int),
{
    freq.times(Single::from_u64(fft_size as u64)).over(Single::from_u64(sample_rate as u64))
}

/// The bin of a frequency is the frequency times the FFT size, divided by the sample
/// rate, each up to rounding.
pub proof fn bins_are_shares_of_the_rate(
    freq: Single,
    fft_size: usize,
    sample_rate: u32,
    bin: Single,
) -> (scaled: Single)
    requires
        call_ensures(freq_to_bin, (freq, fft_size, sample_rate), bin),
        freq.finite(),
        fft_size <= 0x100_0000,
        0 < sample_rate <= 0x100_0000,
    ensures
        order::near(scaled, freq.value() * fft_size, 1),
        scaled.finite() ==> order::near(bin, scaled.value(), sample_rate as int),
{
    let u = pow2(149) as int;
    let size = Single::of_integer(fft_size as int);
    let rate = Single::of_integer(sample_rate as int);
    lemma_pow2_pos(149);
    order::whole_numbers_are_exact(fft_size as int);
    order::whole_numbers_are_exact(sample_rate as int);
    order::lemma_conversion(sample_rate as int);
    order::operations_are_near(freq, size);
    let x = freq.product(size);
    let v = freq.value();
    assert(v * (fft_size * u) == (v * fft_size) * u && 1 * u == u) by (nonlinear_arith);
    order::lemma_near_reduced(x, v * fft_size, 1, u, v * size.value(), u);
    if x.finite() {
        order::operations_are_near(x, rate);
        order::lemma_near_reduced(
            bin,
            x.value(),
            sample_rate as int,
            u,
            x.value() * u,
            rate.value(),
        );
    }
    x
}

/// The center frequency of a bin is the bin times the sample rate, divided by the FFT
/// size, each up to rounding.
pub proof fn bin_centers_are_spread_over_the_rate(
    p: dsp::StftProducer,
    bin: usize,
    freq: Single,
) -> (scaled: Single)
    requires
        call_ensures(dsp::StftProducer::bin_to_freq, (&p, bin), freq),
        bin <= 0x100_0000,
        0 < p.size() <= 0x100_0000,
        p.rate() <= 0x100_0000,
    ensures
        order::near(scaled, (bin * p.rate()) * pow2(149), 1),
        scaled.finite() ==> order::near(freq, scaled.value(), p.size()),
{
    let u = pow2(149) as int;
    let b = Single::of_integer(bin as int);
    let rate = Single::of_integer(p.rate() as int);
    let size = Single::of_integer(p.size());
    lemma_pow2_pos(149);
    order::whole_numbers_are_exact(bin as int);
    order::whole_numbers_are_exact(p.rate() as int);
    order::whole_numbers_are_exact(p.size());
    order::lemma_conversion(p.size());
    order::operations_are_near(b, rate);
    let x = b.product(rate);
    let n = (bin * p.rate()) * u;
    let r = p.rate() as int;
    assert((bin * u) * (r * u) == n * u && 1 * u == u) by (nonlinear_arith)
        requires
            n == (bin * r) * u,
    ;
    order::lemma_near_reduced(x, n, 1, u, b.value() * rate.value(), u);
    if x.finite() {
        order::operations_are_near(x, size);
        order::lemma_near_reduced(freq, x.value(), p.size(), u, x.value() * u, size.value());
    }
    x
}

/// Without a given maximum, the top of the axis falls on the last bin, half of the FFT size,
/// up to the 2^22nd part.
pub proof fn the_axis_ends_at_the_last_bin(
    c: Config,
    fft_size: usize,
    sample_rate: u32,
    top: Single,
    bin: Single,
)
    requires
        c.freq_max is None,
        call_ensures(Config::effective_freq_max, (&c, sample_rate), top),
        call_ensures(freq_to_bin, (top, fft_size, sample_rate), bin),
        0 < fft_size <= 0x100_0000,
        0 < sample_rate <= 0x100_0000,
    ensures
        bin.finite(),
        0x40_0000 * abs(2 * bin.value() - fft_size * pow2(149)) <= fft_size * pow2(149),
{
    let u = pow2(149) as int;
    config::displayed_maximum_is_half_the_rate(c, sample_rate, top);
    let x = bins_are_shares_of_the_rate(top, fft_size, sample_rate, bin);
    let (t, n, r) = (top.value(), fft_size as int, sample_rate as int);
    let e = n * u;
    let tn = t * n;
    let re = r * e;
    lemma_pow2_pos(149);
    lemma2_to64();
    lemma_pow2_strictly_increases(24, 149);
    lemma_pow2_strictly_increases(197, 276);
    lemma_pow2_adds(24, 24);
    lemma_pow2_adds(48, 149);
    assert(2 * tn == re) by (nonlinear_arith)
        requires
            tn == t * n,
            re == r * e,
            e == n * u,
            2 * t == r * u,
    ;
    assert(e >= u && re >= e && re <= 0x1_0000_0000_0000 * u && 0x100_0000 * r <= re)
        by (nonlinear_arith)
        requires
            e == n * u,
            re == r * e,
            1 <= n <= 0x100_0000,
            1 <= r <= 0x100_0000,
            u >= 0x100_0000,
    ;
    assert(x.finite());
    let (v, b) = (x.value(), bin.value());
    assert(-re <= 0x100_0000 * (2 * v - re) <= re);
    assert(bin.finite()) by {
        if !bin.finite() {
            assert(abs(v) < pow2(276) * r) by (nonlinear_arith)
                requires
                    abs(v) < pow2(276),
                    r >= 1,
            ;
        }
    }
    let br = b * r;
    let d = 2 * b - e;
    let dr = d * r;
    assert(dr == 2 * (br - v) + (2 * v - re)) by (nonlinear_arith)
        requires
            dr == d * r,
            d == 2 * b - e,
            br == b * r,
            re == r * e,
    ;
    assert(-(4 * re) <= 0x100_0000 * dr <= 4 * re);
    assert(-e <= 0x40_0000 * d <= e) by (nonlinear_arith)
        requires
            -(4 * re) <= 0x100_0000 * dr <= 4 * re,
            dr == d * r,
            re == r * e,
            r >= 1,
    ;
}

/// A higher frequency never falls on a lower bin.
pub proof fn bins_rise_with_frequency(low: Single, high: Single, fft_size: u64, sample_rate: u64)
    requires
        low.at_most(high),
        high.finite(),
        low.finite(),
        sample_rate > 0,
    ensures
        bin_position(low, fft_size as int, sample_rate as int).at_most(
            bin_position(high, fft_size as int, sample_rate as int),
        ),
{
    let size = Single::of_integer(fft_size as int);
    let rate = Single::of_integer(sample_rate as int);
    order::lemma_conversion(fft_size as int);
    order::lemma_conversion(sample_rate as int);
    order::lemma_product(low, size);
    order::lemma_product(high, size);
    order::product_is_monotone(low, high, size);
    order::lemma_quotient_defined(low.product(size), rate);
    order::lemma_quotient_defined(high.product(size), rate);
    order::quotient_is_monotone(low.product(size), high.product(size), rate);
}

/// Four steps, each off by at most a 2^24th part, lead from `y` by `s` back to it.
proof fn lemma_there_and_back(b: int, s: int, n: int, u: int, x1: int, x2: int, x3: int, x4: int)
    requires
        b > 0,
        s > 0,
        n > 0,
        u > 0,
        0x100_0000 * abs(x1 - b * s) <= b * s,
        0x100_0000 * abs(x2 * n - x1) <= x1,
        0x100_0000 * abs(x3 - x2 * n) <= x2 * n,
        0x100_0000 * abs(x4 * s - x3 * u) <= x3 * u,
    ensures
        0x100_0000 * abs(x4 - b * u) <= 6 * (b * u),
{
    let y = b * s;
    let w = x2 * n;
    assert(y > 0) by (nonlinear_arith)
        requires
            y == b * s,
            b > 0,
            s > 0,
    ;
    assert(0x100_0000 * abs(x3 - y) <= 4 * y);
    let xu = x3 * u;
    let yu = y * u;
    assert(0x100_0000 * (x3 - y) * u <= 4 * y * u && 0x100_0000 * (y - x3) * u <= 4 * y * u)
        by (nonlinear_arith)
        requires
            0x100_0000 * (x3 - y) <= 4 * y,
            0x100_0000 * (y - x3) <= 4 * y,
            u > 0,
    ;
    assert(0x100_0000 * (x3 - y) * u == 0x100_0000 * (xu - yu) && 4 * y * u == 4 * yu && 0x100_0000
        * (y - x3) * u == 0x100_0000 * (yu - xu)) by (nonlinear_arith)
        requires
            xu == x3 * u,
            yu == y * u,
    ;
    assert(yu > 0) by (nonlinear_arith)
        requires
            yu == y * u,
            y > 0,
            u > 0,
    ;
    assert(0x100_0000 * abs(x4 * s - yu) <= 6 * yu);
    let bu = b * u;
    assert(yu == bu * s) by (nonlinear_arith)
        requires
            yu == y * u,
            y == b * s,
            bu == b * u,
    ;
    assert(0x100_0000 * (x4 - bu) <= 6 * bu && 0x100_0000 * (bu - x4) <= 6 * bu)
        by (nonlinear_arith)
        requires
            0x100_0000 * (x4 * s - bu * s) <= 6 * (bu * s),
            0x100_0000 * (bu * s - x4 * s) <= 6 * (bu * s),
            s > 0,
    ;
}

/// A common positive factor of an error and its bound cancels.
proof fn lemma_cancel(x: int, y: int, bound: int, u: int)
    requires
        u > 0,
        0x100_0000 * abs(x * u - y * u) <= bound * u,
    ensures
        0x100_0000 * abs(x - y) <= bound,
{
    assert(0x100_0000 * (x - y) <= bound && 0x100_0000 * (y - x) <= bound) by (nonlinear_arith)
        requires
            0x100_0000 * (x * u - y * u) <= bound * u,
            0x100_0000 * (y * u - x * u) <= bound * u,
            u > 0,
    ;
}

/// The bin of a bin's center frequency is that bin, up to a millionth of it.
pub proof fn bins_undo_frequencies(bin: int, fft_size: int, sample_rate: int)
    requires
        0 < fft_size <= 0x100_0000,
        0 <= bin <= fft_size / 2,
        0 < sample_rate <= u32::MAX,
    ensures
        ({
            let back = bin_position(
                dsp::bin_frequency(bin, sample_rate, fft_size),
                fft_size,
                sample_rate,
            );
            &&& back.finite()
            &&& 1_000_000 * abs(back.value() - bin * pow2(149)) <= bin * pow2(149)
        }),
{
    let u = pow2(149) as int;
    let b = Single::of_integer(bin);
    let n = Single::of_integer(fft_size);
    let rate = Single::of_integer(sample_rate);
    lemma_pow2_pos(149);
    order::whole_numbers_are_exact(bin);
    order::whole_numbers_are_exact(fft_size);
    order::lemma_conversion(fft_size);
    order::lemma_conversion(sample_rate);
    let x1 = b.product(rate);
    let x2 = x1.quotient(n);
    let x3 = x2.product(n);
    let x4 = x3.quotient(rate);
    if bin == 0 {
        assert(bin * u == 0) by (nonlinear_arith)
            requires
                bin == 0,
        ;
        if b.magnitude() > 0 {
            rounding::lemma_units_increase(0, b.magnitude());
        }
        order::zero_stays_zero(b, rate);
        order::zero_stays_zero(x1, n);
        order::zero_stays_zero(x2, n);
        order::zero_stays_zero(x3, rate);
    } else {
        let s = rate.value();
        // The rate lies between 1 and 2^32.
        order::conversion_is_monotone(1, sample_rate);
        order::whole_numbers_are_exact(1);
        single::order_is_by_value(Single::of_integer(1), rate);
        lemma2_to64();
        lemma2_to64_rest();
        lemma_pow2_adds(32, 149);
        let top = rounding::lemma_whole(1, 181);
        let ceiling = Single::signed(false, top);
        rounding::lemma_rounded_exact(top, 1);
        assert(rounding::units(top) * 1 == pow2(181));
        assert(sample_rate * u <= pow2(181)) by (nonlinear_arith)
            requires
                sample_rate <= 0x1_0000_0000,
                pow2(181) == 0x1_0000_0000 * u,
                u > 0,
        ;
        rounding::lemma_rounded(sample_rate * u, 1);
        rounding::lemma_rounded_monotone(sample_rate * u, 1, pow2(181) as int, 1);
        single::order_is_by_value(rate, ceiling);
        assert(u <= s <= 0x1_0000_0000 * u);
        let y = bin * s;
        assert(u <= y && y <= 0x80_0000 * (0x1_0000_0000 * u)) by (nonlinear_arith)
            requires
                1 <= bin <= 0x80_0000,
                u <= s <= 0x1_0000_0000 * u,
                y == bin * s,
        ;
        // Powers of two that leave room on both sides.
        lemma_pow2_adds(55, 149);
        lemma_pow2_adds(60, 149);
        lemma_pow2_adds(125, 24);
        lemma_pow2_adds(24, 24);
        lemma_pow2_strictly_increases(48, 125);
        assert(u == pow2(125) * 0x100_0000);
        // Up to the frequency.
        assert(b.value() * s == y * u) by (nonlinear_arith)
            requires
                b.value() == bin * u,
                y == bin * s,
        ;
        assert(0x80_0000 * u <= y * u && y * u <= pow2(209) * u) by (nonlinear_arith)
            requires
                0x80_0000 <= y <= pow2(209),
                u > 0,
        ;
        order::lemma_product_relative(b, rate, 209);
        lemma_cancel(x1.value(), y, y, u);
        assert(y <= 2 * x1.value() && x1.value() <= 2 * y);
        assert(0x80_0000 * (fft_size * u) <= x1.value() * u && x1.value() * u <= pow2(209) * (
        fft_size * u)) by (nonlinear_arith)
            requires
                0x80_0000 * 0x100_0000 <= x1.value() <= pow2(209),
                1 <= fft_size <= 0x100_0000,
                u > 0,
        ;
        order::lemma_quotient_relative(x1, n, 209);
        let w = x2.value() * fft_size;
        assert(x2.value() * (fft_size * u) == w * u) by (nonlinear_arith)
            requires
                w == x2.value() * fft_size,
        ;
        lemma_cancel(w, x1.value(), x1.value(), u);
        // And back to the bin.
        assert(x2.value() * n.value() == w * u) by (nonlinear_arith)
            requires
                n.value() == fft_size * u,
                w == x2.value() * fft_size,
        ;
        assert(0x80_0000 * u <= w * u && w * u <= pow2(209) * u) by (nonlinear_arith)
            requires
                0x80_0000 <= w <= pow2(209),
                u > 0,
        ;
        order::lemma_product_relative(x2, n, 209);
        lemma_cancel(x3.value(), w, w, u);
        assert(y <= 4 * x3.value() && x3.value() <= 4 * y);
        assert(0x80_0000 * s <= x3.value() * u && x3.value() * u <= pow2(204) * s)
            by (nonlinear_arith)
            requires
                y <= 4 * x3.value(),
                x3.value() <= 4 * y,
                y == bin * s,
                1 <= bin <= 0x80_0000,
                s > 0,
                u >= 4 * 0x80_0000,
                pow2(204) >= 4 * 0x80_0000 * u,
        ;
        order::lemma_quotient_relative(x3, rate, 204);
        lemma_there_and_back(
            bin,
            s,
            fft_size,
            u,
            x1.value(),
            x2.value(),
            x3.value(),
            x4.value(),
        );
        assert(bin * u >= 0) by (nonlinear_arith)
            requires
                bin >= 0,
                u > 0,
        ;
    }
}

} // verus!
