use ntrancerator::config::{MINUS_HUNDRED, TWENTY};
use ntrancerator::dsp::window::{
    FOUR, HAMMING_A, HAMMING_B, HARRIS_A0, HARRIS_A1, HARRIS_A2, HARRIS_A3, PI, SIX,
};
use ntrancerator::dsp::{DB_EPSILON, DB_SCALE};
use ntrancerator::gan::{MINUS_ONE, SLIDER_TOP};
use ntrancerator::render::colormap::{FULL, INFERNO, MAGMA, SEVEN, VIRIDIS};
use ntrancerator::render::visualizer::{FIVE, MINUS_FIVE};
use ntrancerator::single::{Single, HALF, ONE, QUIET, SIGN, TWO};

fn single(x: f32) -> Single {
    Single { bits: x.to_bits() }
}

/// The same number: the same bits, or NaN on both sides.
fn same(ours: Single, theirs: f32) -> bool {
    ours.bits == theirs.to_bits() || ours.is_nan() && theirs.is_nan()
}

/// Numbers at the edges of the format, and some between.
fn edges() -> Vec<f32> {
    let mut v: Vec<u32> = vec![
        0,
        1,
        2,
        3,
        0x007f_fffe,
        0x007f_ffff,
        0x0080_0000,
        0x0080_0001,
        0x00ff_ffff,
        0x0100_0000,
        0x3300_0000,
        0x3380_0000,
        0x3f00_0000,
        0x3f7f_ffff,
        0x3f80_0000,
        0x3f80_0001,
        0x3fc0_0000,
        0x4000_0000,
        0x4049_0fdb,
        0x4b7f_ffff,
        0x4b80_0000,
        0x4b80_0001,
        0x4f00_0000,
        0x5f00_0000,
        0x7eff_ffff,
        0x7f00_0000,
        0x7f7f_ffff,
        0x7f80_0000,
        0x7fc0_0000,
    ];
    for i in 0..v.len() {
        v.push(v[i] | 0x8000_0000);
    }
    v.into_iter().map(f32::from_bits).collect()
}

/// Pseudo-random bit patterns.
fn patterns(n: usize) -> Vec<f32> {
    let mut x: u64 = 0x1234_5678_9abc_def1;
    let mut v = Vec::new();
    for _ in 0..n {
        x ^= x << 13;
        x ^= x >> 7;
        x ^= x << 17;
        v.push(f32::from_bits((x >> 32) as u32));
    }
    v
}

fn check_pair(a: f32, b: f32) {
    let (x, y) = (single(a), single(b));
    assert!(same(x.plus(y), a + b), "{a:e} + {b:e}");
    assert!(same(x.minus(y), a - b), "{a:e} - {b:e}");
    assert!(same(x.times(y), a * b), "{a:e} * {b:e}");
    assert!(same(x.over(y), a / b), "{a:e} / {b:e}");
    assert_eq!(x.lt(y), a < b, "{a:e} < {b:e}");
    assert_eq!(x.le(y), a <= b, "{a:e} <= {b:e}");
}

#[test]
fn arithmetic_at_the_edges_is_that_of_the_hardware() {
    let v = edges();
    for &a in &v {
        for &b in &v {
            check_pair(a, b);
        }
    }
}

#[test]
fn arithmetic_on_any_bits_is_that_of_the_hardware() {
    let v = patterns(40_000);
    for w in v.windows(2) {
        check_pair(w[0], w[1]);
    }
}

#[test]
fn arithmetic_on_near_magnitudes_is_that_of_the_hardware() {
    // Exponents within a few of each other, where sums cancel and round.
    let v = patterns(40_000);
    for w in v.windows(2) {
        let a = f32::from_bits((w[0].to_bits() & 0x83ff_ffff) | 0x3c00_0000);
        let b = f32::from_bits((w[1].to_bits() & 0x83ff_ffff) | 0x3c00_0000);
        check_pair(a, b);
    }
}

#[test]
fn tiny_results_round_like_the_hardware() {
    // Products and quotients that land among the subnormal numbers.
    let v = patterns(20_000);
    for w in v.windows(2) {
        let a = f32::from_bits((w[0].to_bits() & 0x81ff_ffff) | 0x1e00_0000);
        let b = f32::from_bits((w[1].to_bits() & 0x81ff_ffff) | 0x2000_0000);
        check_pair(a, b);
        let c = f32::from_bits((w[1].to_bits() & 0x81ff_ffff) | 0x6000_0000);
        check_pair(a, c);
    }
}

#[test]
fn conversion_from_integers_rounds_like_the_hardware() {
    let mut x: u64 = 0x9e37_79b9_7f4a_7c15;
    for i in 0..20_000u64 {
        x ^= x << 13;
        x ^= x >> 7;
        x ^= x << 17;
        for n in [i, x >> (i % 64), (1u64 << (i % 64)).wrapping_sub(1), 1u64 << (i % 64)] {
            assert_eq!(Single::from_u64(n).bits, (n as f32).to_bits(), "{n}");
        }
    }
}

#[test]
fn whole_part_is_the_saturating_cast() {
    for a in edges().into_iter().chain(patterns(20_000)) {
        let x = single(a);
        assert_eq!(x.whole(u32::MAX), a as u32, "{a:e}");
        assert_eq!(x.whole(255), (a as u32).min(255), "{a:e}");
        assert_eq!(x.whole(6), (a.floor() as usize).min(6) as u32, "{a:e}");
    }
    for i in 0..2_000 {
        let a = i as f32 / 7.0;
        assert_eq!(single(a).whole(255), (a as u32).min(255));
    }
}

#[test]
fn comparison_helpers_agree_with_the_hardware() {
    let v = edges();
    for &a in &v {
        assert_eq!(single(a).is_nan(), a.is_nan());
        assert!(same(single(a).negated(), -a));
        assert!(same(single(a).clamp(single(0.0), single(1.0)), a.clamp(0.0, 1.0)));
        for &b in &v {
            let least = single(a).min(single(b));
            let theirs = a.min(b);
            // Of two zeros either may be returned.
            assert!(same(least, theirs) || least.bits << 1 == 0 && theirs == 0.0, "{a} {b}");
        }
    }
}

#[test]
fn whole_numbers_up_to_24_bits_are_exact() {
    for n in [0u64, 1, 2, 127, 2048, 0xff_ffff, 0x100_0000] {
        assert_eq!(f32::from_bits(Single::from_u64(n).bits) as u64, n);
    }
    // One more does not fit.
    assert_eq!(Single::from_u64(0x100_0001), Single::from_u64(0x100_0000));
}

#[test]
fn constants_are_the_numbers_they_are_named_for() {
    let pairs: [(u32, f32); 25] = [
        (SIGN, -0.0),
        (ONE, 1.0),
        (TWO, 2.0),
        (HALF, 0.5),
        (MINUS_HUNDRED, -100.0),
        (TWENTY, 20.0),
        (PI, std::f32::consts::PI),
        (FOUR, 4.0),
        (SIX, 6.0),
        (HAMMING_A, 0.54),
        (HAMMING_B, 0.46),
        (HARRIS_A0, 0.35875),
        (HARRIS_A1, 0.48829),
        (HARRIS_A2, 0.14128),
        (HARRIS_A3, 0.01168),
        (DB_EPSILON, 1e-10),
        (DB_SCALE, 20.0),
        (SLIDER_TOP, 127.0),
        (MINUS_ONE, -1.0),
        (SEVEN, 7.0),
        (FULL, 255.0),
        (FIVE, 5.0),
        (MINUS_FIVE, -5.0),
        (0x4b80_0000, 16_777_216.0),
        (0x3f7f_8000, 0.998_046_875),
    ];
    for (bits, x) in pairs {
        assert_eq!(bits, x.to_bits(), "{x}");
    }
    assert!(f32::from_bits(QUIET).is_nan());
}

#[test]
fn anchor_tables_hold_their_colors() {
    let inferno: [[f32; 3]; 8] = [
        [0.0015, 0.0005, 0.0139],
        [0.0870, 0.0440, 0.2240],
        [0.2580, 0.0390, 0.4060],
        [0.4510, 0.1220, 0.4200],
        [0.6430, 0.2000, 0.3540],
        [0.8270, 0.3140, 0.2280],
        [0.9520, 0.5310, 0.0840],
        [0.9880, 0.9980, 0.6450],
    ];
    let magma: [[f32; 3]; 8] = [
        [0.0010, 0.0000, 0.0140],
        [0.0780, 0.0540, 0.2110],
        [0.2320, 0.0590, 0.4380],
        [0.4100, 0.0910, 0.4330],
        [0.5880, 0.1490, 0.4040],
        [0.7700, 0.2150, 0.3300],
        [0.9290, 0.4120, 0.1450],
        [0.9870, 0.9910, 0.7490],
    ];
    let viridis: [[f32; 3]; 8] = [
        [0.2670, 0.0050, 0.3290],
        [0.2830, 0.1310, 0.4490],
        [0.2540, 0.2650, 0.5300],
        [0.2070, 0.3720, 0.5530],
        [0.1640, 0.4710, 0.5580],
        [0.1280, 0.5670, 0.5510],
        [0.2670, 0.7490, 0.4410],
        [0.9930, 0.9060, 0.1440],
    ];
    for (ours, theirs) in [(INFERNO, inferno), (MAGMA, magma), (VIRIDIS, viridis)] {
        for i in 0..8 {
            for c in 0..3 {
                assert_eq!(ours[i][c], theirs[i][c].to_bits());
            }
        }
    }
}

#[test]
fn sums_and_products_keep_the_order() {
    let mut v = patterns(3_000);
    v.retain(|a| a.is_finite());
    for w in v.windows(3) {
        let (a, b) = if w[0] <= w[1] { (w[0], w[1]) } else { (w[1], w[0]) };
        let (x, y, z) = (single(a), single(b), single(w[2]));
        assert!(x.plus(z).le(y.plus(z)));
        assert!(x.minus(z).le(y.minus(z)));
        let positive = single(w[2].abs());
        if w[2] != 0.0 {
            assert!(x.times(positive).le(y.times(positive)));
            assert!(x.over(positive).le(y.over(positive)));
        }
    }
}
