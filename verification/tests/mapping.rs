use ntrancerator::config::WindowKind;
use ntrancerator::dsp::StftProducer;
use ntrancerator::render::mapping::{freq_to_bin, log_freq_for_row, normalize_db};
use ntrancerator::single::Single;

fn single(x: f32) -> Single {
    Single { bits: x.to_bits() }
}

fn float(x: Single) -> f32 {
    f32::from_bits(x.bits)
}

fn powf(x: Single, y: Single) -> Single {
    single(float(x).powf(float(y)))
}

fn cosine(x: Single) -> Single {
    single(float(x).cos())
}

fn normalized(db: f32, floor: f32, ceiling: f32) -> f32 {
    float(normalize_db(single(db), single(floor), single(ceiling)))
}

fn frequency(row: f32, min: f32, max: f32) -> f32 {
    float(log_freq_for_row(single(row), single(min), single(max), &powf))
}

fn bin(freq: f32, fft_size: usize, rate: u32) -> f32 {
    float(freq_to_bin(single(freq), fft_size, rate))
}

#[test]
fn normalize_endpoints_and_clamping() {
    assert_eq!(normalized(-100.0, -100.0, 0.0), 0.0);
    assert_eq!(normalized(0.0, -100.0, 0.0), 1.0);
    assert_eq!(normalized(-50.0, -100.0, 0.0), 0.5);
    // Out-of-range values clamp.
    assert_eq!(normalized(-200.0, -100.0, 0.0), 0.0);
    assert_eq!(normalized(20.0, -100.0, 0.0), 1.0);
    // Degenerate window does not divide by zero.
    assert_eq!(normalized(5.0, 0.0, 0.0), 0.0);
}

#[test]
fn log_freq_hits_endpoints() {
    assert!((frequency(0.0, 20.0, 20_000.0) - 20.0).abs() < 1e-3);
    assert!((frequency(1.0, 20.0, 20_000.0) - 20_000.0).abs() < 1e-1);
}

#[test]
fn log_freq_midpoint_is_geometric_mean() {
    // On a log axis the centre row is the geometric mean of the endpoints.
    let f = frequency(0.5, 20.0, 20_000.0);
    let geo = (20.0f32 * 20_000.0).sqrt();
    assert!((f - geo).abs() < 1e-1, "{f} vs {geo}");
}

#[test]
fn log_freq_is_monotonic_increasing() {
    let mut prev = 0.0;
    for i in 0..=100 {
        let f = frequency(i as f32 / 100.0, 20.0, 20_000.0);
        assert!(f > prev, "not increasing at {i}: {f} <= {prev}");
        prev = f;
    }
}

#[test]
fn freq_to_bin_matches_dsp_inverse() {
    // bin spacing at 48k/2048 is 23.4375 Hz; bin 64 -> 1500 Hz.
    assert!((bin(1500.0, 2048, 48_000) - 64.0).abs() < 1e-3);
    assert!((bin(0.0, 2048, 48_000)).abs() < 1e-6);
}

#[test]
fn positions_rise_with_the_level() {
    let mut prev = 0.0;
    for i in -1300..300 {
        let t = normalized(i as f32 / 10.0, -100.0, 0.0);
        assert!((0.0..=1.0).contains(&t));
        assert!(t >= prev);
        prev = t;
    }
}

#[test]
fn odd_windows_and_levels() {
    // An inverted window is empty.
    assert_eq!(normalized(-50.0, 0.0, -100.0), 0.0);
    assert_eq!(normalized(f32::INFINITY, -100.0, 0.0), 1.0);
    assert_eq!(normalized(f32::NEG_INFINITY, -100.0, 0.0), 0.0);
    assert!(normalized(f32::NAN, -100.0, 0.0).is_nan());
    // Ends are exact for any window of finite width.
    for (floor, ceiling) in [(-0.1f32, 0.2f32), (1e-40, 1e-39), (-3.0e38, 1.0e37), (0.3, 0.7)] {
        assert_eq!(normalized(floor, floor, ceiling), 0.0);
        assert_eq!(normalized(ceiling, floor, ceiling), 1.0);
    }
}

#[test]
fn rows_beyond_the_axis_are_clamped() {
    assert_eq!(frequency(-3.0, 20.0, 20_000.0), frequency(0.0, 20.0, 20_000.0));
    assert_eq!(frequency(7.0, 20.0, 20_000.0), frequency(1.0, 20.0, 20_000.0));
    assert_eq!(frequency(0.0, 20.0, 20_000.0), 20.0);
}

#[test]
fn bins_are_those_of_float_arithmetic() {
    for i in 0..2000 {
        let f = i as f32 * 11.3;
        assert_eq!(bin(f, 4096, 44_100), f * 4096.0 / 44_100.0);
        let expected = ((-f / 100.0 + 90.0) / 83.0).clamp(0.0, 1.0);
        assert_eq!(normalized(-f / 100.0, -90.0, -7.0), expected);
    }
}

#[test]
fn bins_and_frequencies_undo_each_other() {
    for (fft, rate) in [(2usize, 8_000u32), (512, 44_100), (2048, 48_000), (1 << 16, 192_000)] {
        let p = StftProducer::new(fft, 1, WindowKind::Hann, rate, &cosine);
        for b in (0..=fft / 2).step_by(1 + fft / 500) {
            let back = bin(float(p.bin_to_freq(b)), fft, rate);
            assert!((back as f64 - b as f64).abs() <= 1e-6 * b as f64, "{fft} {rate} {b}: {back}");
        }
    }
}

#[test]
fn the_top_row_shows_the_highest_frequency() {
    for min in [1e-30f32, 0.3, 20.0, 27.5, 440.0] {
        for max in [20_000.0f32, 22_050.0, 24_000.0, 48_000.1, 1.7e38] {
            if max / min < f32::INFINITY {
                let top = frequency(1.0, min, max) as f64;
                let part = max as f64 / (1u32 << 22) as f64;
                assert!((top - max as f64).abs() <= part, "{min} {max}: {top}");
            }
        }
    }
    assert_eq!(frequency(1.0, 16.0, 16_384.0), 16_384.0);
}
