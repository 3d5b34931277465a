use ntrancerator::config::{Colormap, ConfigError, InputKind, WindowKind};
use ntrancerator::single::Single;
use ntrancerator::Config;

fn single(x: f32) -> Single {
    Single { bits: x.to_bits() }
}

#[test]
fn defaults_match_spec() {
    let c = Config::default();
    assert_eq!(c.input, InputKind::Live);
    assert_eq!(c.fft_size, 2048);
    assert_eq!(c.hop_size(), 1024);
    assert_eq!(c.window, WindowKind::Hann);
    assert_eq!(c.db_floor, single(-100.0));
    assert_eq!(c.db_ceiling, single(0.0));
    assert_eq!(c.freq_min, single(20.0));
    assert_eq!(c.colormap, Colormap::Inferno);
    assert!(!c.fullscreen);
    assert_eq!(c.monitor, None);
    c.validate().unwrap();
}

#[test]
fn num_bins_and_nyquist() {
    let c = Config { fft_size: 2048, ..Config::default() };
    assert_eq!(c.num_bins(), 1025);
    assert_eq!(c.effective_freq_max(48_000), single(24_000.0));
    let c2 = Config { freq_max: Some(single(10000.0)), ..Config::default() };
    assert_eq!(c2.effective_freq_max(48_000), single(10_000.0));
}

#[test]
fn rejects_non_power_of_two_fft() {
    let err = Config { fft_size: 1000, ..Config::default() }.validate().unwrap_err();
    assert_eq!(err, ConfigError::FftSizeNotPow2(1000));
}

#[test]
fn rejects_hop_larger_than_fft() {
    let err = Config { fft_size: 1024, hop: Some(2048), ..Config::default() }
        .validate()
        .unwrap_err();
    assert_eq!(
        err,
        ConfigError::HopOutOfRange {
            hop: 2048,
            fft_size: 1024
        }
    );
}

#[test]
fn file_input_requires_path() {
    let err = Config { input: InputKind::File, ..Config::default() }.validate().unwrap_err();
    assert_eq!(err, ConfigError::MissingFile);
    // ...unless we are only listing devices.
    Config { input: InputKind::File, list_devices: true, ..Config::default() }
        .validate()
        .unwrap();
    Config { input: InputKind::File, file: Some("song.wav".to_string()), ..Config::default() }
        .validate()
        .unwrap();
}

#[test]
fn rejects_inverted_db_range() {
    let err = Config {
        db_floor: single(0.0),
        db_ceiling: single(-100.0),
        ..Config::default()
    }
    .validate()
    .unwrap_err();
    assert!(matches!(err, ConfigError::DbRange { .. }));
    assert_eq!(
        err,
        ConfigError::DbRange { floor: single(0.0), ceiling: single(-100.0) }
    );
}

#[test]
fn rejects_nonpositive_freq_min() {
    let err = Config { freq_min: single(0.0), ..Config::default() }.validate().unwrap_err();
    assert_eq!(err, ConfigError::FreqMinNonPositive(single(0.0)));
}

#[test]
fn fft_sizes_are_the_powers_of_two_from_two_on() {
    for n in 0..5000usize {
        let r = Config { fft_size: n, ..Config::default() }.validate();
        if n >= 2 && n.is_power_of_two() {
            assert_eq!(r, Ok(()));
        } else {
            assert_eq!(r, Err(ConfigError::FftSizeNotPow2(n)));
        }
    }
    let top = 1usize << (usize::BITS - 1);
    assert_eq!(Config { fft_size: top, ..Config::default() }.validate(), Ok(()));
    assert!(Config { fft_size: usize::MAX, ..Config::default() }.validate().is_err());
}

#[test]
fn hops_run_from_one_to_the_frame() {
    for (hop, good) in [(0, false), (1, true), (1023, true), (1024, true), (1025, false)] {
        let c = Config { fft_size: 1024, hop: Some(hop), ..Config::default() };
        assert_eq!(c.hop_size(), hop);
        if good {
            assert_eq!(c.validate(), Ok(()));
        } else {
            assert_eq!(c.validate(), Err(ConfigError::HopOutOfRange { hop, fft_size: 1024 }));
        }
    }
}

#[test]
fn equal_bounds_and_negative_frequencies_are_refused() {
    let c = Config { db_floor: single(-20.0), db_ceiling: single(-20.0), ..Config::default() };
    assert!(matches!(c.validate(), Err(ConfigError::DbRange { .. })));
    let c = Config { freq_min: single(-1.0), ..Config::default() };
    assert_eq!(c.validate(), Err(ConfigError::FreqMinNonPositive(single(-1.0))));
    let c = Config { freq_min: single(1e-30), ..Config::default() };
    assert_eq!(c.validate(), Ok(()));
}

#[test]
fn the_first_violation_is_reported() {
    // Everything is wrong; the FFT size comes first.
    let c = Config {
        fft_size: 3,
        hop: Some(0),
        input: InputKind::File,
        db_floor: single(1.0),
        freq_min: single(0.0),
        ..Config::default()
    };
    assert_eq!(c.validate(), Err(ConfigError::FftSizeNotPow2(3)));
    let c = Config { fft_size: 4, ..c };
    assert_eq!(c.validate(), Err(ConfigError::HopOutOfRange { hop: 0, fft_size: 4 }));
    let c = Config { hop: None, ..c };
    assert_eq!(c.validate(), Err(ConfigError::MissingFile));
    let c = Config { file: Some("a.mp3".to_string()), ..c };
    assert!(matches!(c.validate(), Err(ConfigError::DbRange { .. })));
    let c = Config { db_floor: single(-1.0), ..c };
    assert_eq!(c.validate(), Err(ConfigError::FreqMinNonPositive(single(0.0))));
}

#[test]
fn bounds_that_are_no_numbers_are_refused() {
    let c = Config { db_floor: single(f32::NAN), ..Config::default() };
    assert!(matches!(c.validate(), Err(ConfigError::DbRange { .. })));
    let c = Config { db_ceiling: single(f32::NAN), ..Config::default() };
    assert!(matches!(c.validate(), Err(ConfigError::DbRange { .. })));
    let c = Config { freq_min: single(f32::NAN), ..Config::default() };
    assert!(matches!(c.validate(), Err(ConfigError::FreqMinNonPositive(_))));
}
