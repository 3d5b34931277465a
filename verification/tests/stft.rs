use ntrancerator::config::WindowKind;
use ntrancerator::dsp::StftProducer;
use ntrancerator::single::Single;
use realfft::RealFftPlanner;
use std::f32::consts::PI;

fn single(x: f32) -> Single {
    Single { bits: x.to_bits() }
}

fn singles(xs: &[f32]) -> Vec<Single> {
    xs.iter().map(|&x| single(x)).collect()
}

fn cosine(x: Single) -> Single {
    single(f32::from_bits(x.bits).cos())
}

fn log10(x: Single) -> Single {
    single(f32::from_bits(x.bits).log10())
}

/// The magnitudes of the bins of a frame.
fn spectrum(frame: &Vec<Single>) -> Vec<Single> {
    let fft = RealFftPlanner::<f32>::new().plan_fft_forward(frame.len());
    let mut input: Vec<f32> = frame.iter().map(|x| f32::from_bits(x.bits)).collect();
    let mut output = fft.make_output_vec();
    fft.process(&mut input, &mut output).unwrap();
    output.iter().map(|c| single(c.norm())).collect()
}

fn producer(fft: usize, hop: usize, rate: u32) -> StftProducer {
    StftProducer::new(fft, hop, WindowKind::Hann, rate, &cosine)
}

fn process(p: &mut StftProducer, samples: &[f32]) -> Vec<Vec<f32>> {
    p.process(&singles(samples), &spectrum, &log10)
        .iter()
        .map(|c| c.iter().map(|x| f32::from_bits(x.bits)).collect())
        .collect()
}

/// Generate `n` samples of a unit-amplitude sine at `freq` Hz.
fn sine(freq: f32, sample_rate: u32, n: usize) -> Vec<f32> {
    (0..n)
        .map(|i| (2.0 * PI * freq * i as f32 / sample_rate as f32).sin())
        .collect()
}

/// Index of the maximum-magnitude bin in a column.
fn peak_bin(column: &[f32]) -> usize {
    column
        .iter()
        .enumerate()
        .max_by(|a, b| a.1.partial_cmp(b.1).unwrap())
        .unwrap()
        .0
}

#[test]
fn column_length_is_num_bins() {
    let mut p = producer(2048, 1024, 48_000);
    assert_eq!(p.num_bins(), 1025);
    let columns = process(&mut p, &sine(1000.0, 48_000, 4096));
    assert_eq!(columns.last().unwrap().len(), 1025);
}

#[test]
fn pure_tone_lands_in_expected_bin_48k() {
    let sr = 48_000;
    let fft = 2048;
    // Choose a frequency that sits exactly on a bin center to avoid leakage:
    // bin spacing = sr/fft = 23.4375 Hz; bin 64 -> 1500 Hz.
    let target_bin = 64;
    let freq = target_bin as f32 * sr as f32 / fft as f32;
    let mut p = producer(fft, fft / 2, sr);

    let columns = process(&mut p, &sine(freq, sr, fft * 4));
    let last = columns.last().unwrap();
    assert_eq!(peak_bin(last), target_bin);
    assert!((f32::from_bits(p.bin_to_freq(target_bin).bits) - freq).abs() < 1e-3);
}

#[test]
fn pure_tone_at_multiple_sample_rates() {
    // Verify at 44.1k, 48k, and 192k.
    for sr in [44_100u32, 48_000, 192_000] {
        let fft = 4096;
        let target_bin = 100;
        let freq = target_bin as f32 * sr as f32 / fft as f32;
        let mut p = producer(fft, fft / 2, sr);
        let columns = process(&mut p, &sine(freq, sr, fft * 4));
        let pk = peak_bin(columns.last().unwrap());
        // Allow the immediate neighbours to absorb any tiny spectral leakage.
        assert!(
            (pk as i32 - target_bin).abs() <= 1,
            "sr={sr}: peak bin {pk} != target {target_bin}"
        );
    }
}

#[test]
fn emits_expected_number_of_columns() {
    let fft = 1024;
    let hop = 256;
    let mut p = producer(fft, hop, 44_100);
    // With N samples, columns = floor((N - fft) / hop) + 1.
    let n = 4096;
    let cols = process(&mut p, &sine(440.0, 44_100, n)).len();
    assert_eq!(cols, (n - fft) / hop + 1);
}

#[test]
fn streaming_in_chunks_matches_one_shot() {
    // Feeding the same signal split across calls must yield identical columns.
    let fft = 512;
    let hop = 128;
    let sig = sine(880.0, 44_100, 4096);

    let mut whole = producer(fft, hop, 44_100);
    let cols_whole = process(&mut whole, &sig);

    let mut chunked = producer(fft, hop, 44_100);
    let mut cols_chunked: Vec<Vec<f32>> = vec![];
    for chunk in sig.chunks(37) {
        cols_chunked.extend(process(&mut chunked, chunk));
    }

    assert_eq!(cols_whole.len(), cols_chunked.len());
    for (a, b) in cols_whole.iter().zip(&cols_chunked) {
        for (x, y) in a.iter().zip(b) {
            assert!((x - y).abs() < 1e-4);
        }
    }
    assert_eq!(cols_whole, cols_chunked);
}

#[test]
fn chunks_of_any_length_match_one_shot() {
    let sig = sine(880.0, 44_100, 3000);
    let mut whole = producer(256, 100, 44_100);
    let expected = process(&mut whole, &sig);
    for cuts in [vec![0usize, 0, 3000], vec![1, 2, 255, 0, 1, 2741], vec![999, 2001, 0]] {
        let mut chunked = producer(256, 100, 44_100);
        let mut columns: Vec<Vec<f32>> = vec![];
        let mut at = 0;
        for n in cuts {
            columns.extend(process(&mut chunked, &sig[at..at + n]));
            at += n;
        }
        assert_eq!(at, sig.len());
        assert_eq!(columns, expected);
    }
}

#[test]
fn silence_is_near_db_floor() {
    let mut p = producer(1024, 512, 48_000);
    let columns = process(&mut p, &vec![0.0f32; 4096]);
    // 20*log10(eps) for eps=1e-10 is -200 dB; everything should be very low.
    for &db in columns.last().unwrap() {
        assert!(db < -150.0, "silent bin not near floor: {db}");
    }
}

#[test]
fn columns_are_those_of_float_arithmetic() {
    let fft = 256;
    let hop = 100;
    let signal = sine(523.25, 8_000, 700);
    let mut p = producer(fft, hop, 8_000);
    let columns = process(&mut p, &signal);
    assert_eq!(columns.len(), 5);
    let plan = RealFftPlanner::<f32>::new().plan_fft_forward(fft);
    for (k, column) in columns.iter().enumerate() {
        let mut input: Vec<f32> = (0..fft)
            .map(|i| {
                let w = 0.5 - 0.5 * (2.0 * PI * (i as f32 / fft as f32)).cos();
                signal[k * hop + i] * w
            })
            .collect();
        let mut output = plan.make_output_vec();
        plan.process(&mut input, &mut output).unwrap();
        let expected: Vec<f32> =
            output.iter().map(|c| 20.0 * (c.norm() + 1e-10).log10()).collect();
        assert_eq!(column, &expected);
    }
}

#[test]
fn a_frame_short_of_samples_waits() {
    let mut p = producer(8, 4, 8_000);
    assert!(process(&mut p, &sine(100.0, 8_000, 7)).is_empty());
    assert!(process(&mut p, &[]).is_empty());
    assert_eq!(process(&mut p, &[0.5]).len(), 1);
    // Four of the eight stay; four more complete the next frame.
    assert!(process(&mut p, &[0.5; 3]).is_empty());
    assert_eq!(process(&mut p, &[0.5]).len(), 1);
}

#[test]
fn producer_reports_its_parameters() {
    let p = producer(2048, 512, 44_100);
    assert_eq!(p.fft_size(), 2048);
    assert_eq!(p.hop_size(), 512);
    assert_eq!(p.sample_rate(), 44_100);
    for bin in [0usize, 1, 7, 100, 1024] {
        let expected = bin as f32 * 44_100 as f32 / 2048 as f32;
        assert_eq!(p.bin_to_freq(bin), single(expected));
    }
}
