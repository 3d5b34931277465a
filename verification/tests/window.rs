use ntrancerator::config::WindowKind;
use ntrancerator::dsp::window::coefficients;
use ntrancerator::single::Single;

fn cosine(x: Single) -> Single {
    Single { bits: f32::from_bits(x.bits).cos().to_bits() }
}

fn window(kind: WindowKind, n: usize) -> Vec<f32> {
    coefficients(kind, n, &cosine).iter().map(|w| f32::from_bits(w.bits)).collect()
}

#[test]
fn empty_and_singleton() {
    assert!(window(WindowKind::Hann, 0).is_empty());
    assert_eq!(window(WindowKind::Hann, 1), vec![1.0]);
}

#[test]
fn hann_endpoints_and_center() {
    let w = window(WindowKind::Hann, 1024);
    // Periodic Hann starts at 0 and peaks at 1.0 in the middle.
    assert!(w[0].abs() < 1e-6);
    assert!((w[512] - 1.0).abs() < 1e-6);
}

#[test]
fn hamming_endpoints() {
    let w = window(WindowKind::Hamming, 1024);
    // Hamming has a non-zero pedestal of 0.08 at the edge.
    assert!((w[0] - 0.08).abs() < 1e-6);
    assert!((w[512] - 1.0).abs() < 1e-6);
}

#[test]
fn blackman_harris_is_bounded() {
    let w = window(WindowKind::BlackmanHarris, 2048);
    for &c in &w {
        assert!((-0.01..=1.01).contains(&c), "coeff out of range: {c}");
    }
    // Peak near the middle is close to 1.0.
    assert!((w[1024] - 1.0).abs() < 1e-3);
}

#[test]
fn all_windows_have_requested_length() {
    for kind in [WindowKind::Hann, WindowKind::Hamming, WindowKind::BlackmanHarris] {
        assert_eq!(window(kind, 777).len(), 777);
    }
}

#[test]
fn coefficients_are_those_of_float_arithmetic() {
    let pi = std::f32::consts::PI;
    for n in [2usize, 3, 64, 1000] {
        let hann = window(WindowKind::Hann, n);
        let hamming = window(WindowKind::Hamming, n);
        let harris = window(WindowKind::BlackmanHarris, n);
        for i in 0..n {
            let x = i as f32 / n as f32;
            let c = (2.0 * pi * x).cos();
            assert_eq!(hann[i], 0.5 - 0.5 * c);
            assert_eq!(hamming[i], 0.54 - 0.46 * c);
            let expected = 0.35875 - 0.48829 * c + 0.14128 * (4.0 * pi * x).cos()
                - 0.01168 * (6.0 * pi * x).cos();
            assert_eq!(harris[i], expected);
        }
    }
}

#[test]
fn hann_coefficients_lie_between_zero_and_one() {
    for n in [2usize, 5, 512, 2048] {
        for w in window(WindowKind::Hann, n) {
            assert!((0.0..=1.0).contains(&w));
        }
    }
}
