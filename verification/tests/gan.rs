use ntrancerator::explorer::{Explorer, FrameCounter};
use ntrancerator::gan::{launch_check, GanInfo, LaunchError, SimpleRng, SliderProjection};
use ntrancerator::single::Single;
use std::collections::HashSet;

fn float(x: Single) -> f32 {
    f32::from_bits(x.bits)
}

fn floats(xs: &[Single]) -> Vec<f32> {
    xs.iter().map(|&x| float(x)).collect()
}

/// Standard normal via Box-Muller, from two draws in multiples of 2^-53.
fn normal(a: u64, b: u64) -> Single {
    let scale = (1u64 << 53) as f64;
    let u1 = (a as f64 / scale).max(1e-10);
    let u2 = b as f64 / scale;
    let r = (-2.0 * u1.ln()).sqrt();
    Single { bits: ((r * (2.0 * std::f64::consts::PI * u2).cos()) as f32).to_bits() }
}

fn projection(z_dim: usize, sliders: usize, seed: u64) -> SliderProjection {
    SliderProjection::new(z_dim, sliders, seed, &normal)
}

#[test]
fn slider_projection_dimensions() {
    let proj = projection(512, 8, 42);
    assert_eq!(proj.z_dim(), 512);
    assert_eq!(proj.num_sliders(), 8);
    assert_eq!(proj.matrix.len(), 512 * 8);
    assert_eq!(proj.base_z.len(), 512);
}

#[test]
fn project_midpoint_returns_base() {
    let proj = projection(4, 2, 42);
    // Sliders at midpoint (63/64) map to t near 0, so z is near base_z.
    let sliders = [64u8, 64];
    let z = proj.project(&sliders);
    // t = (64/127)*2 - 1 = 0.00787..., nearly 0
    for (i, &zi) in z.iter().enumerate() {
        let diff = (float(zi) - float(proj.base_z[i])).abs();
        assert!(diff < 0.1, "dim {i}: diff {diff} too large");
    }
}

#[test]
fn project_extremes_differ() {
    let proj = projection(4, 2, 42);
    let z_low = floats(&proj.project(&[0, 0]));
    let z_high = floats(&proj.project(&[127, 127]));
    // Should be different
    let diff: f32 = z_low
        .iter()
        .zip(z_high.iter())
        .map(|(a, b)| (a - b).abs())
        .sum();
    assert!(diff > 0.1, "extremes should differ substantially");
}

#[test]
fn rerandomize_changes_direction() {
    let mut proj = projection(4, 2, 42);
    let before: Vec<Single> = proj.matrix[0..4].to_vec();
    proj.rerandomize_slider(0, 999, &normal);
    let after: Vec<Single> = proj.matrix[0..4].to_vec();
    assert_ne!(before, after);
    // Slider 1 should be unchanged
    let s1_before: Vec<Single> = proj.matrix[4..8].to_vec();
    let proj2 = projection(4, 2, 42);
    assert_eq!(s1_before, proj2.matrix[4..8].to_vec());
}

#[test]
fn rng_produces_varied_output() {
    let mut rng = SimpleRng::new(42);
    let vals: Vec<f32> = (0..100).map(|_| float(rng.normal(&normal))).collect();
    // Check it's not all zeros or identical
    let unique: HashSet<u32> = vals.iter().map(|v| v.to_bits()).collect();
    assert!(unique.len() > 50, "RNG should produce varied output");
    // Check mean is roughly 0
    let mean: f32 = vals.iter().sum::<f32>() / vals.len() as f32;
    assert!(
        mean.abs() < 0.5,
        "mean of 100 normals should be near 0, got {mean}"
    );
}

#[test]
fn gan_info_byte_counts() {
    let info = GanInfo {
        z_dim: 512,
        img_size: 1024,
        img_channels: 3,
    };
    assert_eq!(info.z_bytes(), 512 * 4);
    assert_eq!(info.image_bytes(), 1024 * 1024 * 3);
}

#[test]
fn header_is_read_little_endian() {
    let header = [0x00, 0x02, 0, 0, 0x00, 0x04, 0, 0, 3, 0, 0, 0x80];
    let info = GanInfo::from_header(&header);
    assert_eq!(info.z_dim, 512);
    assert_eq!(info.img_size, 1024);
    assert_eq!(info.img_channels, 0x8000_0003);
}

#[test]
fn request_holds_the_elements_little_endian() {
    let info = GanInfo { z_dim: 3, img_size: 1, img_channels: 3 };
    let z = [1.0f32, -2.5, 3.0e-40];
    let singles: Vec<Single> = z.iter().map(|x| Single { bits: x.to_bits() }).collect();
    let expected: Vec<u8> = z.iter().flat_map(|x| x.to_le_bytes()).collect();
    assert_eq!(info.request(&singles), expected);
}

#[test]
fn generator_is_the_xorshift_of_13_7_17() {
    for seed in [0u64, 1, 42, 1_000_000, u64::MAX - 1, u64::MAX] {
        let mut rng = SimpleRng::new(seed);
        let mut x = seed.wrapping_add(1);
        for _ in 0..50 {
            x ^= x << 13;
            x ^= x >> 7;
            x ^= x << 17;
            assert_eq!(rng.next_u64(), x);
        }
        assert_eq!(rng.state, x);
        // Every seed but the greatest stays away from zero.
        assert_eq!(rng.state == 0, seed == u64::MAX);
        x ^= x << 13;
        x ^= x >> 7;
        x ^= x << 17;
        assert_eq!(rng.uniform(), x >> 11);
    }
}

#[test]
fn the_same_seed_gives_the_same_projection() {
    let (a, b) = (projection(16, 3, 7), projection(16, 3, 7));
    assert_eq!(a.matrix, b.matrix);
    assert_eq!(a.base_z, b.base_z);
    assert_ne!(a.matrix, projection(16, 3, 8).matrix);
}

#[test]
fn projection_is_that_of_float_arithmetic() {
    let proj = projection(32, 8, 123);
    let matrix = floats(&proj.matrix);
    for sliders in [[0u8, 1, 2, 63, 64, 65, 126, 127], [200, 255, 0, 10, 20, 30, 40, 50]] {
        let mut z = floats(&proj.base_z);
        for (s, &val) in sliders.iter().enumerate() {
            let t = (val as f32 / 127.0) * 2.0 - 1.0;
            for i in 0..32 {
                z[i] += t * matrix[s * 32 + i];
            }
        }
        assert_eq!(floats(&proj.project(&sliders)), z);
    }
}

#[test]
fn slider_ends_move_by_exactly_one_direction() {
    // One slider and a base: at 0 the direction is subtracted, at 127 added.
    let proj = projection(5, 1, 11);
    let base = floats(&proj.base_z);
    let direction = floats(&proj.matrix);
    for i in 0..5 {
        assert_eq!(float(proj.project(&[0])[i]), base[i] + -1.0 * direction[i]);
        assert_eq!(float(proj.project(&[127])[i]), base[i] + direction[i]);
    }
}

#[test]
fn pressed_buttons_give_new_directions_in_order() {
    let mut e = Explorer::new(4, 42, &normal);
    let start = projection(4, 8, 42);
    assert_eq!(e.projection.matrix, start.matrix);
    assert_eq!(e.projection.base_z, start.base_z);

    let mut presses = [0u64; 8];
    e.look_at_buttons(&presses, &normal);
    assert_eq!(e.projection.matrix, start.matrix);

    // Two buttons: the seeds go up from the projection's seed plus 1000.
    presses[2] = 1;
    presses[5] = 3;
    e.look_at_buttons(&presses, &normal);
    let mut expected = projection(4, 8, 42);
    expected.rerandomize_slider(2, 1043, &normal);
    expected.rerandomize_slider(5, 1044, &normal);
    assert_eq!(e.projection.matrix, expected.matrix);
    assert_eq!(e.seed_counter, 1044);

    // Without a new press nothing changes.
    e.look_at_buttons(&presses, &normal);
    assert_eq!(e.projection.matrix, expected.matrix);
    assert_eq!(e.seed_counter, 1044);

    let sliders = [64u8; 8];
    assert_eq!(e.latent(&sliders), expected.project(&sliders));
}

#[test]
fn frame_rate_is_told_from_one_second_on() {
    let seconds = |x: f32| Single { bits: x.to_bits() };
    let mut c = FrameCounter::new();
    assert_eq!(c.tick(seconds(0.25)), None);
    assert_eq!(c.tick(seconds(0.999)), None);
    assert_eq!(c.tick(seconds(1.5)), Some(seconds(2.0)));
    assert_eq!(c.frames, 0);
    assert_eq!(c.tick(seconds(1.0)), Some(seconds(1.0)));
}

#[test]
fn a_generator_needs_its_environment_and_its_script() {
    assert_eq!(launch_check(true, true), Ok(()));
    assert_eq!(launch_check(false, true), Err(LaunchError::MissingPython));
    assert_eq!(launch_check(false, false), Err(LaunchError::MissingPython));
    assert_eq!(launch_check(true, false), Err(LaunchError::MissingScript));
}

#[test]
fn a_direction_drawn_again_stays_as_it_is() {
    let mut proj = projection(16, 4, 42);
    for slider in 0..4 {
        proj.rerandomize_slider(slider, 999 + slider as u64, &normal);
        let once = (proj.matrix.clone(), proj.base_z.clone());
        proj.rerandomize_slider(slider, 999 + slider as u64, &normal);
        assert_eq!((proj.matrix.clone(), proj.base_z.clone()), once);
    }
}

#[test]
fn the_first_direction_is_that_of_the_seed() {
    let fresh = projection(16, 4, 42);
    let mut again = projection(16, 4, 42);
    again.rerandomize_slider(0, 42, &normal);
    assert_eq!(fresh.matrix, again.matrix);
    let sliders = [5u8, 64, 127, 0];
    assert_eq!(fresh.project(&sliders), again.project(&sliders));
}

#[test]
fn further_sliders_change_nothing() {
    let proj = projection(16, 3, 5);
    let z = proj.project(&[1, 2, 3]);
    assert_eq!(proj.project(&[1, 2, 3, 4]), z);
    assert_eq!(proj.project(&[1, 2, 3, 127, 0, 255]), z);
    assert_ne!(proj.project(&[1, 2, 4]), z);
}

#[test]
fn mirrored_sliders_mirror_about_the_base() {
    let proj = projection(64, 8, 77);
    let base = floats(&proj.base_z);
    let bound = base.iter().chain(&floats(&proj.matrix)).fold(0.0f32, |m, x| m.max(x.abs()));
    let n = 8.0f64;
    let tolerance = (n * n + 8.0 * n) * bound as f64 / (1u32 << 23) as f64;
    for s in [[0u8; 8], [0, 1, 31, 63, 64, 100, 126, 127], [127; 8], [9, 8, 7, 6, 5, 4, 3, 2]] {
        let z = floats(&proj.project(&s));
        let w = floats(&proj.project(&s.map(|x| 127 - x)));
        for i in 0..64 {
            let off = z[i] as f64 + w[i] as f64 - 2.0 * base[i] as f64;
            assert!(off.abs() <= tolerance, "{s:?} {i}: {off}");
        }
    }
}
