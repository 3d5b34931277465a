use ntrancerator::config::Colormap;
use ntrancerator::render::colormap::{lut_rgba8, sample, INFERNO, LUT_LEN, MAGMA, VIRIDIS};
use ntrancerator::single::Single;

const ALL: [Colormap; 4] = [
    Colormap::Inferno,
    Colormap::Magma,
    Colormap::Viridis,
    Colormap::Gray,
];

fn color(cm: Colormap, t: f32) -> [f32; 3] {
    sample(cm, Single { bits: t.to_bits() }).map(|c| f32::from_bits(c.bits))
}

/// Relative luminance of a linear RGB triple (Rec. 709 weights).
fn luminance(rgb: [f32; 3]) -> f32 {
    0.2126 * rgb[0] + 0.7152 * rgb[1] + 0.0722 * rgb[2]
}

/// The same interpolation in float arithmetic.
fn reference(cm: Colormap, t: f32) -> [f32; 3] {
    let t = t.clamp(0.0, 1.0);
    let table = match cm {
        Colormap::Inferno => INFERNO,
        Colormap::Magma => MAGMA,
        Colormap::Viridis => VIRIDIS,
        Colormap::Gray => return [t, t, t],
    };
    let anchors = table.map(|row| row.map(f32::from_bits));
    let segments = anchors.len() - 1;
    let scaled = t * segments as f32;
    let i = (scaled.floor() as usize).min(segments - 1);
    let frac = scaled - i as f32;
    let (a, b) = (anchors[i], anchors[i + 1]);
    [
        a[0] + (b[0] - a[0]) * frac,
        a[1] + (b[1] - a[1]) * frac,
        a[2] + (b[2] - a[2]) * frac,
    ]
}

#[test]
fn lut_has_correct_size_and_opaque_alpha() {
    for cm in ALL {
        let lut = lut_rgba8(cm);
        assert_eq!(lut.len(), LUT_LEN * 4);
        for px in lut.chunks_exact(4) {
            assert_eq!(px[3], 255, "alpha must be opaque");
        }
    }
}

#[test]
fn sample_clamps_out_of_range_t() {
    for cm in ALL {
        assert_eq!(color(cm, -1.0), color(cm, 0.0));
        assert_eq!(color(cm, 2.0), color(cm, 1.0));
    }
}

#[test]
fn endpoints_match_anchor_table() {
    // t=0 and t=1 should reproduce the first/last anchors exactly.
    let lo = color(Colormap::Inferno, 0.0);
    assert!((lo[0] - f32::from_bits(INFERNO[0][0])).abs() < 1e-6);
    let hi = color(Colormap::Viridis, 1.0);
    assert!((hi[1] - f32::from_bits(VIRIDIS[VIRIDIS.len() - 1][1])).abs() < 1e-6);
}

#[test]
fn perceptual_maps_get_brighter_overall() {
    // The dark-to-light maps should end far brighter than they start.
    for cm in [Colormap::Inferno, Colormap::Magma, Colormap::Viridis] {
        let lo = luminance(color(cm, 0.0));
        let hi = luminance(color(cm, 1.0));
        assert!(hi > lo + 0.3, "{cm:?}: hi {hi} not >> lo {lo}");
    }
}

#[test]
fn gray_is_neutral_and_linear() {
    assert_eq!(color(Colormap::Gray, 0.0), [0.0, 0.0, 0.0]);
    assert_eq!(color(Colormap::Gray, 0.5), [0.5, 0.5, 0.5]);
    assert_eq!(color(Colormap::Gray, 1.0), [1.0, 1.0, 1.0]);
}

#[test]
fn inferno_starts_dark() {
    assert!(luminance(color(Colormap::Inferno, 0.0)) < 0.05);
}

#[test]
fn colormap_cycles_through_all_four() {
    let mut cm = Colormap::Inferno;
    let mut seen = vec![cm];
    for _ in 0..4 {
        cm = cm.next();
        seen.push(cm);
    }
    // Cycles back to the start after exactly four steps.
    assert_eq!(seen[0], seen[4]);
    assert_eq!(seen[1], Colormap::Magma);
    assert_eq!(seen[2], Colormap::Viridis);
    assert_eq!(seen[3], Colormap::Gray);
}

#[test]
fn colors_are_those_of_float_arithmetic() {
    for cm in ALL {
        for i in -50..=1050 {
            let t = i as f32 / 1000.0;
            assert_eq!(color(cm, t), reference(cm, t), "{cm:?} at {t}");
        }
    }
}

#[test]
fn tables_are_those_of_float_arithmetic() {
    for cm in ALL {
        let mut expected = Vec::new();
        for i in 0..LUT_LEN {
            let t = i as f32 / (LUT_LEN - 1) as f32;
            for c in reference(cm, t) {
                expected.push((c.clamp(0.0, 1.0) * 255.0 + 0.5) as u8);
            }
            expected.push(255);
        }
        assert_eq!(lut_rgba8(cm), expected);
    }
    // The gray table is a ramp.
    let gray = lut_rgba8(Colormap::Gray);
    for i in 0..LUT_LEN {
        assert_eq!(gray[4 * i] as usize, i);
    }
}

#[test]
fn colors_lie_between_zero_and_one() {
    for cm in ALL {
        for i in 0..=2000 {
            for c in color(cm, i as f32 / 2000.0) {
                assert!((0.0..=1.0).contains(&c));
            }
        }
    }
}

#[test]
fn dark_ends_are_the_first_anchors() {
    for (cm, table) in [
        (Colormap::Inferno, INFERNO),
        (Colormap::Magma, MAGMA),
        (Colormap::Viridis, VIRIDIS),
    ] {
        assert_eq!(color(cm, 0.0), table[0].map(f32::from_bits));
    }
}

#[test]
fn light_ends_are_the_last_anchors_to_the_last_place() {
    for (cm, table) in [
        (Colormap::Inferno, INFERNO),
        (Colormap::Magma, MAGMA),
        (Colormap::Viridis, VIRIDIS),
    ] {
        let end = sample(cm, Single { bits: 1.0f32.to_bits() });
        for k in 0..3 {
            let distance = end[k].bits.abs_diff(table[table.len() - 1][k]);
            assert!(distance <= 1, "{cm:?} channel {k}");
        }
    }
}
