use ntrancerator::audio::analysis_ring;
use ntrancerator::audio::live::LiveCapture;
use ntrancerator::audio::ring::push_samples;
use ntrancerator::config::{Colormap, Config, WindowKind};
use ntrancerator::dsp::StftProducer;
use ntrancerator::render::image::rgb_to_rgba;
use ntrancerator::render::visualizer::{
    blank_history, follows_resize, key_action, recovery, surface_size, Effect, Key, KeyAction,
    Presented, Recovery, Visualizer, HISTORY_WIDTH,
};
use ntrancerator::single::Single;

fn single(x: f32) -> Single {
    Single { bits: x.to_bits() }
}

fn cosine(x: Single) -> Single {
    single(f32::from_bits(x.bits).cos())
}

fn log10(x: Single) -> Single {
    single(f32::from_bits(x.bits).log10())
}

/// A stand-in for the transform: the first samples of the frame.
fn spectrum(frame: &Vec<Single>) -> Vec<Single> {
    frame[..frame.len() / 2 + 1].to_vec()
}

fn small() -> Config {
    Config { fft_size: 8, hop: Some(4), window: WindowKind::Hamming, ..Config::default() }
}

fn samples(n: usize) -> Vec<Single> {
    (0..n).map(|i| single(0.5 + i as f32 / 64.0)).collect()
}

#[test]
fn parameters_come_from_the_configuration() {
    let v = Visualizer::new(&Config::default(), 48_000, &cosine);
    assert_eq!(v.params.cursor_offset, single(0.0));
    assert_eq!(v.params.width, single(2048.0));
    assert_eq!(v.params.num_bins, single(1025.0));
    assert_eq!(v.params.fft_size, single(2048.0));
    assert_eq!(v.params.sample_rate, single(48_000.0));
    assert_eq!(v.params.db_floor, single(-100.0));
    assert_eq!(v.params.db_ceiling, single(0.0));
    assert_eq!(v.params.freq_min, single(20.0));
    assert_eq!(v.params.freq_max, single(24_000.0));
    assert_eq!(v.colormap, Colormap::Inferno);
    assert!(!v.fullscreen);
    assert_eq!(v.cursor.width(), HISTORY_WIDTH);
    assert_eq!(v.producer.hop_size(), 1024);
}

#[test]
fn columns_are_placed_at_the_cursor() {
    let mut v = Visualizer::new(&small(), 8_000, &cosine);
    let uploads = v.pump(&samples(16), true, &spectrum, &log10);
    let mut p = StftProducer::new(8, 4, WindowKind::Hamming, 8_000, &cosine);
    let columns = p.process(&samples(16), &spectrum, &log10);
    assert_eq!(columns.len(), 3);
    assert_eq!(uploads.len(), 3);
    for (k, u) in uploads.iter().enumerate() {
        assert_eq!(u.x as usize, k);
        assert_eq!(u.levels, columns[k]);
        assert_eq!(u.levels.len(), 5);
    }
    assert_eq!(v.cursor.position(), 3);
    assert_eq!(v.params.cursor_offset, single(3.0 / 2048.0));
    // The next columns go on from there.
    let uploads = v.pump(&samples(4), true, &spectrum, &log10);
    assert_eq!(uploads.len(), 1);
    assert_eq!(uploads[0].x, 3);
}

#[test]
fn without_a_display_columns_are_lost() {
    let mut v = Visualizer::new(&small(), 8_000, &cosine);
    assert!(v.pump(&samples(16), false, &spectrum, &log10).is_empty());
    assert_eq!(v.cursor.position(), 0);
    assert_eq!(v.params.cursor_offset, single(0.0));
    // The samples were consumed all the same.
    assert_eq!(v.pump(&samples(4), true, &spectrum, &log10).len(), 1);
}

#[test]
fn without_samples_nothing_happens() {
    let mut v = Visualizer::new(&small(), 8_000, &cosine);
    assert!(v.pump(&[], true, &spectrum, &log10).is_empty());
    assert_eq!(v.cursor.position(), 0);
}

#[test]
fn a_source_is_drained() {
    let (mut producer, consumer) = analysis_ring(8, 8_000);
    let mut source = LiveCapture { sample_rate: 8_000, channels: 1, consumer, stream: () };
    let mut v = Visualizer::new(&small(), 8_000, &cosine);
    push_samples(&mut producer, &samples(12));
    assert_eq!(v.pump_source(&mut source, true, &spectrum, &log10).len(), 2);
    assert!(v.pump_source(&mut source, true, &spectrum, &log10).is_empty());
}

fn typed(s: &str) -> KeyAction {
    key_action(&Key::Character(s.to_string()))
}

#[test]
fn keys_ask_for_their_actions() {
    assert_eq!(key_action(&Key::Escape), KeyAction::Quit);
    assert_eq!(key_action(&Key::Other), KeyAction::Nothing);
    assert_eq!(typed("q"), KeyAction::Quit);
    assert_eq!(typed("Q"), KeyAction::Quit);
    assert_eq!(typed("f"), KeyAction::ToggleFullscreen);
    assert_eq!(typed("F"), KeyAction::ToggleFullscreen);
    assert_eq!(typed("c"), KeyAction::CycleColormap);
    assert_eq!(typed("C"), KeyAction::CycleColormap);
    assert_eq!(typed("["), KeyAction::LowerFloor);
    assert_eq!(typed("]"), KeyAction::RaiseFloor);
    for s in ["", "x", "qq", "{", "ç", "[]"] {
        assert_eq!(typed(s), KeyAction::Nothing, "{s:?}");
    }
}

#[test]
fn actions_change_the_display() {
    let mut v = Visualizer::new(&small(), 8_000, &cosine);
    assert_eq!(v.press(KeyAction::Quit), Effect::Quit);
    assert_eq!(v.press(KeyAction::Nothing), Effect::Nothing);
    assert_eq!(v.press(KeyAction::ToggleFullscreen), Effect::SetFullscreen(true));
    assert_eq!(v.press(KeyAction::ToggleFullscreen), Effect::SetFullscreen(false));
    assert_eq!(v.press(KeyAction::CycleColormap), Effect::UploadColormap(Colormap::Magma));
    assert_eq!(v.colormap, Colormap::Magma);
    assert_eq!(v.press(KeyAction::LowerFloor), Effect::UpdateParams);
    assert_eq!(v.params.db_floor, single(-105.0));
    assert_eq!(v.press(KeyAction::RaiseFloor), Effect::UpdateParams);
    assert_eq!(v.params.db_floor, single(-100.0));
}

#[test]
fn the_floor_stays_below_the_ceiling() {
    let mut v = Visualizer::new(&small(), 8_000, &cosine);
    for _ in 0..30 {
        v.press(KeyAction::RaiseFloor);
        assert!(v.params.db_floor.lt(v.params.db_ceiling));
    }
    assert_eq!(v.params.db_floor, single(-1.0));
    v.adjust_db_floor(single(0.25));
    assert_eq!(v.params.db_floor, single(-1.0));
}

#[test]
fn steps_up_never_lower_the_floor() {
    // The floor is less than a step away from the highest place.
    let config = Config { db_floor: single(-0.5), db_ceiling: single(0.0), ..small() };
    let mut v = Visualizer::new(&config, 8_000, &cosine);
    assert_eq!(v.press(KeyAction::RaiseFloor), Effect::UpdateParams);
    assert_eq!(v.params.db_floor, single(-0.5));
    assert_eq!(v.press(KeyAction::LowerFloor), Effect::UpdateParams);
    assert_eq!(v.params.db_floor, single(-5.5));
    assert_eq!(v.press(KeyAction::RaiseFloor), Effect::UpdateParams);
    assert_eq!(v.params.db_floor, single(-1.0));

    for start in [-1e6f32, -300.0, -100.0, -7.25, -1.0, -0.9, -0.001] {
        for delta in [1e-3f32, 0.25, 5.0, 1e5] {
            let config = Config { db_floor: single(start), ..small() };
            let mut v = Visualizer::new(&config, 8_000, &cosine);
            v.adjust_db_floor(single(delta));
            let floor = f32::from_bits(v.params.db_floor.bits);
            assert!(start <= floor && floor < 0.0, "{start} {delta}: {floor}");
            v.adjust_db_floor(single(-5.0));
            assert!(f32::from_bits(v.params.db_floor.bits) < floor);
        }
    }
}

#[test]
fn surfaces_recover_or_give_up() {
    assert_eq!(recovery(Presented::Done), Recovery::Nothing);
    assert_eq!(recovery(Presented::Lost), Recovery::Reconfigure);
    assert_eq!(recovery(Presented::Outdated), Recovery::Reconfigure);
    assert_eq!(recovery(Presented::OutOfMemory), Recovery::Quit);
    assert_eq!(recovery(Presented::Failed), Recovery::Warn);
}

#[test]
fn surfaces_keep_an_extent() {
    assert_eq!(surface_size(0, 0), (1, 1));
    assert_eq!(surface_size(1, 600), (1, 600));
    assert_eq!(surface_size(800, 0), (800, 1));
    assert!(follows_resize(1, 1));
    assert!(!follows_resize(0, 600));
    assert!(!follows_resize(800, 0));
}

#[test]
fn history_starts_at_the_floor() {
    let texels = blank_history(single(-100.0), 3);
    assert_eq!(texels, vec![single(-100.0); 2048 * 3]);
}

#[test]
fn pixels_gain_an_opaque_alpha() {
    let rgb = [1u8, 2, 3, 4, 5, 6, 7];
    assert_eq!(rgb_to_rgba(&rgb, 2), vec![1, 2, 3, 255, 4, 5, 6, 255]);
    assert_eq!(rgb_to_rgba(&rgb, 0), Vec::<u8>::new());
}
