//! The state of the spectrogram display, and what each event does to it.
//!
//! The windowing layer delivers keys, sizes and surface results, and the audio
//! source delivers samples; the display answers with what is to be done.
use vstd::arithmetic::power2::*;
use vstd::prelude::*;

use crate::audio::ring;
use crate::audio::ring::drain_samples;
use crate::audio::RingSource;
use crate::config;
use crate::config::{Colormap, Config};
use crate::dsp;
use crate::dsp::StftProducer;
use crate::order;
use crate::render::history;
use crate::render::history::HistoryCursor;
use crate::rounding;
use crate::single;
use crate::single::{Single, ONE};
use crate::text::characters;

verus! {

/// Fixed history width in columns.
pub const HISTORY_WIDTH: u32 = 2048;

/// The bits of 5, the step of the dB floor.
pub const FIVE: u32 = 0x40a0_0000;

/// The bits of -5.
pub const MINUS_FIVE: u32 = 0xc0a0_0000;

/// Uniforms shared with the fragment shader.
#[derive(Copy, Clone, Debug, PartialEq, Eq, Structural)]
pub struct Params {
    pub cursor_offset: Single,
    pub width: Single,
    pub num_bins: Single,
    pub fft_size: Single,
    pub sample_rate: Single,
    pub db_floor: Single,
    pub db_ceiling: Single,
    pub freq_min: Single,
    pub freq_max: Single,
}

/// One column of levels and the texture column that it goes to.
pub struct Upload {
    pub x: u32,
    pub levels: Vec<Single>,
}

/// A key, as the windowing layer reports it.
pub enum Key {
    Escape,
    Character(String),
    Other,
}

/// What a key asks for.
#[derive(Copy, Clone, Debug, PartialEq, Eq, Structural)]
pub enum KeyAction {
    Quit,
    ToggleFullscreen,
    CycleColormap,
    LowerFloor,
    RaiseFloor,
    Nothing,
}

/// The action of a key that types a text, upper or lower case.
pub open spec fn action_of(typed: Seq<char>) -> KeyAction {
    if typed == seq!['q'] || typed == seq!['Q'] {
        KeyAction::Quit
    } else if typed == seq!['f'] || typed == seq!['F'] {
        KeyAction::ToggleFullscreen
    } else if typed == seq!['c'] || typed == seq!['C'] {
        KeyAction::CycleColormap
    } else if typed == seq!['['] {
        KeyAction::LowerFloor
    } else if typed == seq![']'] {
        KeyAction::RaiseFloor
    } else {
        KeyAction::Nothing
    }
}

/// What a pressed key asks for.
pub fn key_action(key: &Key) -> (r: KeyAction)
    ensures
        r == (match *key {
            Key::Escape => KeyAction::Quit,
            Key::Character(typed) => action_of(typed@),
            Key::Other => KeyAction::Nothing,
        }),
{
    match key {
        Key::Escape => KeyAction::Quit,
        Key::Character(typed) => {
            let chars = characters(typed.as_str());
            if chars.len() != 1 {
                return KeyAction::Nothing;
            }
            let c = chars[0];
            proof {
                assert(typed@ =~= seq![c]);
                assert(seq!['q'][0] == 'q' && seq!['Q'][0] == 'Q' && seq!['f'][0] == 'f'
                    && seq!['F'][0] == 'F' && seq!['c'][0] == 'c' && seq!['C'][0] == 'C'
                    && seq!['['][0] == '[' && seq![']'][0] == ']' && seq![c][0] == c);
            }
            if c == 'q' || c == 'Q' {
                KeyAction::Quit
            } else if c == 'f' || c == 'F' {
                KeyAction::ToggleFullscreen
            } else if c == 'c' || c == 'C' {
                KeyAction::CycleColormap
            } else if c == '[' {
                KeyAction::LowerFloor
            } else if c == ']' {
                KeyAction::RaiseFloor
            } else {
                KeyAction::Nothing
            }
        },
        Key::Other => KeyAction::Nothing,
    }
}

/// What is to be done after a key.
#[derive(Copy, Clone, Debug, PartialEq, Eq, Structural)]
pub enum Effect {
    Quit,
    SetFullscreen(bool),
    UploadColormap(Colormap),
    UpdateParams,
    Nothing,
}

/// What came of presenting a frame.
#[derive(Copy, Clone, Debug, PartialEq, Eq, Structural)]
pub enum Presented {
    Done,
    Lost,
    Outdated,
    OutOfMemory,
    Failed,
}

/// What is to be done after presenting a frame.
#[derive(Copy, Clone, Debug, PartialEq, Eq, Structural)]
pub enum Recovery {
    Nothing,
    /// Configure the surface again, at its present size.
    Reconfigure,
    Quit,
    Warn,
}

/// A lost or outdated surface is configured again and tried at the next frame;
/// without memory there is no going on; other failures pass.
pub fn recovery(presented: Presented) -> (r: Recovery)
    ensures
        r == (match presented {
            Presented::Done => Recovery::Nothing,
            Presented::Lost => Recovery::Reconfigure,
            Presented::Outdated => Recovery::Reconfigure,
            Presented::OutOfMemory => Recovery::Quit,
            Presented::Failed => Recovery::Warn,
        }),
{
    match presented {
        Presented::Done => Recovery::Nothing,
        Presented::Lost => Recovery::Reconfigure,
        Presented::Outdated => Recovery::Reconfigure,
        Presented::OutOfMemory => Recovery::Quit,
        Presented::Failed => Recovery::Warn,
    }
}

/// The size of a new surface: that of the window, but at least one pixel.
pub fn surface_size(width: u32, height: u32) -> (r: (u32, u32))
    ensures
        r.0 == if width > 1 {
            width
        } else {
            1
        },
        r.1 == if height > 1 {
            height
        } else {
            1
        },
{
    (
        if width > 1 {
            width
        } else {
            1
        },
        if height > 1 {
            height
        } else {
            1
        },
    )
}

/// A resize is followed unless the window has lost its extent.
pub fn follows_resize(width: u32, height: u32) -> (r: bool)
    ensures
        r == (width > 0 && height > 0),
{
    width > 0 && height > 0
}

/// The dB floor after a step: moved by `delta`, but at most to 1 dB below the
/// ceiling, and never down by a step up.
pub open spec fn moved_floor(floor: Single, delta: Single, ceiling: Single) -> Single {
    let capped = floor.sum(delta).lesser(ceiling.difference(Single { bits: ONE }));
    if (Single { bits: 0 }).less(delta) && capped.less(floor) {
        floor
    } else {
        capped
    }
}

/// A step never takes a floor below the ceiling to the ceiling or above it, for
/// ceilings above `-2^24` and up to `2^24` dB; beyond, subtracting 1 dB may change
/// nothing.
pub proof fn floor_stays_below_ceiling(floor: Single, delta: Single, ceiling: Single)
    requires
        -0x4b80_0000 < ceiling.rank() <= 0x4b80_0000,
        floor.less(ceiling),
    ensures
        moved_floor(floor, delta, ceiling).less(ceiling),
{
    order::minus_one_is_less(ceiling);
}

/// A step up does not lower the floor.
pub proof fn steps_up_do_not_lower(floor: Single, delta: Single, ceiling: Single)
    requires
        floor.finite(),
        delta.finite(),
        ceiling.finite(),
        (Single { bits: 0 }).less(delta),
    ensures
        floor.at_most(moved_floor(floor, delta, ceiling)),
{
    let one = Single { bits: ONE };
    order::lemma_sum(floor, delta);
    order::lemma_opposite(one);
    order::lemma_sum(ceiling, one.opposite());
}

/// A step down by 1 dB or more lowers the floor, for floors above `-2^24` and up to
/// `2^24` dB.
pub proof fn steps_down_lower(floor: Single, delta: Single, ceiling: Single)
    requires
        -0x4b80_0000 < floor.rank() <= 0x4b80_0000,
        delta.finite(),
        delta.rank() <= -ONE,
    ensures
        moved_floor(floor, delta, ceiling).less(floor),
{
    let minus_one = (Single { bits: ONE }).opposite();
    order::minus_one_is_less(floor);
    order::lemma_opposite(Single { bits: ONE });
    order::lemma_sum(delta, floor);
    order::lemma_sum(minus_one, floor);
    order::sum_commutes(delta, floor);
    order::sum_commutes(minus_one, floor);
    order::sum_is_monotone(delta, minus_one, floor);
}

/// The bits of the steps stand for 5 and -5.
proof fn lemma_five()
    ensures
        (Single { bits: FIVE }).value() == 5 * pow2(149),
        (Single { bits: MINUS_FIVE }).value() == -5 * pow2(149),
{
    lemma2_to64();
    rounding::lemma_units(128, 0xa0_0000);
    lemma_pow2_adds(21, 128);
}

/// Where a step takes a finite floor: to the lesser of the moved floor and 1 dB below the
/// ceiling, up to rounding, unless a step up would end below the floor.
proof fn lemma_moved_floor(floor: Single, delta: Single, ceiling: Single)
    requires
        floor.finite(),
        delta.finite(),
        ceiling.finite(),
    ensures
        ({
            let to = floor.value() + delta.value();
            let top = ceiling.value() - pow2(149);
            let target = if to < top {
                to
            } else {
                top
            };
            let moved = moved_floor(floor, delta, ceiling);
            if delta.value() > 0 && target < floor.value() {
                moved.finite() && moved.value() == floor.value()
            } else {
                order::near(moved, target, 1)
            }
        }),
{
    let one = Single { bits: ONE };
    let zero = Single { bits: 0 };
    let a = floor.sum(delta);
    let b = ceiling.difference(one);
    let (to, top) = (floor.value() + delta.value(), ceiling.value() - pow2(149));
    let target = if to < top {
        to
    } else {
        top
    };
    order::lemma_one();
    rounding::lemma_units(0, 0);
    single::order_is_by_value(zero, delta);
    order::lemma_sum(floor, delta);
    order::lemma_opposite(one);
    order::lemma_sum(ceiling, one.opposite());
    if to < top {
        order::lemma_rank_monotone(to, 1, top, 1);
    } else {
        order::lemma_rank_monotone(top, 1, to, 1);
    }
    let capped = a.lesser(b);
    assert(capped.rank() == order::rounded_rank(target, 1) && !capped.nan());
    order::lemma_near(capped, target, 1);
    order::lemma_rank_exact(floor, 1);
    if target < floor.value() {
        order::lemma_rank_monotone(target, 1, floor.value() * 1, 1);
        if delta.value() > 0 && !capped.less(floor) {
            single::order_is_by_value(capped, floor);
            single::order_is_by_value(floor, capped);
        }
    } else {
        order::lemma_rank_monotone(floor.value() * 1, 1, target, 1);
    }
}

/// What the keys do: one lowers the floor by 5 dB and one raises it by 5 dB, but not
/// beyond 1 dB below the ceiling and never down by a step up (values in units of
/// `2^-149`, up to rounding); one goes on to the next colormap and one switches
/// fullscreen. Each leaves everything else as it is, and says what is to be done.
pub proof fn keys_change_one_thing(v: &mut Visualizer, action: KeyAction, effect: Effect)
    requires
        call_ensures(Visualizer::press, (v, action), effect),
        old(v).params.db_floor.finite(),
        old(v).params.db_ceiling.finite(),
    ensures
        final(v).producer == old(v).producer,
        final(v).cursor == old(v).cursor,
        final(v).params == (Params { db_floor: final(v).params.db_floor, ..old(v).params }),
        ({
            let floor = old(v).params.db_floor.value();
            let top = old(v).params.db_ceiling.value() - pow2(149);
            let moved = final(v).params.db_floor;
            let down = floor - 5 * pow2(149);
            let up = floor + 5 * pow2(149);
            match action {
                KeyAction::LowerFloor => order::near(
                    moved,
                    if down < top {
                        down
                    } else {
                        top
                    },
                    1,
                ),
                KeyAction::RaiseFloor => if top < floor {
                    moved.finite() && moved.value() == floor
                } else {
                    order::near(
                        moved,
                        if up < top {
                            up
                        } else {
                            top
                        },
                        1,
                    )
                },
                _ => moved == old(v).params.db_floor,
            }
        }),
        action == KeyAction::CycleColormap ==> final(v).colormap != old(v).colormap && effect
            == Effect::UploadColormap(final(v).colormap),
        action != KeyAction::CycleColormap ==> final(v).colormap == old(v).colormap,
        action == KeyAction::ToggleFullscreen ==> final(v).fullscreen == !old(v).fullscreen
            && effect == Effect::SetFullscreen(final(v).fullscreen),
        action != KeyAction::ToggleFullscreen ==> final(v).fullscreen == old(v).fullscreen,
        action == KeyAction::LowerFloor || action == KeyAction::RaiseFloor ==> effect
            == Effect::UpdateParams,
        effect == Effect::Quit <==> action == KeyAction::Quit,
        effect == Effect::Nothing <==> action == KeyAction::Nothing,
{
    let floor = old(v).params.db_floor;
    let ceiling = old(v).params.db_ceiling;
    lemma_five();
    lemma_pow2_pos(149);
    lemma_moved_floor(floor, Single { bits: FIVE }, ceiling);
    lemma_moved_floor(floor, Single { bits: MINUS_FIVE }, ceiling);
}

/// Pumping samples through a ready display: there is one upload for each complete frame
/// of the stream, hop by hop, each made of its frame; the uploads go to successive
/// columns of the history, from the cursor on and round; and the offset follows the
/// cursor. Everything else that is shown stays.
pub proof fn uploads_follow_one_another<
    S: Fn(&Vec<Single>) -> Vec<Single>,
    L: Fn(Single) -> Single,
>(
    v: &mut Visualizer,
    samples: &[Single],
    spectrum: S,
    log10: L,
    uploads: Vec<Upload>,
    k: int,
)
    requires
        1 <= old(v).producer.hop() <= old(v).producer.size(),
        samples@.len() > 0,
        0 <= old(v).cursor.next_column() < old(v).cursor.columns() <= 0x100_0000,
        call_ensures(Visualizer::pump::<S, L>, (v, samples, true, &spectrum, &log10), uploads),
    ensures
        ({
            let stream = old(v).producer.waiting() + samples@;
            let (size, hop) = (old(v).producer.size(), old(v).producer.hop());
            let n = uploads.len() as int;
            let (start, width) = (old(v).cursor.next_column(), old(v).cursor.columns());
            &&& n == 0 <==> stream.len() < size
            &&& n > 0 ==> (n - 1) * hop + size <= stream.len() < n * hop + size
            &&& final(v).producer.waiting() == stream.skip(n * hop)
            &&& 0 <= k < n ==> {
                &&& uploads[k].x == (start + k) % width
                &&& dsp::is_column(
                    stream.subrange(k * hop, k * hop + size),
                    old(v).producer.taps(),
                    spectrum,
                    log10,
                    uploads[k].levels@,
                )
            }
            &&& final(v).cursor.columns() == width
            &&& final(v).cursor.next_column() == (start + n) % width
            &&& order::near(
                final(v).params.cursor_offset,
                ((start + n) % width) * pow2(149),
                width,
            )
            &&& final(v).params == (Params {
                cursor_offset: final(v).params.cursor_offset,
                ..old(v).params
            })
            &&& final(v).colormap == old(v).colormap
            &&& final(v).fullscreen == old(v).fullscreen
        }),
{
    let stream = old(v).producer.waiting() + samples@;
    let (size, hop) = (old(v).producer.size(), old(v).producer.hop());
    let n = uploads.len() as int;
    let (start, width) = (old(v).cursor.next_column(), old(v).cursor.columns());
    dsp::lemma_frames_of(stream, size, hop);
    assert(n == dsp::frames(stream, size, hop).len());
    if 0 <= k < n {
        assert(uploads@[k].x == (start + k) % width);
        assert(dsp::is_column(
            dsp::frames(stream, size, hop)[k],
            old(v).producer.taps(),
            spectrum,
            log10,
            uploads@[k].levels@,
        ));
    }
    let x = (start + n) % width;
    vstd::arithmetic::div_mod::lemma_mod_bound(start + n, width);
    history::lemma_offset(x, width);
}

/// What keys ask for: a key that types one of `q`, `f`, `c` in either case, or a bracket, has
/// an action of its own, Escape quits, and no other key or text does anything.
pub proof fn keys_have_one_action_each(key: Key, r: KeyAction)
    requires
        call_ensures(key_action, (&key,), r),
    ensures
        key is Escape ==> r == KeyAction::Quit,
        key is Other ==> r == KeyAction::Nothing,
        key is Character && key->Character_0@.len() != 1 ==> r == KeyAction::Nothing,
        key is Character && key->Character_0@.len() == 1 ==> {
            let c = key->Character_0@[0] as int;
            &&& r == KeyAction::Quit <==> c == 0x71 || c == 0x51
            &&& r == KeyAction::ToggleFullscreen <==> c == 0x66 || c == 0x46
            &&& r == KeyAction::CycleColormap <==> c == 0x63 || c == 0x43
            &&& r == KeyAction::LowerFloor <==> c == 0x5b
            &&& r == KeyAction::RaiseFloor <==> c == 0x5d
        },
{
    if key is Character && key->Character_0@.len() == 1 {
        let typed = key->Character_0@;
        let c = typed[0];
        assert(typed =~= seq![c]);
        assert(seq!['q'][0] == 'q' && seq!['Q'][0] == 'Q' && seq!['f'][0] == 'f' && seq!['F'][0]
            == 'F' && seq!['c'][0] == 'c' && seq!['C'][0] == 'C' && seq!['['][0] == '['
            && seq![']'][0] == ']' && seq![c][0] == c);
    } else if key is Character {
        assert(seq!['q'].len() == 1 && seq!['Q'].len() == 1 && seq!['f'].len() == 1
            && seq!['F'].len() == 1 && seq!['c'].len() == 1 && seq!['C'].len() == 1
            && seq!['['].len() == 1 && seq![']'].len() == 1);
    }
}

/// A new surface has the extent of the window, and at least one pixel each way; a resize is
/// followed if and only if both extents are left.
pub proof fn surfaces_have_an_extent(width: u32, height: u32, r: (u32, u32), followed: bool)
    requires
        call_ensures(surface_size, (width, height), r),
        call_ensures(follows_resize, (width, height), followed),
    ensures
        r.0 >= 1 && r.1 >= 1,
        width >= 1 ==> r.0 == width,
        height >= 1 ==> r.1 == height,
        width == 0 ==> r.0 == 1,
        height == 0 ==> r.1 == 1,
        followed <==> r == (width, height),
{
}

/// A new display shows what its configuration asks for: the producer has its frame, hop and
/// window, the cursor is at the first of 2048 columns, and the numbers handed to the shader
/// are those of the configuration (exactly as far as 24 bits go), with the axis up to the
/// given maximum or half of the rate.
pub proof fn new_displays_follow_the_configuration<C: Fn(Single) -> Single>(
    config: Config,
    sample_rate: u32,
    cosine: C,
    v: Visualizer,
)
    requires
        call_ensures(Visualizer::new::<C>, (&config, sample_rate, &cosine), v),
        2 <= config.fft_size <= 0x100_0000,
        sample_rate <= 0x100_0000,
    ensures
        v.producer.size() == config.fft_size,
        config.hop is Some ==> v.producer.hop() == config.hop->0,
        config.hop is None ==> 2 * v.producer.hop() <= config.fft_size <= 2 * v.producer.hop() + 1,
        v.producer.rate() == sample_rate,
        v.producer.waiting() == Seq::<Single>::empty(),
        dsp::window::is_window(config.window, config.fft_size as int, cosine, v.producer.taps()),
        v.cursor.columns() == 2048 && v.cursor.next_column() == 0,
        v.colormap == config.colormap && v.fullscreen == config.fullscreen,
        v.params.cursor_offset.bits == 0,
        v.params.width.value() == 2048 * pow2(149),
        ({
            let bins = config.fft_size as int / 2 + 1;
            v.params.num_bins.value() == bins * pow2(149)
        }),
        v.params.fft_size.value() == config.fft_size * pow2(149),
        v.params.sample_rate.value() == sample_rate * pow2(149),
        v.params.db_floor == config.db_floor && v.params.db_ceiling == config.db_ceiling,
        v.params.freq_min == config.freq_min,
        config.freq_max is Some ==> v.params.freq_max == config.freq_max->0,
        config.freq_max is None ==> 2 * v.params.freq_max.value() == sample_rate * pow2(149),
{
    order::whole_numbers_are_exact(HISTORY_WIDTH as int);
    order::whole_numbers_are_exact(config.fft_size as int / 2 + 1);
    order::whole_numbers_are_exact(config.fft_size as int);
    order::whole_numbers_are_exact(sample_rate as int);
    assert(v.producer.waiting() =~= Seq::<Single>::empty());
    config::lemma_top_frequency(config, sample_rate);
}

/// Pumping a source takes samples out of its ring until the ring is found empty, and uploads
/// one column for each complete frame of the stream that they continue, in the order and bit
/// for bit as they came out.
pub proof fn pumped_samples_come_from_the_ring<
    R: RingSource,
    S: Fn(&Vec<Single>) -> Vec<Single>,
    L: Fn(Single) -> Single,
>(v: &mut Visualizer, source: &mut R, spectrum: S, log10: L, uploads: Vec<Upload>)
    requires
        1 <= old(v).producer.hop() <= old(v).producer.size(),
        old(v).producer.waiting().len() < old(v).producer.size(),
        call_ensures(
            Visualizer::pump_source::<R, S, L>,
            (v, source, true, &spectrum, &log10),
            uploads,
        ),
    ensures
        final(source).native() == old(source).native(),
        ring::attempts(final(source).ring()) > ring::attempts(old(source).ring()),
        ({
            let before = ring::popped(old(source).ring());
            let after = ring::popped(final(source).ring());
            let came = Seq::new(
                (after.len() - before.len()) as nat,
                |i: int| Single { bits: after[before.len() + i] },
            );
            let stream = old(v).producer.waiting() + came;
            let (size, hop) = (old(v).producer.size(), old(v).producer.hop());
            let n = uploads.len() as int;
            &&& before.is_prefix_of(after)
            &&& ring::exhausted(final(source).ring()) || came.len() == usize::MAX
            &&& n == 0 <==> stream.len() < size
            &&& n > 0 ==> (n - 1) * hop + size <= stream.len() < n * hop + size
            &&& final(v).producer.waiting() == stream.skip(n * hop)
        }),
{
    let before = ring::popped(old(source).ring());
    let after = ring::popped(final(source).ring());
    let samples = choose|samples: Seq<Single>|
        {
            &&& ring::taken(
                old(source).ring(),
                ring::patterns(samples),
                final(source).ring(),
            )
            &&& ring::exhausted(final(source).ring()) || samples.len() == usize::MAX
            &&& ring::attempts(final(source).ring()) == ring::drained_attempts(
                ring::attempts(old(source).ring()),
                samples.len(),
            )
            &&& #[trigger] pumped(
                *old(v),
                samples,
                true,
                spectrum,
                log10,
                *final(v),
                uploads@,
            )
        };
    let came = Seq::new(
        (after.len() - before.len()) as nat,
        |i: int| Single { bits: after[before.len() + i] },
    );
    assert forall|i: int| 0 <= i < samples.len() implies samples[i] == #[trigger] came[i] by {
        assert(after[before.len() + i] == ring::patterns(samples)[i]);
    }
    assert(samples =~= came);
    let stream = old(v).producer.waiting() + samples;
    let (size, hop) = (old(v).producer.size(), old(v).producer.hop());
    dsp::lemma_frames_of(stream, size, hop);
    if samples.len() == 0 {
        assert(stream =~= old(v).producer.waiting());
        assert(0 * hop == 0) by (nonlinear_arith);
        assert(stream.skip(0) =~= stream);
    }
}

/// The history texture before the first column: the dB floor everywhere.
pub fn blank_history(db_floor: Single, num_bins: u32) -> (texels: Vec<Single>)
    requires
        HISTORY_WIDTH * num_bins <= u32::MAX,
    ensures
        texels.len() == HISTORY_WIDTH * num_bins,
        forall|i: int| 0 <= i < texels.len() ==> #[trigger] texels[i] == db_floor,
{
    let count: u32 = HISTORY_WIDTH * num_bins;
    let mut texels: Vec<Single> = Vec::new();
    let mut i: u32 = 0;
    while i < count
        invariant
            i <= count,
            texels.len() == i,
            forall|j: int| 0 <= j < i ==> #[trigger] texels[j] == db_floor,
        decreases count - i,
    {
        texels.push(db_floor);
        i = i + 1;
    }
    texels
}

/// The spectrogram display: the column producer, where its columns go, and how they
/// are shown.
pub struct Visualizer {
    pub producer: StftProducer,
    pub cursor: HistoryCursor,
    pub params: Params,
    pub colormap: Colormap,
    pub fullscreen: bool,
}

impl Visualizer {
    /// The display for a configuration and a source's sample rate, with the cosines
    /// that `cosine` gives for the window.
    pub fn new<C: Fn(Single) -> Single>(config: &Config, sample_rate: u32, cosine: &C) -> (v:
        Visualizer)
        requires
            config.fft_size >= 2,
            1 <= config.hop_samples() <= config.fft_size,
            forall|x: Single| call_requires(*cosine, (x,)),
        ensures
            v.producer.wf(),
            v.producer.size() == config.fft_size,
            v.producer.hop() == config.hop_samples(),
            v.producer.rate() == sample_rate,
            v.producer.waiting().len() == 0,
            dsp::window::is_window(
                config.window,
                config.fft_size as int,
                *cosine,
                v.producer.taps(),
            ),
            v.cursor.columns() == HISTORY_WIDTH,
            v.cursor.next_column() == 0,
            v.colormap == config.colormap,
            v.fullscreen == config.fullscreen,
            v.params == (Params {
                cursor_offset: Single { bits: 0 },
                width: Single::of_integer(HISTORY_WIDTH as int),
                num_bins: Single::of_integer(config.fft_size as int / 2 + 1),
                fft_size: Single::of_integer(config.fft_size as int),
                sample_rate: Single::of_integer(sample_rate as int),
                db_floor: config.db_floor,
                db_ceiling: config.db_ceiling,
                freq_min: config.freq_min,
                freq_max: config.top_frequency(sample_rate),
            }),
    {
        let producer = StftProducer::new(
            config.fft_size,
            config.hop_size(),
            config.window,
            sample_rate,
            cosine,
        );
        let num_bins = producer.num_bins();
        let params = Params {
            cursor_offset: Single { bits: 0 },
            width: Single::from_u64(HISTORY_WIDTH as u64),
            num_bins: Single::from_u64(num_bins as u64),
            fft_size: Single::from_u64(config.fft_size as u64),
            sample_rate: Single::from_u64(sample_rate as u64),
            db_floor: config.db_floor,
            db_ceiling: config.db_ceiling,
            freq_min: config.freq_min,
            freq_max: config.effective_freq_max(sample_rate),
        };
        Visualizer {
            producer,
            cursor: HistoryCursor::new(HISTORY_WIDTH),
            params,
            colormap: config.colormap,
            fullscreen: config.fullscreen,
        }
    }

    /// Turn drained samples into columns. When the display is `ready`, each column
    /// is placed at the cursor, which advances; otherwise the columns are lost.
    pub fn pump<S: Fn(&Vec<Single>) -> Vec<Single>, L: Fn(Single) -> Single>(
        &mut self,
        samples: &[Single],
        ready: bool,
        spectrum: &S,
        log10: &L,
    ) -> (uploads: Vec<Upload>)
        requires
            old(self).producer.wf(),
            forall|f: Vec<Single>|
                f.len() == old(self).producer.size() ==> #[trigger] call_requires(
                    *spectrum,
                    (&f,),
                ),
            forall|f: Vec<Single>, m: Vec<Single>|
                f.len() == old(self).producer.size() && #[trigger] call_ensures(*spectrum, (&f,), m)
                    ==> m.len() == old(self).producer.size() / 2 + 1,
            forall|x: Single| call_requires(*log10, (x,)),
        ensures
            pumped(*old(self), samples@, ready, *spectrum, *log10, *final(self), uploads@),
    {
        let ghost before = *self;
        let mut uploads: Vec<Upload> = Vec::new();
        if samples.len() == 0 {
            return uploads;
        }
        let columns = self.producer.process(samples, spectrum, log10);
        if !ready {
            return uploads;
        }
        let count: usize = columns.len();
        let places = self.cursor.advance_by(count);
        let ghost all = columns@;
        for levels in it: columns.into_iter()
            invariant
                all.len() == count,
                places.len() == count,
                it.seq() == all,
                uploads.len() == it.index(),
                forall|j: int|
                    0 <= j < uploads.len() ==> #[trigger] uploads[j].x == places[j]
                        && uploads[j].levels == all[j],
        {
            let x: u32 = places[uploads.len()];
            uploads.push(Upload { x, levels });
        }
        self.params.cursor_offset = self.cursor.uv_offset();
        proof {
            assert forall|j: int| 0 <= j < count implies #[trigger] uploads@[j].levels.len()
                == before.producer.size() / 2 + 1 by {
                assert(uploads@[j].x == places[j]);
                assert(all[j].len() == before.producer.size() / 2 + 1);
            }
            assert forall|j: int| 0 <= j < count implies dsp::is_column(
                dsp::frames(
                    before.producer.waiting() + samples@,
                    before.producer.size(),
                    before.producer.hop(),
                )[j],
                before.producer.taps(),
                *spectrum,
                *log10,
                #[trigger] uploads@[j].levels@,
            ) by {
                assert(uploads@[j].x == places[j]);
            }
        }
        uploads
    }

    /// Drain a source's ring and turn what was in it into columns.
    pub fn pump_source<
        R: RingSource,
        S: Fn(&Vec<Single>) -> Vec<Single>,
        L: Fn(Single) -> Single,
    >(&mut self, source: &mut R, ready: bool, spectrum: &S, log10: &L) -> (uploads: Vec<Upload>)
        requires
            old(self).producer.wf(),
            forall|f: Vec<Single>|
                f.len() == old(self).producer.size() ==> #[trigger] call_requires(
                    *spectrum,
                    (&f,),
                ),
            forall|f: Vec<Single>, m: Vec<Single>|
                f.len() == old(self).producer.size() && #[trigger] call_ensures(*spectrum, (&f,), m)
                    ==> m.len() == old(self).producer.size() / 2 + 1,
            forall|x: Single| call_requires(*log10, (x,)),
        ensures
            final(source).native() == old(source).native(),
            exists|samples: Seq<Single>|
                {
                    &&& ring::taken(
                        old(source).ring(),
                        ring::patterns(samples),
                        final(source).ring(),
                    )
                    &&& ring::exhausted(final(source).ring()) || samples.len() == usize::MAX
                    &&& ring::attempts(final(source).ring()) == ring::drained_attempts(
                        ring::attempts(old(source).ring()),
                        samples.len(),
                    )
                    &&& #[trigger] pumped(
                        *old(self),
                        samples,
                        ready,
                        *spectrum,
                        *log10,
                        *final(self),
                        uploads@,
                    )
                },
    {
        let samples = drain_samples(source.consumer());
        self.pump(samples.as_slice(), ready, spectrum, log10)
    }

    /// Carry out a key's action.
    pub fn press(&mut self, action: KeyAction) -> (effect: Effect)
        ensures
            final(self).producer == old(self).producer,
            final(self).cursor == old(self).cursor,
            final(self).fullscreen == (old(self).fullscreen != (action
                == KeyAction::ToggleFullscreen)),
            final(self).colormap == if action == KeyAction::CycleColormap {
                old(self).colormap.successor()
            } else {
                old(self).colormap
            },
            final(self).params == (match action {
                KeyAction::LowerFloor => Params {
                    db_floor: moved_floor(
                        old(self).params.db_floor,
                        Single { bits: MINUS_FIVE },
                        old(self).params.db_ceiling,
                    ),
                    ..old(self).params
                },
                KeyAction::RaiseFloor => Params {
                    db_floor: moved_floor(
                        old(self).params.db_floor,
                        Single { bits: FIVE },
                        old(self).params.db_ceiling,
                    ),
                    ..old(self).params
                },
                _ => old(self).params,
            }),
            effect == (match action {
                KeyAction::Quit => Effect::Quit,
                KeyAction::ToggleFullscreen => Effect::SetFullscreen(final(self).fullscreen),
                KeyAction::CycleColormap => Effect::UploadColormap(final(self).colormap),
                KeyAction::LowerFloor => Effect::UpdateParams,
                KeyAction::RaiseFloor => Effect::UpdateParams,
                KeyAction::Nothing => Effect::Nothing,
            }),
    {
        match action {
            KeyAction::Quit => Effect::Quit,
            KeyAction::ToggleFullscreen => {
                self.fullscreen = !self.fullscreen;
                Effect::SetFullscreen(self.fullscreen)
            },
            KeyAction::CycleColormap => {
                self.colormap = self.colormap.next();
                Effect::UploadColormap(self.colormap)
            },
            KeyAction::LowerFloor => {
                self.adjust_db_floor(Single { bits: MINUS_FIVE });
                Effect::UpdateParams
            },
            KeyAction::RaiseFloor => {
                self.adjust_db_floor(Single { bits: FIVE });
                Effect::UpdateParams
            },
            KeyAction::Nothing => Effect::Nothing,
        }
    }

    /// Move the dB floor, keeping it below the ceiling.
    pub fn adjust_db_floor(&mut self, delta: Single)
        ensures
            *final(self) == (Visualizer {
                params: Params {
                    db_floor: moved_floor(
                        old(self).params.db_floor,
                        delta,
                        old(self).params.db_ceiling,
                    ),
                    ..old(self).params
                },
                ..*old(self)
            }),
    {
        let floor = self.params.db_floor;
        let capped = floor.plus(delta).min(self.params.db_ceiling.minus(Single { bits: ONE }));
        // With the floor already within 1 dB of the ceiling, a step up leaves it.
        if (Single { bits: 0 }).lt(delta) && capped.lt(floor) {
            return;
        }
        self.params.db_floor = capped;
    }
}

/// What pumping `samples` does to a display and what it hands out for upload.
pub open spec fn pumped<S: Fn(&Vec<Single>) -> Vec<Single>, L: Fn(Single) -> Single>(
    before: Visualizer,
    samples: Seq<Single>,
    ready: bool,
    spectrum: S,
    log10: L,
    after: Visualizer,
    uploads: Seq<Upload>,
) -> bool {
    let stream = before.producer.waiting() + samples;
    let size = before.producer.size();
    let hop = before.producer.hop();
    let done = dsp::frames(stream, size, hop);
    &&& after.colormap == before.colormap
    &&& after.fullscreen == before.fullscreen
    &&& if samples.len() == 0 {
        &&& after == before
        &&& uploads.len() == 0
    } else {
        &&& after.producer.wf()
        &&& after.producer.size() == size
        &&& after.producer.hop() == hop
        &&& after.producer.rate() == before.producer.rate()
        &&& after.producer.taps() == before.producer.taps()
        &&& after.producer.waiting() == dsp::remainder(stream, size, hop)
        &&& if ready {
            &&& uploads.len() == done.len()
            &&& forall|k: int|
                0 <= k < uploads.len() ==> #[trigger] uploads[k].x == (before.cursor.next_column()
                    + k) % before.cursor.columns()
            &&& forall|k: int|
                0 <= k < uploads.len() ==> #[trigger] uploads[k].levels.len() == size / 2 + 1
            &&& forall|k: int|
                0 <= k < uploads.len() ==> dsp::is_column(
                    done[k],
                    before.producer.taps(),
                    spectrum,
                    log10,
                    #[trigger] uploads[k].levels@,
                )
            &&& after.cursor.columns() == before.cursor.columns()
            &&& after.cursor.next_column() == (before.cursor.next_column() + done.len())
                % before.cursor.columns()
            &&& after.params == (Params {
                cursor_offset: history::offset(
                    after.cursor.next_column(),
                    after.cursor.columns(),
                ),
                ..before.params
            })
        } else {
            &&& uploads.len() == 0
            &&& after.cursor == before.cursor
            &&& after.params == before.params
        }
    }
}

/// The texture starts with 2048 columns of bins, all at the floor.
pub proof fn histories_start_at_the_floor(
    db_floor: Single,
    num_bins: u32,
    texels: Vec<Single>,
    i: int,
)
    requires
        call_ensures(blank_history, (db_floor, num_bins), texels),
    ensures
        texels.len() == 2048 * num_bins,
        0 <= i < texels.len() ==> texels[i] == db_floor,
{
}

/// Only a surface that is lost or outdated is configured again, only a lack of memory ends
/// the display, and only a frame that was presented needs nothing.
pub proof fn each_failure_has_its_recovery(presented: Presented, r: Recovery)
    requires
        call_ensures(recovery, (presented,), r),
    ensures
        r == Recovery::Nothing <==> presented == Presented::Done,
        r == Recovery::Reconfigure <==> presented == Presented::Lost || presented
            == Presented::Outdated,
        r == Recovery::Quit <==> presented == Presented::OutOfMemory,
        r == Recovery::Warn <==> presented == Presented::Failed,
{
}

} // verus!
