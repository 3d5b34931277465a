//! Live capture: choosing the device and delivering what it records.
use vstd::arithmetic::power2::*;
use vstd::math::*;
use vstd::prelude::*;

use crate::audio;
use crate::audio::ring;
use crate::audio::ring::push_sample;
use crate::audio::{sum_of, AudioFormat, RingSource, Source};
use crate::single::{Single, ONE};
use crate::text;
use crate::text::{contains, parse_index};

verus! {

/// A running live-capture stream plus the consumer end of its analysis ring.
///
/// The stream must be kept alive for capture to continue; dropping it stops the
/// device.
pub struct LiveCapture<S> {
    pub sample_rate: u32,
    pub channels: u16,
    pub consumer: rtrb::Consumer<u32>,
    pub stream: S,
}

impl<S> Source for LiveCapture<S> {
    open spec fn native(&self) -> AudioFormat {
        AudioFormat { sample_rate: self.sample_rate, channels: self.channels }
    }

    fn sample_rate(&self) -> (r: u32) {
        self.sample_rate
    }

    fn channels(&self) -> (r: u16) {
        self.channels
    }
}

impl<S> RingSource for LiveCapture<S> {
    open spec fn ring(&self) -> rtrb::Consumer<u32> {
        self.consumer
    }

    fn consumer(&mut self) -> (c: &mut rtrb::Consumer<u32>) {
        &mut self.consumer
    }
}

/// Which input device to open.
#[derive(Copy, Clone, Debug, PartialEq, Eq, Structural)]
pub enum DeviceChoice {
    /// The system default.
    Default,
    /// The device at this place of the list.
    Index(usize),
    /// The request matches no device.
    NoMatch,
}

/// The device at place `i` has a name, and `want` occurs in it.
pub open spec fn device_matches(names: Seq<Option<String>>, i: int, want: Seq<char>) -> bool {
    names[i] is Some && text::occurs(want, names[i]->0@)
}

/// Choose an input device from the list of device names (`None` where a device
/// does not tell its name).
///
/// Without a request it is the default device. A request is a substring of a name,
/// which picks the first device that has it, or else an index into the list.
pub fn select_device(names: &[Option<String>], request: Option<&str>) -> (choice: DeviceChoice)
    ensures
        match request {
            None => choice == DeviceChoice::Default,
            Some(want) => {
                let index = text::index_of(want@);
                if exists|j: int|
                    0 <= j < names@.len() && #[trigger] device_matches(names@, j, want@) {
                    &&& choice matches DeviceChoice::Index(i)
                    &&& i < names@.len()
                    &&& device_matches(names@, i as int, want@)
                    &&& forall|j: int|
                        0 <= j < i ==> !#[trigger] device_matches(names@, j, want@)
                } else if index is Some && index->0 < names@.len() {
                    choice == DeviceChoice::Index(index->0 as usize)
                } else {
                    choice == DeviceChoice::NoMatch
                }
            },
        },
{
    match request {
        None => DeviceChoice::Default,
        Some(want) => {
            let mut i: usize = 0;
            while i < names.len()
                invariant
                    i <= names@.len(),
                    forall|j: int| 0 <= j < i ==> !#[trigger] device_matches(names@, j, want@),
                    request == Some(want),
                decreases names@.len() - i,
            {
                if let Some(name) = &names[i] {
                    if contains(name.as_str(), want) {
                        return DeviceChoice::Index(i);
                    }
                }
                i = i + 1;
            }
            if let Some(index) = parse_index(want) {
                if index < names.len() {
                    return DeviceChoice::Index(index);
                }
            }
            DeviceChoice::NoMatch
        },
    }
}

/// How a device is listed: under its name, and whether it is the default one.
pub fn list_entry(name: Option<String>, default_name: &Option<String>) -> (r: (String, bool))
    ensures
        r.0@ == (match name {
            Some(n) => n@,
            None => "<unknown>"@,
        }),
        r.1 == (*default_name is Some && (*default_name)->0@ == r.0@),
{
    let shown = match name {
        Some(n) => n,
        None => String::from_str("<unknown>"),
    };
    let is_default = match default_name {
        Some(d) => *d == shown,
        None => false,
    };
    (shown, is_default)
}

/// Deliver one block of recorded samples: downmix it and push it into the ring,
/// dropping samples rather than waiting when the ring is full. Returns how many
/// mono samples the ring accepted. Runs in the audio callback: each frame goes
/// straight into the ring, and nothing is allocated.
pub fn deliver(
    interleaved: &[Single],
    channels: u16,
    producer: &mut rtrb::Producer<u32>,
) -> (accepted: usize)
    ensures
        ring::offered(
            *old(producer),
            ring::patterns(audio::mono(interleaved@, channels)),
            *final(producer),
        ),
        accepted == ring::pushed(*final(producer)).len() - ring::pushed(*old(producer)).len(),
{
    let ghost mono = audio::mono(interleaved@, channels);
    let ghost all = ring::patterns(mono);
    let ch: usize = if channels > 1 {
        channels as usize
    } else {
        1
    };
    let inv = (Single { bits: ONE }).over(Single::from_u64(channels as u64));
    let len: usize = interleaved.len();
    let n: usize = len / ch;
    let mut accepted: usize = 0;
    let mut k: usize = 0;
    proof {
        vstd::arithmetic::div_mod::lemma_div_basics(len as int);
        ring::lemma_nothing_offered(*producer);
        assert(all.take(0) =~= Seq::empty());
    }
    while k < n
        invariant
            k <= n,
            accepted <= k,
            ch == if channels > 1 {
                channels as int
            } else {
                1
            },
            len == interleaved@.len(),
            n == len / ch,
            n == mono.len(),
            inv == (Single { bits: ONE }).quotient(Single::of_integer(channels as int)),
            mono == audio::mono(interleaved@, channels),
            all == ring::patterns(mono),
            ring::offered(*old(producer), all.take(k as int), *producer),
            accepted == ring::pushed(*producer).len() - ring::pushed(*old(producer)).len(),
        decreases n - k,
    {
        proof {
            vstd::arithmetic::div_mod::lemma_fundamental_div_mod(len as int, ch as int);
            assert(k * ch + ch <= len && 0 <= k * ch) by (nonlinear_arith)
                requires
                    k + 1 <= n,
                    ch * n <= len,
                    ch > 0,
            ;
        }
        let sample = if channels > 1 {
            sum_of(interleaved, k * ch, k * ch + ch).times(inv)
        } else {
            interleaved[k]
        };
        let ghost between = *producer;
        if push_sample(producer, sample) {
            accepted = accepted + 1;
        }
        proof {
            assert(sample == mono[k as int]);
            ring::offers_add_up(
                *old(producer),
                all.take(k as int),
                between,
                seq![sample.bits],
                *producer,
            );
            assert(all.take(k as int) + seq![sample.bits] =~= all.take(k + 1));
        }
        k = k + 1;
    }
    proof {
        assert(all.take(n as int) =~= all);
    }
    accepted
}

/// A recorded block that fits into the ring is delivered whole: one sample for each complete
/// frame, in order, the mean of its channels up to rounding (or the sample itself where there
/// is one channel). Values are in units of `2^-149`, and `bound` holds for frame `k`.
pub proof fn recorded_frames_are_delivered_as_means(
    interleaved: &[Single],
    channels: u16,
    producer: &mut rtrb::Producer<u32>,
    accepted: usize,
    k: int,
    bound: int,
)
    requires
        call_ensures(deliver, (interleaved, channels, producer), accepted),
        channels > 0,
        ring::pushed(*old(producer)).len() + interleaved@.len() <= ring::capacity(*old(producer)),
        bound >= 0,
        2 * channels * bound < pow2(276),
    ensures
        accepted * channels <= interleaved@.len() < (accepted + 1) * channels,
        0 <= k < accepted ==> {
            let before = ring::pushed(*old(producer)).len();
            let made = Single { bits: ring::pushed(*final(producer))[before + k] };
            let frame = interleaved@.subrange(k * channels, k * channels + channels);
            &&& channels == 1 ==> made == interleaved@[k]
            &&& channels > 1 && audio::bounded(frame, bound) ==> made.finite() && 0x100_0000 * abs(
                channels * made.value() - audio::exact_total(frame),
            ) <= (channels * channels + 6 * channels) * bound + 0x80_0000 * channels
        },
{
    let c = channels as int;
    let len = interleaved@.len() as int;
    let n = len / c;
    let mono = audio::mono(interleaved@, channels);
    vstd::arithmetic::div_mod::lemma_fundamental_div_mod(len, c);
    vstd::arithmetic::div_mod::lemma_div_basics(len);
    assert(0 <= n <= len && n * c == c * n && (n + 1) * c == c * n + c) by (nonlinear_arith)
        requires
            len == c * n + len % c,
            0 <= len % c < c,
            c > 0,
            len >= 0,
    ;
    assert(mono.len() == n);
    assert(accepted == n);
    if 0 <= k < n && c > 1 {
        let frame = interleaved@.subrange(k * c, k * c + c);
        assert(k * c >= 0 && k * c + c <= c * n) by (nonlinear_arith)
            requires
                0 <= k,
                k + 1 <= n,
                c > 0,
        ;
        if audio::bounded(frame, bound) {
            audio::lemma_mean(frame, c, bound);
        }
    }
}

/// The device chosen is the first whose name contains the request; where there is none, the
/// one at the place that the request denotes, and otherwise none.
pub proof fn names_come_before_places(
    names: &[Option<String>],
    request: Option<&str>,
    choice: DeviceChoice,
    j: int,
)
    requires
        call_ensures(select_device, (names, request), choice),
        0 <= j < names@.len(),
    ensures
        request is None <==> choice == DeviceChoice::Default,
        request is Some && names@[j] is Some && text::occurs(request->0@, names@[j]->0@) ==> {
            &&& choice is Index
            &&& choice->Index_0 <= j
            &&& names@[choice->Index_0 as int] is Some
            &&& text::occurs(request->0@, names@[choice->Index_0 as int]->0@)
        },
        request is Some && choice is Index ==> choice->Index_0 < names@.len() && (device_matches(
            names@,
            choice->Index_0 as int,
            request->0@,
        ) || text::index_of(request->0@) == Some(choice->Index_0 as int)),
{
    if request is Some {
        text::lemma_index_range(request->0@);
    }
    if request is Some && names@[j] is Some && text::occurs(request->0@, names@[j]->0@) {
        assert(device_matches(names@, j, request->0@));
    }
}

/// A device is listed under its own name, and marked if and only if the default one has that
/// name.
pub proof fn devices_are_listed_under_their_names(
    name: Option<String>,
    default_name: Option<String>,
    r: (String, bool),
)
    requires
        call_ensures(list_entry, (name, &default_name), r),
    ensures
        name is Some ==> r.0@ == name->0@,
        default_name is None ==> !r.1,
        name is Some && default_name is Some ==> (r.1 <==> name->0@ == default_name->0@),
{
}

/// A live source reports the format that its device was opened with, and its own ring.
pub proof fn live_sources_report_their_device<S>(source: LiveCapture<S>)
    ensures
        source.native().sample_rate == source.sample_rate,
        source.native().channels == source.channels,
        source.ring() == source.consumer,
{
}

} // verus!
