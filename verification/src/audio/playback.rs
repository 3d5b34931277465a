//! File playback and its analysis tee.
//!
//! With playback, the output device is the clock: each time it asks for a block,
//! the [`Playhead`] hands out the frames to play and the mono samples of those
//! very frames for analysis, so audio and visuals stay aligned. Without it, a
//! [`Feeder`] pushes the mono samples into the ring in small pieces, to be paced
//! against a wall clock.
use vstd::arithmetic::power2::*;
use vstd::math::*;
use vstd::prelude::*;

use crate::audio;
use crate::audio::decode::DecodedAudio;
use crate::audio::ring;
use crate::audio::ring::push_samples;
use crate::audio::{AudioFormat, RingSource, Source};
use crate::order;
use crate::rounding;
use crate::single;
use crate::single::Single;

verus! {

/// A running file-playback (or paced-feeder) source plus the consumer end of its
/// analysis ring. Whichever driver is in use is held to keep it alive.
pub struct FilePlayback<S, F> {
    pub sample_rate: u32,
    pub channels: u16,
    pub consumer: rtrb::Consumer<u32>,
    pub stream: Option<S>,
    pub feeder: Option<F>,
}

impl<S, F> Source for FilePlayback<S, F> {
    open spec fn native(&self) -> AudioFormat {
        AudioFormat { sample_rate: self.sample_rate, channels: self.channels }
    }

    fn sample_rate(&self) -> (r: u32) {
        self.sample_rate
    }

    fn channels(&self) -> (r: u16) {
        self.channels
    }
}

impl<S, F> RingSource for FilePlayback<S, F> {
    open spec fn ring(&self) -> rtrb::Consumer<u32> {
        self.consumer
    }

    fn consumer(&mut self) -> (c: &mut rtrb::Consumer<u32>) {
        &mut self.consumer
    }
}

/// The sum of samples on top of zero, from the first to the last.
pub open spec fn running_sum(samples: Seq<Single>) -> Single
    decreases samples.len(),
{
    if samples.len() == 0 {
        Single { bits: 0 }
    } else {
        running_sum(samples.drop_last()).sum(samples.last())
    }
}

/// The mono sample of a played frame: its sum divided by the channel count.
pub open spec fn tee(frame: Seq<Single>, channels: int) -> Single {
    running_sum(frame).quotient(Single::of_integer(channels))
}

/// The number of output frames in a block, the last one perhaps cut short.
pub open spec fn block_frames(slots: int, channels: int) -> int {
    (slots + channels - 1) / channels
}

/// How many frames of a block can be played: as many as are left of the file.
pub open spec fn played_frames(left: int, slots: int, channels: int) -> int {
    if left / channels < block_frames(slots, channels) {
        left / channels
    } else {
        block_frames(slots, channels)
    }
}

/// One block of output: a sample per slot (`None` is silence), and one mono
/// sample per played frame. Filled again and again, it allocates only while its
/// blocks still grow.
pub struct Block {
    pub slots: Vec<Option<Single>>,
    pub mono: Vec<Single>,
}

impl Block {
    pub fn new() -> (b: Block)
        ensures
            b.slots.len() == 0,
            b.mono.len() == 0,
    {
        Block { slots: Vec::new(), mono: Vec::new() }
    }
}

/// A file being played.
pub struct Playhead {
    data: Vec<Single>,
    channels: u16,
    pos: usize,
}

impl Playhead {
    #[verifier::type_invariant]
    spec fn within(self) -> bool {
        self.channels > 0 && self.pos <= self.data.len()
    }

    /// The interleaved samples.
    pub closed spec fn samples(self) -> Seq<Single> {
        self.data@
    }

    pub closed spec fn channel_count(self) -> int {
        self.channels as int
    }

    /// The place of the next sample to play.
    pub closed spec fn position(self) -> int {
        self.pos as int
    }

    /// Start at the beginning of a decoded file.
    pub fn new(decoded: DecodedAudio) -> (p: Playhead)
        requires
            decoded.channels > 0,
        ensures
            p.samples() == decoded.interleaved@,
            p.channel_count() == decoded.channels,
            p.position() == 0,
    {
        Playhead { data: decoded.interleaved, channels: decoded.channels, pos: 0 }
    }

    /// Fill a block with `slots` output samples, in place of what it held. Complete
    /// frames are played while there are any; from the end of the file on, silence.
    pub fn fill(&mut self, slots: usize, block: &mut Block)
        ensures
            final(self).samples() == old(self).samples(),
            final(self).channel_count() == old(self).channel_count(),
            ({
                let c = old(self).channel_count();
                let pos = old(self).position();
                let n = played_frames(old(self).samples().len() - pos, slots as int, c);
                &&& final(self).position() == pos + n * c
                &&& final(block).slots.len() == slots
                &&& forall|i: int|
                    0 <= i < slots ==> #[trigger] final(block).slots[i] == if i / c < n {
                        Some(old(self).samples()[pos + i])
                    } else {
                        None
                    }
                &&& final(block).mono.len() == n
                &&& forall|k: int|
                    0 <= k < n ==> #[trigger] final(block).mono[k] == tee(
                        old(self).samples().subrange(
                            pos + k * c,
                            pos + if (k + 1) * c <= slots {
                                (k + 1) * c
                            } else {
                                slots as int
                            },
                        ),
                        c,
                    )
            }),
    {
        proof {
            use_type_invariant(&*self);
        }
        let ch: usize = self.channels as usize;
        let start: usize = self.pos;
        let len: usize = self.data.len();
        let ghost c = ch as int;
        let ghost data = self.data@;
        let ghost left = len - start;
        let ghost n = played_frames(left, slots as int, c);
        block.slots.clear();
        block.mono.clear();
        let mut pos: usize = start;
        let mut k: usize = 0;
        proof {
            assert(0 * c == 0);
            lemma_block(left, slots as int, c);
        }
        // The frames that are played.
        while block.slots.len() < slots && len - pos >= ch
            invariant
                ch == c,
                c > 0,
                data == self.data@,
                len == data.len(),
                left == len - start,
                n == played_frames(left, slots as int, c),
                start <= pos <= len,
                pos == start + k * c,
                k <= n,
                block.slots.len() == if k * c <= slots {
                    k * c
                } else {
                    slots as int
                },
                forall|i: int|
                    0 <= i < block.slots.len() ==> #[trigger] block.slots[i] == Some(
                        data[start + i],
                    ),
                block.mono.len() == k,
                forall|j: int|
                    0 <= j < k ==> #[trigger] block.mono[j] == tee(
                        data.subrange(
                            start + j * c,
                            start + if (j + 1) * c <= slots {
                                (j + 1) * c
                            } else {
                                slots as int
                            },
                        ),
                        c,
                    ),
            decreases slots - block.slots.len(),
        {
            proof {
                lemma_next_frame(left, slots as int, c, k as int);
                assert((k + 1) * c == k * c + c) by (nonlinear_arith);
            }
            let room: usize = slots - block.slots.len();
            let width: usize = if room < ch {
                room
            } else {
                ch
            };
            let mut sum = Single { bits: 0 };
            let mut j: usize = 0;
            let ghost base = block.slots.len() as int;
            let ghost heard = block.mono@;
            proof {
                assert(data.subrange(pos as int, pos as int) =~= Seq::<Single>::empty());
            }
            while j < width
                invariant
                    j <= width <= ch,
                    ch == c,
                    c > 0,
                    data == self.data@,
                    len == data.len(),
                    pos + ch <= len,
                    pos == start + k * c,
                    base == k * c,
                    block.slots.len() == base + j,
                    block.mono@ == heard,
                    sum == running_sum(data.subrange(pos as int, pos + j)),
                    forall|i: int|
                        0 <= i < block.slots.len() ==> #[trigger] block.slots[i] == Some(
                            data[start + i],
                        ),
                decreases width - j,
            {
                let v = self.data[pos + j];
                block.slots.push(Some(v));
                sum = sum.plus(v);
                proof {
                    assert(data.subrange(pos as int, pos + j + 1).drop_last() =~= data.subrange(
                        pos as int,
                        pos + j,
                    ));
                }
                j = j + 1;
            }
            block.mono.push(sum.over(Single::from_u64(ch as u64)));
            pos = pos + ch;
            k = k + 1;
        }
        proof {
            lemma_played(left, slots as int, c, k as int);
        }
        // From here on, silence.
        let ghost played = block.slots.len() as int;
        let ghost heard = block.mono@;
        while block.slots.len() < slots
            invariant
                0 <= played <= block.slots.len() <= slots,
                block.mono@ == heard,
                forall|i: int|
                    0 <= i < played ==> #[trigger] block.slots[i] == Some(data[start + i]),
                forall|i: int|
                    played <= i < block.slots.len() ==> #[trigger] block.slots[i] is None,
            decreases slots - block.slots.len(),
        {
            block.slots.push(None);
        }
        proof {
            assert forall|i: int| 0 <= i < slots implies #[trigger] block.slots[i] == if i / c < n {
                Some(data[start + i])
            } else {
                None
            } by {
                if i < played {
                    assert(i / c < n) by (nonlinear_arith)
                        requires
                            i < n * c,
                            c > 0,
                    ;
                } else {
                    assert(i / c >= n) by (nonlinear_arith)
                        requires
                            i >= n * c,
                            c > 0,
                    ;
                }
            }
        }
        self.pos = pos;
    }
}

proof fn lemma_block(left: int, slots: int, c: int)
    requires
        c > 0,
        left >= 0,
        slots >= 0,
    ensures
        played_frames(left, slots, c) >= 0,
        played_frames(left, slots, c) * c <= left,
{
    let q = left / c;
    vstd::arithmetic::div_mod::lemma_fundamental_div_mod(left, c);
    vstd::arithmetic::div_mod::lemma_div_pos_is_pos(left, c);
    vstd::arithmetic::div_mod::lemma_div_pos_is_pos(slots + c - 1, c);
    let n = played_frames(left, slots, c);
    assert(n * c <= c * q) by (nonlinear_arith)
        requires
            n <= q,
            c > 0,
    ;
}

/// With a frame left and a slot open, frame `k` is one of those played.
proof fn lemma_next_frame(left: int, slots: int, c: int, k: int)
    requires
        c > 0,
        0 <= k,
        k * c < slots,
        left - k * c >= c,
    ensures
        k + 1 <= played_frames(left, slots, c),
{
    assert(left / c >= k + 1) by (nonlinear_arith)
        requires
            c > 0,
            left >= k * c + c,
    ;
    assert((slots + c - 1) / c >= k + 1) by (nonlinear_arith)
        requires
            c > 0,
            slots + c - 1 >= k * c + c,
    ;
}

/// When no frame is left or no slot is open, all the playable frames are played.
proof fn lemma_played(left: int, slots: int, c: int, k: int)
    requires
        c > 0,
        0 <= k <= played_frames(left, slots, c),
        k * c >= slots || left - k * c < c,
    ensures
        k == played_frames(left, slots, c),
{
    let n = played_frames(left, slots, c);
    vstd::arithmetic::div_mod::lemma_fundamental_div_mod(left, c);
    vstd::arithmetic::div_mod::lemma_fundamental_div_mod(slots + c - 1, c);
    if k < n {
        if k * c >= slots {
            let b = block_frames(slots, c);
            assert(c * b >= k * c + c) by (nonlinear_arith)
                requires
                    b >= k + 1,
                    c > 0,
            ;
        } else {
            let q = left / c;
            assert(c * q >= k * c + c) by (nonlinear_arith)
                requires
                    q >= k + 1,
                    c > 0,
            ;
        }
    }
}

/// Playing in blocks plays the same frames as playing at once, as long as each
/// block but the last ends with a complete frame: the second block goes on where
/// the first one ended.
pub proof fn blocks_play_the_file_in_order(left: int, first: int, next: int, channels: int)
    requires
        channels > 0,
        left >= 0,
        first >= 0,
        next >= 0,
        first % channels == 0,
    ensures
        ({
            let played = played_frames(left, first, channels);
            played_frames(left, first + next, channels) == played + played_frames(
                left - played * channels,
                next,
                channels,
            )
        }),
{
    let c = channels;
    let q = left / c;
    let b = first / c;
    vstd::arithmetic::div_mod::lemma_fundamental_div_mod(left, c);
    vstd::arithmetic::div_mod::lemma_fundamental_div_mod(first, c);
    vstd::arithmetic::div_mod::lemma_fundamental_div_mod(next + c - 1, c);
    vstd::arithmetic::div_mod::lemma_div_pos_is_pos(left, c);
    vstd::arithmetic::div_mod::lemma_div_pos_is_pos(next + c - 1, c);
    let n = block_frames(next, c);
    vstd::arithmetic::div_mod::lemma_fundamental_div_mod_converse(first + c - 1, c, b, c - 1);
    assert((b + n) * c == c * b + c * n && (q - b) * c == c * q - c * b) by (nonlinear_arith);
    vstd::arithmetic::div_mod::lemma_fundamental_div_mod_converse(
        first + next + c - 1,
        c,
        b + n,
        (next + c - 1) % c,
    );
    assert(b * c == c * b && q * c == c * q) by (nonlinear_arith);
    if q >= b {
        vstd::arithmetic::div_mod::lemma_fundamental_div_mod_converse(
            left - b * c,
            c,
            q - b,
            left % c,
        );
    } else {
        vstd::arithmetic::div_mod::lemma_basic_div(left % c, c);
    }
}

proof fn lemma_running_sum(samples: Seq<Single>, bound: int)
    requires
        audio::bounded(samples, bound),
        bound >= 0,
        2 * samples.len() * bound < pow2(276),
    ensures
        running_sum(samples).finite(),
        abs(running_sum(samples).value()) <= 2 * samples.len() * bound,
        0x100_0000 * abs(running_sum(samples).value() - audio::exact_total(samples))
            <= samples.len() * samples.len() * bound,
    decreases samples.len(),
{
    let n = samples.len() as int;
    if n == 0 {
        assert(2 * n * bound == 0 && n * n * bound == 0) by (nonlinear_arith)
            requires
                n == 0,
        ;
        rounding::lemma_units(0, 0);
    } else {
        let k = n - 1;
        let rest = samples.drop_last();
        assert(2 * k * bound <= 2 * n * bound) by (nonlinear_arith)
            requires
                k < n,
                bound >= 0,
        ;
        assert forall|i: int| 0 <= i < rest.len() implies (#[trigger] rest[i]).finite() && abs(
            rest[i].value(),
        ) <= bound by {
            assert(rest[i] == samples[i]);
        }
        lemma_running_sum(rest, bound);
        assert(samples.last() == samples[k]);
        audio::lemma_added(k, bound, running_sum(rest), samples.last(), audio::exact_total(rest));
    }
}

/// The mono sample of a frame is its exact sum divided by the channel count, up to
/// rounding.
proof fn lemma_tee(frame: Seq<Single>, channels: int, bound: int)
    requires
        1 <= channels <= u16::MAX,
        frame.len() <= channels,
        audio::bounded(frame, bound),
        bound >= 0,
        2 * channels * bound < pow2(276),
    ensures
        tee(frame, channels).finite(),
        0x100_0000 * abs(channels * tee(frame, channels).value() - audio::exact_total(frame)) <= (
        channels * channels + 2 * channels) * bound + 0x80_0000 * channels,
        channels == 1 && frame.len() == 1 ==> tee(frame, channels).value() == frame[0].value(),
{
    let u = pow2(149) as int;
    let c = channels;
    let n = frame.len() as int;
    let count = Single::of_integer(c);
    let s = running_sum(frame);
    let t = tee(frame, c);
    assert(2 * n * bound <= 2 * c * bound && n * n * bound <= c * c * bound) by (nonlinear_arith)
        requires
            0 <= n <= c,
            bound >= 0,
    ;
    lemma_running_sum(frame, bound);
    lemma_pow2_pos(149);
    order::whole_numbers_are_exact(c);
    order::lemma_conversion(c);
    order::operations_are_near(s, count);
    let (sv, tv) = (s.value(), t.value());
    let a = abs(sv) as int;
    let (su, cu) = (sv * u, c * u);
    assert(abs(su) == a * u) by (nonlinear_arith)
        requires
            su == sv * u,
            a == abs(sv),
            u > 0,
    ;
    assert(t.finite()) by {
        if !t.finite() {
            assert(a * u < pow2(276) * cu) by (nonlinear_arith)
                requires
                    a < pow2(276),
                    cu == c * u,
                    c >= 1,
                    u > 0,
            ;
        }
    }
    let r = c * tv - sv;
    assert(tv * cu - su == r * u) by (nonlinear_arith)
        requires
            cu == c * u,
            su == sv * u,
            r == c * tv - sv,
    ;
    let top = 0x80_0000 * c + a;
    assert(-top <= 0x100_0000 * r <= top) by (nonlinear_arith)
        requires
            2 * (r * u) <= cu && -2 * (r * u) <= cu || 0x100_0000 * (r * u) <= a * u && -0x100_0000
                * (r * u) <= a * u,
            cu == c * u,
            top == 0x80_0000 * c + a,
            a >= 0,
            c > 0,
            u > 0,
    ;
    assert((c * c + 2 * c) * bound == c * c * bound + 2 * c * bound) by (nonlinear_arith);
    if c == 1 && n == 1 {
        let v = frame[0];
        assert(frame.drop_last() =~= Seq::<Single>::empty());
        assert(running_sum(frame.drop_last()) == (Single { bits: 0 }));
        rounding::lemma_units(0, 0);
        order::lemma_sum(Single { bits: 0 }, v);
        order::lemma_rank_exact(v, 1);
        single::order_is_by_value(s, v);
        single::order_is_by_value(v, s);
        order::lemma_quotient(s, count);
        order::lemma_rank_exact(s, u);
        assert(cu == u) by (nonlinear_arith)
            requires
                cu == c * u,
                c == 1,
        ;
        single::order_is_by_value(t, s);
        single::order_is_by_value(s, t);
    }
}

/// Filling a block plays the file frame by frame from where it stands, as long as there
/// are slots and complete frames, and then silence. The mono sample of each frame is the
/// mean of its channels, up to rounding (of a last frame that the block cuts short, those
/// beyond its end count as zero): where they are at most `bound` (in units of `2^-149`), it
/// times the channel count is their exact sum, to within `(c^2 + 2 c) * bound / 2^24` and
/// half a unit per channel. A single channel is heard as it is.
pub proof fn played_frames_are_heard_as_means(
    head: &mut Playhead,
    slots: usize,
    block: &mut Block,
    k: int,
    bound: int,
)
    requires
        0 < old(head).channel_count() <= u16::MAX,
        0 <= old(head).position() <= old(head).samples().len(),
        call_ensures(Playhead::fill, (head, slots, block), ()),
        bound >= 0,
        2 * old(head).channel_count() * bound < pow2(276),
    ensures
        ({
            let c = old(head).channel_count();
            let file = old(head).samples();
            let pos = old(head).position();
            let n = final(block).mono.len() as int;
            &&& final(head).samples() == file && final(head).channel_count() == c
            &&& final(head).position() == pos + n * c
            &&& pos + n * c <= file.len()
            &&& n * c >= slots || file.len() - (pos + n * c) < c
            &&& n > 0 ==> (n - 1) * c < slots
            &&& final(block).slots.len() == slots
            &&& forall|i: int|
                0 <= i < slots ==> #[trigger] final(block).slots[i] == if i < n * c {
                    Some(file[pos + i])
                } else {
                    None
                }
            &&& 0 <= k < n ==> {
                let width = if k * c + c <= slots {
                    c
                } else {
                    slots - k * c
                };
                let frame = file.subrange(pos + k * c, pos + k * c + width);
                let heard = final(block).mono[k];
                audio::bounded(frame, bound) ==> {
                    &&& heard.finite()
                    &&& 0x100_0000 * abs(c * heard.value() - audio::exact_total(frame)) <= (c * c
                        + 2 * c) * bound + 0x80_0000 * c
                    &&& c == 1 ==> heard.value() == frame[0].value()
                }
            }
        }),
{
    let c = old(head).channel_count();
    let file = old(head).samples();
    let pos = old(head).position();
    let left = file.len() - pos;
    let n = final(block).mono.len() as int;
    lemma_block(left, slots as int, c);
    assert(n == played_frames(left, slots as int, c));
    vstd::arithmetic::div_mod::lemma_fundamental_div_mod(left, c);
    vstd::arithmetic::div_mod::lemma_fundamental_div_mod(slots + c - 1, c);
    let q = left / c;
    let b = block_frames(slots as int, c);
    assert(n > 0 ==> (n - 1) * c + c <= c * b) by (nonlinear_arith)
        requires
            n <= b,
            c > 0,
    ;
    if n == q {
        assert(n * c == c * q) by (nonlinear_arith)
            requires
                n == q,
        ;
    } else {
        assert(n * c == c * b) by (nonlinear_arith)
            requires
                n == b,
        ;
    }
    assert forall|i: int| 0 <= i < slots implies #[trigger] final(block).slots[i] == if i < n * c {
        Some(file[pos + i])
    } else {
        None
    } by {
        if i < n * c {
            assert(i / c < n) by (nonlinear_arith)
                requires
                    i < n * c,
                    c > 0,
            ;
        } else {
            assert(i / c >= n) by (nonlinear_arith)
                requires
                    i >= n * c,
                    c > 0,
            ;
        }
    }
    if 0 <= k < n {
        let width = if k * c + c <= slots {
            c
        } else {
            slots - k * c
        };
        let frame = file.subrange(pos + k * c, pos + k * c + width);
        assert((k + 1) * c == k * c + c) by (nonlinear_arith);
        assert(k * c <= (n - 1) * c) by (nonlinear_arith)
            requires
                k <= n - 1,
                c > 0,
        ;
        assert(0 <= k * c && k * c + c <= n * c) by (nonlinear_arith)
            requires
                0 <= k,
                k + 1 <= n,
                c > 0,
        ;
        assert(final(block).mono[k] == tee(frame, c));
        if audio::bounded(frame, bound) {
            lemma_tee(frame, c, bound);
        }
    }
}

/// Pushes a file's mono samples into the ring, about 10 ms at a time.
pub struct Feeder {
    mono: Vec<Single>,
    chunk: usize,
    sent: usize,
}

/// The piece size at a sample rate: a hundredth of a second, and at least one sample.
pub open spec fn piece(sample_rate: u32) -> int {
    if sample_rate < 100 {
        1
    } else {
        (sample_rate / 100) as int
    }
}

/// The end of the piece that starts at `sent`.
pub open spec fn piece_end(sent: int, chunk: int, len: int) -> int {
    if len - sent < chunk {
        len
    } else {
        sent + chunk
    }
}

impl Feeder {
    #[verifier::type_invariant]
    spec fn within(self) -> bool {
        self.chunk > 0 && self.sent <= self.mono.len()
    }

    pub closed spec fn samples(self) -> Seq<Single> {
        self.mono@
    }

    pub closed spec fn piece_len(self) -> int {
        self.chunk as int
    }

    /// How many samples have been offered to the ring.
    pub closed spec fn offered(self) -> int {
        self.sent as int
    }

    pub fn new(decoded: &DecodedAudio) -> (f: Feeder)
        ensures
            f.samples() == audio::mono(decoded.interleaved@, decoded.channels),
            f.piece_len() == piece(decoded.sample_rate),
            f.offered() == 0,
    {
        let chunk: usize = if decoded.sample_rate < 100 {
            1
        } else {
            (decoded.sample_rate / 100) as usize
        };
        Feeder { mono: decoded.to_mono(), chunk, sent: 0 }
    }

    /// Offer the next piece to the ring. Returns how many samples have been
    /// offered in all, or `None` when there were none left.
    pub fn feed(&mut self, producer: &mut rtrb::Producer<u32>) -> (r: Option<usize>)
        ensures
            final(self).samples() == old(self).samples(),
            final(self).piece_len() == old(self).piece_len(),
            ({
                let len = old(self).samples().len() as int;
                let sent = old(self).offered();
                let end = piece_end(sent, old(self).piece_len(), len);
                let next = ring::patterns(old(self).samples().subrange(sent, end));
                if sent < len {
                    &&& r == Some(end as usize)
                    &&& final(self).offered() == end
                    &&& sent < end <= len
                    &&& ring::offered(*old(producer), next, *final(producer))
                } else {
                    &&& r is None
                    &&& final(self).offered() == sent
                    &&& *final(producer) == *old(producer)
                }
            }),
    {
        proof {
            use_type_invariant(&*self);
        }
        let len: usize = self.mono.len();
        let sent: usize = self.sent;
        if sent >= len {
            return None;
        }
        let end: usize = if len - sent < self.chunk {
            len
        } else {
            sent + self.chunk
        };
        push_samples(producer, vstd::slice::slice_subrange(self.mono.as_slice(), sent, end));
        self.sent = end;
        Some(end)
    }
}

/// The first `n` pieces of the samples, one after the other.
pub open spec fn pieces(samples: Seq<Single>, chunk: int, n: nat) -> Seq<Single>
    decreases n,
{
    if n == 0 {
        Seq::empty()
    } else {
        let before = pieces(samples, chunk, (n - 1) as nat);
        let sent = before.len() as int;
        before + samples.subrange(sent, piece_end(sent, chunk, samples.len() as int))
    }
}

/// Pieces are offered in order, each sample once: after `n` pieces it is the
/// first `n * chunk` samples, or all of them.
pub proof fn feeding_loses_nothing(samples: Seq<Single>, chunk: int, n: nat)
    requires
        chunk > 0,
    ensures
        pieces(samples, chunk, n) == samples.take(
            if n * chunk <= samples.len() {
                n * chunk
            } else {
                samples.len() as int
            },
        ),
    decreases n,
{
    if n == 0 {
        assert(n * chunk == 0) by (nonlinear_arith)
            requires
                n == 0,
        ;
        assert(pieces(samples, chunk, n) =~= samples.take(0));
    } else {
        feeding_loses_nothing(samples, chunk, (n - 1) as nat);
        assert(n * chunk == (n - 1) * chunk + chunk) by (nonlinear_arith);
        assert((n - 1) * chunk >= 0) by (nonlinear_arith)
            requires
                n >= 1,
                chunk > 0,
        ;
        let sent = pieces(samples, chunk, (n - 1) as nat).len() as int;
        let end = piece_end(sent, chunk, samples.len() as int);
        assert(samples.take(sent) + samples.subrange(sent, end) =~= samples.take(end));
    }
}

/// A feeder offers the downmix of a file, from its beginning, in pieces of a hundredth of a
/// second (to the whole sample, and at least one).
pub proof fn feeders_start_with_the_downmix(decoded: DecodedAudio, f: Feeder)
    requires
        call_ensures(Feeder::new, (&decoded,), f),
    ensures
        f.samples() == audio::mono(decoded.interleaved@, decoded.channels),
        f.offered() == 0,
        f.piece_len() >= 1,
        decoded.sample_rate >= 100 ==> 100 * f.piece_len() <= decoded.sample_rate < 100 * (
        f.piece_len() + 1),
        decoded.sample_rate < 100 ==> f.piece_len() == 1,
{
}

/// Each call offers the next piece, or what is left where that is less, and tells how many
/// samples have been offered; at the end it offers nothing.
pub proof fn feeding_offers_the_next_piece(
    f: &mut Feeder,
    producer: &mut rtrb::Producer<u32>,
    r: Option<usize>,
)
    requires
        call_ensures(Feeder::feed, (f, producer), r),
        old(f).piece_len() > 0,
        0 <= old(f).offered() <= old(f).samples().len() <= usize::MAX,
    ensures
        final(f).samples() == old(f).samples(),
        final(f).piece_len() == old(f).piece_len(),
        ({
            let (sent, len) = (old(f).offered(), old(f).samples().len() as int);
            let now = final(f).offered();
            if sent == len {
                r is None && now == sent && *final(producer) == *old(producer)
            } else {
                &&& sent < now <= len
                &&& now - sent <= old(f).piece_len()
                &&& now - sent == old(f).piece_len() || now == len
                &&& r is Some && r->0 == now
                &&& ring::offered(
                    *old(producer),
                    Seq::new(
                        (now - sent) as nat,
                        |i: int| old(f).samples()[sent + i].bits,
                    ),
                    *final(producer),
                )
            }
        }),
{
    let (sent, now) = (old(f).offered(), final(f).offered());
    assert(ring::patterns(old(f).samples().subrange(sent, now)) =~= Seq::new(
        (now - sent) as nat,
        |i: int| old(f).samples()[sent + i].bits,
    ));
}

/// A file is played from its beginning.
pub proof fn playing_starts_at_the_beginning(decoded: DecodedAudio, p: Playhead)
    requires
        call_ensures(Playhead::new, (decoded,), p),
    ensures
        p.samples() == decoded.interleaved@,
        p.channel_count() == decoded.channels,
        p.position() == 0,
{
}

/// A file source reports the format of its file, and its own ring.
pub proof fn file_sources_report_their_file<S, F>(source: FilePlayback<S, F>)
    ensures
        source.native().sample_rate == source.sample_rate,
        source.native().channels == source.channels,
        source.ring() == source.consumer,
{
}

} // verus!
