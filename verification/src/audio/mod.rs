//! Audio sources and the shared mono contract.
//!
//! Every source, file or live, converges on the same contract: push mono
//! samples into the analysis ring at real-time rate. This module holds the
//! source-agnostic pieces: format description, channel downmix, ring sizing.
use vstd::arithmetic::power2::*;
use vstd::math::*;
use vstd::prelude::*;

use crate::order;
use crate::rounding;
use crate::single;
use crate::single::{Single, ONE, SIGN};

pub mod decode;
pub mod live;
pub mod playback;
pub mod ring;

verus! {

/// Native format reported by a source.
#[derive(Copy, Clone, Debug, PartialEq, Eq, Structural)]
pub struct AudioFormat {
    pub sample_rate: u32,
    pub channels: u16,
}

/// Common interface exposed by every audio source.
///
/// Sample delivery is push-based (into the ring) and differs between sources, so
/// the trait only carries the metadata that is needed to interpret the samples.
pub trait Source {
    /// The native format of the source.
    spec fn native(&self) -> AudioFormat;

    /// Native sample rate of the source, in Hz.
    fn sample_rate(&self) -> (r: u32)
        ensures
            r == self.native().sample_rate,
    ;

    /// Native channel count of the source before downmix.
    fn channels(&self) -> (r: u16)
        ensures
            r == self.native().channels,
    ;

    fn format(&self) -> (r: AudioFormat)
        ensures
            r == self.native(),
    {
        AudioFormat { sample_rate: self.sample_rate(), channels: self.channels() }
    }
}

/// A [`Source`] that also exposes the consumer end of its analysis ring, so the
/// render loop can drain mono samples regardless of which source produced them.
pub trait RingSource: Source {
    /// The consumer end of the ring.
    spec fn ring(&self) -> rtrb::Consumer<u32>;

    fn consumer(&mut self) -> (c: &mut rtrb::Consumer<u32>)
        ensures
            *c == old(self).ring(),
            final(self).ring() == *final(c),
            final(self).native() == old(self).native(),
    ;
}

/// The sum of samples, from the first to the last. The empty sum is negative
/// zero, the neutral element of addition.
pub open spec fn total(samples: Seq<Single>) -> Single
    decreases samples.len(),
{
    if samples.len() == 0 {
        Single { bits: SIGN }
    } else {
        total(samples.drop_last()).sum(samples.last())
    }
}

/// The mean of one frame: its sum times the inverse of the channel count.
pub open spec fn mean(frame: Seq<Single>, channels: int) -> Single {
    total(frame).product((Single { bits: ONE }).quotient(Single::of_integer(channels)))
}

/// The mono downmix: the mean of each complete frame, or the samples themselves
/// when there is only one channel.
pub open spec fn mono(interleaved: Seq<Single>, channels: u16) -> Seq<Single> {
    if channels <= 1 {
        interleaved
    } else {
        Seq::new(
            interleaved.len() / channels as nat,
            |k: int|
                mean(
                    interleaved.subrange(k * channels, k * channels + channels),
                    channels as int,
                ),
        )
    }
}

/// The sum of the samples from place `from` up to place `to`.
pub(crate) fn sum_of(samples: &[Single], from: usize, to: usize) -> (sum: Single)
    requires
        from <= to <= samples@.len(),
    ensures
        sum == total(samples@.subrange(from as int, to as int)),
{
    let mut sum = Single { bits: SIGN };
    let mut i: usize = from;
    proof {
        assert(samples@.subrange(from as int, from as int) =~= Seq::<Single>::empty());
    }
    while i < to
        invariant
            from <= i <= to <= samples@.len(),
            sum == total(samples@.subrange(from as int, i as int)),
        decreases to - i,
    {
        sum = sum.plus(samples[i]);
        proof {
            assert(samples@.subrange(from as int, i + 1).drop_last() =~= samples@.subrange(
                from as int,
                i as int,
            ));
        }
        i = i + 1;
    }
    sum
}

/// Downmix interleaved multi-channel samples to mono by averaging channels,
/// appending to `out`.
///
/// A trailing partial frame (fewer than `channels` samples) is ignored. With
/// `channels <= 1` the input is copied through unchanged.
pub fn downmix_to_mono(interleaved: &[Single], channels: u16, out: &mut Vec<Single>)
    ensures
        final(out)@ == old(out)@ + mono(interleaved@, channels),
{
    let ghost before = out@;
    if channels <= 1 {
        let mut i: usize = 0;
        proof {
            assert(before + interleaved@.take(0) =~= before);
        }
        while i < interleaved.len()
            invariant
                i <= interleaved@.len(),
                out@ == before + interleaved@.take(i as int),
            decreases interleaved@.len() - i,
        {
            out.push(interleaved[i]);
            proof {
                assert((before + interleaved@.take(i as int)).push(interleaved@[i as int])
                    =~= before + interleaved@.take(i + 1));
            }
            i = i + 1;
        }
        proof {
            assert(interleaved@.take(i as int) =~= interleaved@);
        }
        return;
    }
    let ch: usize = channels as usize;
    let inv = (Single { bits: ONE }).over(Single::from_u64(channels as u64));
    let len: usize = interleaved.len();
    let n: usize = len / ch;
    let ghost all = mono(interleaved@, channels);
    let mut k: usize = 0;
    proof {
        assert(before + all.take(0) =~= before);
    }
    while k < n
        invariant
            k <= n,
            ch == channels,
            channels > 1,
            len == interleaved@.len(),
            n == len / ch,
            inv == (Single { bits: ONE }).quotient(Single::of_integer(channels as int)),
            all == mono(interleaved@, channels),
            out@ == before + all.take(k as int),
        decreases n - k,
    {
        proof {
            vstd::arithmetic::div_mod::lemma_fundamental_div_mod(len as int, ch as int);
            assert(k * ch + ch <= len) by (nonlinear_arith)
                requires
                    k + 1 <= n,
                    ch * n <= len,
                    ch > 0,
            ;
            assert(k * ch >= 0) by (nonlinear_arith);
        }
        let sum = sum_of(interleaved, k * ch, k * ch + ch);
        out.push(sum.times(inv));
        proof {
            assert((before + all.take(k as int)).push(all[k as int]) =~= before + all.take(k + 1));
        }
        k = k + 1;
    }
    proof {
        assert(all.take(n as int) =~= all);
    }
}

/// Downmixing in pieces gives the same samples as in one piece, as long as each
/// piece ends with a complete frame.
pub proof fn downmix_in_pieces(first: Seq<Single>, next: Seq<Single>, channels: u16)
    requires
        channels > 1 ==> first.len() % channels as nat == 0,
    ensures
        mono(first + next, channels) == mono(first, channels) + mono(next, channels),
{
    if channels > 1 {
        let c = channels as int;
        let n = first.len() as int / c;
        let m = next.len() as int / c;
        vstd::arithmetic::div_mod::lemma_fundamental_div_mod(first.len() as int, c);
        vstd::arithmetic::div_mod::lemma_fundamental_div_mod(next.len() as int, c);
        let r = next.len() as int % c;
        assert((n + m) * c == c * n + c * m) by (nonlinear_arith);
        vstd::arithmetic::div_mod::lemma_fundamental_div_mod_converse(
            (first + next).len() as int,
            c,
            n + m,
            r,
        );
        let whole = mono(first + next, channels);
        let parts = mono(first, channels) + mono(next, channels);
        assert forall|k: int| 0 <= k < n + m implies #[trigger] whole[k] == parts[k] by {
            assert(k * c >= 0) by (nonlinear_arith)
                requires
                    k >= 0,
                    c > 0,
            ;
            if k < n {
                assert(k * c + c <= c * n) by (nonlinear_arith)
                    requires
                        k + 1 <= n,
                        c > 0,
                ;
                assert((first + next).subrange(k * c, k * c + c) =~= first.subrange(
                    k * c,
                    k * c + c,
                ));
            } else {
                let j = k - n;
                assert(k * c == c * n + j * c && j * c + c <= c * m && j * c >= 0)
                    by (nonlinear_arith)
                    requires
                        k == n + j,
                        0 <= j,
                        j + 1 <= m,
                        c > 0,
                ;
                assert((first + next).subrange(k * c, k * c + c) =~= next.subrange(
                    j * c,
                    j * c + c,
                ));
            }
        }
        assert(whole =~= parts);
    } else {
        assert(mono(first + next, channels) =~= mono(first, channels) + mono(next, channels));
    }
}

/// The exact sum of the values of samples.
pub open spec fn exact_total(samples: Seq<Single>) -> int
    decreases samples.len(),
{
    if samples.len() == 0 {
        0
    } else {
        exact_total(samples.drop_last()) + samples.last().value()
    }
}

/// All samples are finite, and none is further from zero than `bound`.
pub open spec fn bounded(samples: Seq<Single>, bound: int) -> bool {
    forall|i: int|
        0 <= i < samples.len() ==> (#[trigger] samples[i]).finite() && abs(samples[i].value())
            <= bound
}

/// One more sample on top of `k`: the sum `c` of `s` and `x` may be off a little more.
pub proof fn lemma_added(k: int, bound: int, s: Single, x: Single, exact: int)
    requires
        k >= 0,
        s.finite(),
        x.finite(),
        abs(x.value()) <= bound,
        abs(s.value()) <= 2 * k * bound,
        0x100_0000 * abs(s.value() - exact) <= k * k * bound,
        2 * (k + 1) * bound < pow2(276),
    ensures
        s.sum(x).finite(),
        abs(s.sum(x).value()) <= 2 * (k + 1) * bound,
        0x100_0000 * abs(s.sum(x).value() - (exact + x.value())) <= (k + 1) * (k + 1) * bound,
{
    let w = 2 * k * bound;
    let v = k * k * bound;
    assert(2 * (k + 1) * bound == w + 2 * bound && (k + 1) * (k + 1) * bound == v + w + bound)
        by (nonlinear_arith)
        requires
            w == 2 * k * bound,
            v == k * k * bound,
    ;
    order::operations_are_near(s, x);
    order::lemma_sum_error(s, x);
    let e = s.sum(x).value() - (s.value() + x.value());
    let d = s.value() - exact;
    assert(-(w + bound) <= 0x100_0000 * e <= w + bound);
    assert(-v <= 0x100_0000 * d <= v);
    assert(s.sum(x).value() - (exact + x.value()) == e + d);
}

/// A sum of bounded samples is close to the exact one.
proof fn lemma_total(samples: Seq<Single>, bound: int)
    requires
        bounded(samples, bound),
        bound >= 0,
        2 * samples.len() * bound < pow2(276),
    ensures
        total(samples).finite(),
        abs(total(samples).value()) <= 2 * samples.len() * bound,
        0x100_0000 * abs(total(samples).value() - exact_total(samples)) <= samples.len()
            * samples.len() * bound,
    decreases samples.len(),
{
    let n = samples.len() as int;
    if n == 0 {
        assert(2 * n * bound == 0 && n * n * bound == 0) by (nonlinear_arith)
            requires
                n == 0,
        ;
        rounding::lemma_units(0, 0);
    } else {
        let k = n - 1;
        let rest = samples.drop_last();
        assert(2 * k * bound <= 2 * n * bound) by (nonlinear_arith)
            requires
                k < n,
                bound >= 0,
        ;
        assert forall|i: int| 0 <= i < rest.len() implies (#[trigger] rest[i]).finite() && abs(
            rest[i].value(),
        ) <= bound by {
            assert(rest[i] == samples[i]);
        }
        lemma_total(rest, bound);
        assert(samples.last() == samples[k]);
        lemma_added(k, bound, total(rest), samples.last(), exact_total(rest));
    }
}

/// The mean of a frame is its exact sum divided by the channel count, up to rounding.
pub proof fn lemma_mean(frame: Seq<Single>, channels: int, bound: int)
    requires
        2 <= channels <= u16::MAX,
        frame.len() == channels,
        bounded(frame, bound),
        bound >= 0,
        2 * channels * bound < pow2(276),
    ensures
        mean(frame, channels).finite(),
        0x100_0000 * abs(channels * mean(frame, channels).value() - exact_total(frame)) <= (
        channels * channels + 6 * channels) * bound + 0x80_0000 * channels,
{
    let u = pow2(149) as int;
    let c = channels;
    let one = Single { bits: ONE };
    let count = Single::of_integer(c);
    let inv = one.quotient(count);
    let s = total(frame);
    let m = mean(frame, c);
    lemma_total(frame, bound);
    order::lemma_one();
    lemma_pow2_pos(149);
    lemma2_to64();
    lemma_pow2_strictly_increases(49, 149);
    lemma_pow2_adds(25, 24);
    order::whole_numbers_are_exact(c);
    order::lemma_conversion(c);
    // The inverse of the channel count.
    order::operations_are_near(one, count);
    let i = inv.value();
    let cu = c * u;
    let uu = u * u;
    assert(cu > 0 && uu > 0) by (nonlinear_arith)
        requires
            cu == c * u,
            uu == u * u,
            c > 0,
            u > 0,
    ;
    assert(pow2(276) >= u) by {
        lemma_pow2_strictly_increases(149, 276);
    }
    assert(inv.finite()) by {
        if !inv.finite() {
            assert(uu < pow2(276) * cu) by (nonlinear_arith)
                requires
                    uu == u * u,
                    cu == c * u,
                    c >= 2,
                    u > 0,
                    pow2(276) >= u,
            ;
        }
    }
    let g = i * c - u;
    assert(i * cu - uu == g * u) by (nonlinear_arith)
        requires
            cu == c * u,
            uu == u * u,
            g == i * c - u,
    ;
    assert(u >= 0x1_0000 * 0x100_0000 * 2);
    assert(-u <= 0x100_0000 * g <= u) by (nonlinear_arith)
        requires
            2 * (g * u) <= cu && -2 * (g * u) <= cu || 0x100_0000 * (g * u) <= uu && -0x100_0000
                * (g * u) <= uu,
            cu == c * u,
            uu == u * u,
            2 <= c <= 0xffff,
            u >= 0x1_0000 * 0x100_0000,
    ;
    assert(0 < i <= u) by (nonlinear_arith)
        requires
            g == i * c - u,
            -u <= 0x100_0000 * g <= u,
            c >= 2,
            u > 0,
    ;
    single::order_is_by_value(Single { bits: 0 }, inv);
    rounding::lemma_units(0, 0);
    single::order_is_by_value(inv, one);
    // The sum times that.
    order::product_within(s, inv);
    order::lemma_product_error(s, inv);
    let sv = s.value();
    let a = abs(sv) as int;
    let si = sv * i;
    let mv = m.value();
    let e = mv * u - si;
    assert(-(2 * (a * u)) <= c * si <= 2 * (a * u) && c * abs(si) <= 2 * (a * u))
        by (nonlinear_arith)
        requires
            si == sv * i,
            a == abs(sv),
            i > 0,
            i * c <= 2 * u,
            c > 0,
    ;
    let ce = c * e;
    let limit = 0x80_0000 * (c * u) + 2 * (a * u);
    assert(-limit <= 0x100_0000 * ce <= limit) by (nonlinear_arith)
        requires
            2 * e <= u && -2 * e <= u || 0x100_0000 * e <= abs(si) && -0x100_0000 * e <= abs(si),
            c * abs(si) <= 2 * (a * u),
            ce == c * e,
            limit == 0x80_0000 * (c * u) + 2 * (a * u),
            a >= 0,
            u > 0,
            c > 0,
    ;
    let sg = sv * g;
    assert(-(a * u) <= 0x100_0000 * sg <= a * u) by (nonlinear_arith)
        requires
            sg == sv * g,
            -u <= 0x100_0000 * g <= u,
            a == abs(sv),
    ;
    let r = c * mv - sv;
    let ru = r * u;
    assert(ru == ce + sg) by (nonlinear_arith)
        requires
            ru == r * u,
            r == c * mv - sv,
            ce == c * e,
            e == mv * u - si,
            si == sv * i,
            sg == sv * g,
            g == i * c - u,
    ;
    let top = 0x80_0000 * c + 3 * a;
    assert(-top <= 0x100_0000 * r <= top) by (nonlinear_arith)
        requires
            -(limit + a * u) <= 0x100_0000 * ru <= limit + a * u,
            ru == r * u,
            limit == 0x80_0000 * (c * u) + 2 * (a * u),
            top == 0x80_0000 * c + 3 * a,
            u > 0,
    ;
    assert((c * c + 6 * c) * bound == c * c * bound + 3 * (2 * c * bound)) by (nonlinear_arith);
}

proof fn lemma_total_undefined(samples: Seq<Single>, i: int)
    requires
        0 <= i < samples.len(),
        samples[i].nan(),
    ensures
        total(samples).nan(),
    decreases samples.len(),
{
    if i < samples.len() - 1 {
        lemma_total_undefined(samples.drop_last(), i);
    }
}

/// A frame with an undefined sample has an undefined mean.
pub proof fn undefined_samples_are_not_hidden(
    interleaved: &[Single],
    channels: u16,
    out: &mut Vec<Single>,
    k: int,
    i: int,
)
    requires
        call_ensures(downmix_to_mono, (interleaved, channels, out), ()),
        channels > 1,
        0 <= k,
        (k + 1) * channels <= interleaved@.len(),
        0 <= i < channels,
        interleaved@[k * channels + i].nan(),
    ensures
        final(out)[old(out).len() + k].nan(),
{
    let c = channels as int;
    let len = interleaved@.len() as int;
    assert((k + 1) * c == k * c + c && k * c >= 0) by (nonlinear_arith)
        requires
            k >= 0,
            c > 0,
    ;
    vstd::arithmetic::div_mod::lemma_fundamental_div_mod(len, c);
    let n = len / c;
    assert(k < n) by (nonlinear_arith)
        requires
            (k + 1) * c <= len,
            len < c * n + c,
            c > 0,
    ;
    let frame = interleaved@.subrange(k * c, k * c + c);
    lemma_total_undefined(frame, i);
    assert(final(out)[old(out).len() + k] == mono(interleaved@, channels)[k]);
}

/// Downmixing appends one sample for each complete frame: the mean of its channels, up to
/// rounding. Where the samples of frame `k` are at most `bound` (in units of `2^-149`),
/// the new sample times the channel count is their exact sum, to within
/// `(c^2 + 6 c) * bound / 2^24` and half a unit per channel. A single channel is copied.
pub proof fn downmixed_frames_are_means(
    interleaved: &[Single],
    channels: u16,
    out: &mut Vec<Single>,
    k: int,
    bound: int,
)
    requires
        call_ensures(downmix_to_mono, (interleaved, channels, out), ()),
        bound >= 0,
        2 * channels * bound < pow2(276),
    ensures
        final(out)@.take(old(out).len() as int) == old(out)@,
        channels <= 1 ==> final(out)@ == old(out)@ + interleaved@,
        channels > 1 ==> {
            let n = final(out).len() - old(out).len();
            &&& n * channels <= interleaved@.len() < (n + 1) * channels
            &&& 0 <= k < n ==> {
                let frame = interleaved@.subrange(k * channels, k * channels + channels);
                let made = final(out)[old(out).len() + k];
                bounded(frame, bound) ==> made.finite() && 0x100_0000 * abs(
                    channels * made.value() - exact_total(frame),
                ) <= (channels * channels + 6 * channels) * bound + 0x80_0000 * channels
            }
        },
{
    let all = mono(interleaved@, channels);
    assert(final(out)@.take(old(out).len() as int) =~= old(out)@);
    if channels > 1 {
        let c = channels as int;
        let len = interleaved@.len() as int;
        let n = len / c;
        vstd::arithmetic::div_mod::lemma_fundamental_div_mod(len, c);
        assert(n * c == c * n && (n + 1) * c == c * n + c) by (nonlinear_arith);
        if 0 <= k < n {
            let frame = interleaved@.subrange(k * c, k * c + c);
            assert(k * c >= 0 && k * c + c <= c * n) by (nonlinear_arith)
                requires
                    0 <= k,
                    k + 1 <= n,
                    c > 0,
            ;
            assert(final(out)[old(out).len() + k] == all[k]);
            if bounded(frame, bound) {
                lemma_mean(frame, c, bound);
            }
        }
    }
}

/// The recommended ring capacity in samples.
pub open spec fn recommended(fft_size: int, sample_rate: int) -> int {
    if fft_size * 4 >= sample_rate / 4 {
        fft_size * 4
    } else {
        sample_rate / 4
    }
}

/// Recommended analysis ring-buffer capacity in samples:
/// `max(fft_size * 4, sample_rate / 4)`, at least about 250 ms of headroom.
pub fn ring_capacity(fft_size: usize, sample_rate: u32) -> (r: usize)
    requires
        fft_size * 4 <= usize::MAX,
    ensures
        r == recommended(fft_size as int, sample_rate as int),
{
    let a: usize = fft_size * 4;
    let b: usize = (sample_rate / 4) as usize;
    if a >= b {
        a
    } else {
        b
    }
}

/// The recommended capacity holds four frames and a quarter of a second (to the
/// whole sample), and no more than one of them asks for.
pub proof fn ring_headroom(fft_size: int, sample_rate: int)
    ensures
        recommended(fft_size, sample_rate) >= 4 * fft_size,
        4 * recommended(fft_size, sample_rate) > sample_rate - 4,
        recommended(fft_size, sample_rate) == 4 * fft_size || recommended(fft_size, sample_rate)
            == sample_rate / 4,
{
}

/// The capacity that is computed holds four frames and a quarter of a second (to the whole
/// sample), and no more than one of them asks for.
pub proof fn computed_capacity_has_headroom(fft_size: usize, sample_rate: u32, r: usize)
    requires
        call_ensures(ring_capacity, (fft_size, sample_rate), r),
    ensures
        r >= 4 * fft_size,
        4 * r > sample_rate - 4,
        r == 4 * fft_size || 4 * r <= sample_rate,
{
}

/// Create the lock-free analysis ring, of the capacity of [`ring_capacity`].
pub fn analysis_ring(fft_size: usize, sample_rate: u32) -> (ends: (
    rtrb::Producer<u32>,
    rtrb::Consumer<u32>,
))
    requires
        recommended(fft_size as int, sample_rate as int) * 4 <= isize::MAX,
    ensures
        ring::capacity(ends.0) == recommended(fft_size as int, sample_rate as int),
        ring::pushed(ends.0) == Seq::<u32>::empty(),
        ring::refused(ends.0) == Seq::<u32>::empty(),
        ring::popped(ends.1) == Seq::<u32>::empty(),
        ring::attempts(ends.1) == 0,
        ring::lane_out(ends.1) == ring::lane_in(ends.0),
{
    ring::new_ring(ring_capacity(fft_size, sample_rate))
}

} // verus!
