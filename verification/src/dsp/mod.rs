//! STFT column producer.
//!
//! Mono samples go in, in pieces of any size; completed spectrogram columns of
//! dB magnitudes come out, one per frame of the sliding analysis window.
use std::collections::VecDeque;
use vstd::arithmetic::power2::*;
use vstd::math::*;
use vstd::prelude::*;

use crate::config::WindowKind;
use crate::order;
use crate::rounding;
use crate::single::Single;

pub mod window;

verus! {

/// The bits of 1e-10, added inside the logarithm to keep silent bins finite.
pub const DB_EPSILON: u32 = 0x2edb_e6ff;

/// The bits of 20.
pub const DB_SCALE: u32 = 0x41a0_0000;

/// Converts a stream of mono samples into a stream of dB-magnitude columns.
pub struct StftProducer {
    window: Vec<Single>,
    fft_size: usize,
    hop_size: usize,
    sample_rate: u32,
    /// Samples received but not yet consumed by a completed frame.
    pending: VecDeque<Single>,
    /// The windowed frame, in a buffer that serves every column.
    input: Vec<Single>,
}

/// The number of complete frames in `len` samples.
pub open spec fn frame_count(len: int, fft: int, hop: int) -> int {
    if len < fft {
        0
    } else {
        (len - fft) / hop + 1
    }
}

/// Frame `k` of a stream: `fft` samples from `k` hops on.
pub open spec fn frame(stream: Seq<Single>, fft: int, hop: int, k: int) -> Seq<Single> {
    stream.subrange(k * hop, k * hop + fft)
}

/// All complete frames of a stream, in order.
pub open spec fn frames(stream: Seq<Single>, fft: int, hop: int) -> Seq<Seq<Single>> {
    Seq::new(
        frame_count(stream.len() as int, fft, hop) as nat,
        |k: int| frame(stream, fft, hop, k),
    )
}

/// What is left of a stream when each complete frame has advanced it by one hop.
pub open spec fn remainder(stream: Seq<Single>, fft: int, hop: int) -> Seq<Single> {
    stream.skip(frame_count(stream.len() as int, fft, hop) * hop)
}

/// The center frequency of a bin.
pub open spec fn bin_frequency(bin: int, sample_rate: int, fft_size: int) -> Single {
    Single::of_integer(bin).product(Single::of_integer(sample_rate)).quotient(
        Single::of_integer(fft_size),
    )
}

/// `db` is the level of a magnitude: `20 * log10(magnitude + epsilon)`, for a
/// logarithm that `log10` gives.
pub open spec fn is_level<L: Fn(Single) -> Single>(
    log10: L,
    magnitude: Single,
    db: Single,
) -> bool {
    exists|l: Single| #[trigger]
        call_ensures(log10, (magnitude.sum(Single { bits: DB_EPSILON }),), l) && db == (Single {
            bits: DB_SCALE,
        }).product(l)
}

/// Samples multiplied by the window, one by one.
pub open spec fn windowed(frame: Seq<Single>, window: Seq<Single>) -> Seq<Single> {
    Seq::new(frame.len(), |i: int| frame[i].product(window[i]))
}

/// `column` holds the level of each magnitude that `spectrum` gives for the
/// windowed frame.
pub open spec fn is_column<S: Fn(&Vec<Single>) -> Vec<Single>, L: Fn(Single) -> Single>(
    frame: Seq<Single>,
    window: Seq<Single>,
    spectrum: S,
    log10: L,
    column: Seq<Single>,
) -> bool {
    exists|input: Vec<Single>, magnitudes: Vec<Single>|
        {
            &&& #[trigger] call_ensures(spectrum, (&input,), magnitudes)
            &&& input@ == windowed(frame, window)
            &&& column.len() == magnitudes.len()
            &&& forall|j: int|
                0 <= j < column.len() ==> is_level(log10, magnitudes[j], #[trigger] column[j])
        }
}

/// Processing `samples` after `waiting` has given `columns`, one for each frame that
/// they complete, and left `rest` behind.
pub open spec fn processed<S: Fn(&Vec<Single>) -> Vec<Single>, L: Fn(Single) -> Single>(
    waiting: Seq<Single>,
    samples: Seq<Single>,
    fft: int,
    hop: int,
    window: Seq<Single>,
    spectrum: S,
    log10: L,
    columns: Seq<Vec<Single>>,
    rest: Seq<Single>,
) -> bool {
    let done = frames(waiting + samples, fft, hop);
    &&& columns.len() == done.len()
    &&& forall|k: int|
        0 <= k < columns.len() ==> is_column(
            done[k],
            window,
            spectrum,
            log10,
            #[trigger] columns[k]@,
        )
    &&& rest == remainder(waiting + samples, fft, hop)
}

/// `spectrum` gives one list of magnitudes for each frame, and `log10` one
/// logarithm for each number.
pub open spec fn single_valued<S: Fn(&Vec<Single>) -> Vec<Single>, L: Fn(Single) -> Single>(
    spectrum: S,
    log10: L,
) -> bool {
    &&& forall|f: Vec<Single>, g: Vec<Single>, m: Vec<Single>, n: Vec<Single>|
        f@ == g@ && #[trigger] call_ensures(spectrum, (&f,), m) && #[trigger] call_ensures(
            spectrum,
            (&g,),
            n,
        ) ==> m@ == n@
    &&& forall|x: Single, y: Single, z: Single| #[trigger]
        call_ensures(log10, (x,), y) && #[trigger] call_ensures(log10, (x,), z) ==> y == z
}

/// Pieces, one after the other.
pub open spec fn joined<T>(pieces: Seq<Seq<T>>) -> Seq<T>
    decreases pieces.len(),
{
    if pieces.len() == 0 {
        Seq::empty()
    } else {
        joined(pieces.drop_last()) + pieces.last()
    }
}

/// A run of calls, one per chunk: call `i` finds `waiting[i]`, takes `chunks[i]`,
/// gives `columns[i]` and leaves `waiting[i + 1]`; the first finds nothing.
pub open spec fn streamed<S: Fn(&Vec<Single>) -> Vec<Single>, L: Fn(Single) -> Single>(
    chunks: Seq<Seq<Single>>,
    waiting: Seq<Seq<Single>>,
    columns: Seq<Seq<Vec<Single>>>,
    fft: int,
    hop: int,
    window: Seq<Single>,
    spectrum: S,
    log10: L,
) -> bool {
    &&& waiting.len() == chunks.len() + 1
    &&& columns.len() == chunks.len()
    &&& waiting[0].len() == 0
    &&& forall|i: int|
        0 <= i < chunks.len() ==> processed(
            waiting[i],
            #[trigger] chunks[i],
            fft,
            hop,
            window,
            spectrum,
            log10,
            columns[i],
            waiting[i + 1],
        )
}

proof fn lemma_frame_count(len: int, fft: int, hop: int, k: int)
    requires
        hop >= 1,
        0 <= k,
        k > 0 ==> len - (k - 1) * hop >= fft,
        len - k * hop < fft,
    ensures
        frame_count(len, fft, hop) == k,
{
    if k == 0 {
        assert(k * hop == 0) by (nonlinear_arith)
            requires
                k == 0,
        ;
    } else {
        let r = len - fft - (k - 1) * hop;
        assert(k * hop == (k - 1) * hop + hop) by (nonlinear_arith);
        assert((k - 1) * hop >= 0) by (nonlinear_arith)
            requires
                k >= 1,
                hop >= 1,
        ;
        vstd::arithmetic::div_mod::lemma_fundamental_div_mod_converse(len - fft, hop, k - 1, r);
    }
}

proof fn lemma_frames_fit(len: int, fft: int, hop: int)
    requires
        1 <= hop <= fft,
        len >= 0,
    ensures
        ({
            let n = frame_count(len, fft, hop);
            &&& 0 <= n
            &&& n * hop <= len
            &&& len - n * hop < fft
            &&& n > 0 ==> (n - 1) * hop + fft <= len
        }),
{
    let n = frame_count(len, fft, hop);
    if len >= fft {
        vstd::arithmetic::div_mod::lemma_fundamental_div_mod(len - fft, hop);
        let q = (len - fft) / hop;
        vstd::arithmetic::div_mod::lemma_div_pos_is_pos(len - fft, hop);
        assert(n * hop == hop * q + hop && (n - 1) * hop == hop * q) by (nonlinear_arith)
            requires
                n == q + 1,
        ;
    }
}

/// Streaming in pieces gives the same frames as one piece: the frames of what
/// came first, followed by those of what was left of it and what came next; and
/// the same samples stay behind.
pub proof fn streaming_in_chunks_matches_one_shot(
    first: Seq<Single>,
    next: Seq<Single>,
    fft: int,
    hop: int,
)
    requires
        1 <= hop <= fft,
    ensures
        frames(first + next, fft, hop) == frames(first, fft, hop) + frames(
            remainder(first, fft, hop) + next,
            fft,
            hop,
        ),
        remainder(first + next, fft, hop) == remainder(
            remainder(first, fft, hop) + next,
            fft,
            hop,
        ),
{
    let whole = first + next;
    let rest = remainder(first, fft, hop) + next;
    let n1 = frame_count(first.len() as int, fft, hop);
    let n2 = frame_count(rest.len() as int, fft, hop);
    lemma_frames_fit(first.len() as int, fft, hop);
    lemma_frames_fit(rest.len() as int, fft, hop);
    let n = n1 + n2;
    assert(n * hop == n1 * hop + n2 * hop && (n - 1) * hop == n1 * hop + (n2 - 1) * hop)
        by (nonlinear_arith)
        requires
            n == n1 + n2,
    ;
    assert((n - 1) * hop == (n1 - 1) * hop + n2 * hop) by (nonlinear_arith)
        requires
            n == n1 + n2,
    ;
    assert(n2 == 0 ==> n2 * hop == 0);
    lemma_frame_count(whole.len() as int, fft, hop, n);
    assert forall|k: int| 0 <= k < n implies #[trigger] frames(whole, fft, hop)[k] == (frames(
        first,
        fft,
        hop,
    ) + frames(rest, fft, hop))[k] by {
        assert(k * hop >= 0) by (nonlinear_arith)
            requires
                k >= 0,
                hop >= 1,
        ;
        if k < n1 {
            assert(k * hop <= (n1 - 1) * hop) by (nonlinear_arith)
                requires
                    k <= n1 - 1,
                    hop >= 1,
            ;
            assert(frame(whole, fft, hop, k) =~= frame(first, fft, hop, k));
        } else {
            let j = k - n1;
            assert(j * hop >= 0 && j * hop <= (n2 - 1) * hop && k * hop == n1 * hop + j * hop)
                by (nonlinear_arith)
                requires
                    0 <= j <= n2 - 1,
                    hop >= 1,
                    k == n1 + j,
            ;
            assert(frame(whole, fft, hop, k) =~= frame(rest, fft, hop, j));
        }
    }
    assert(frames(whole, fft, hop) =~= frames(first, fft, hop) + frames(rest, fft, hop));
    assert(remainder(whole, fft, hop) =~= remainder(rest, fft, hop));
}

/// Fewer samples than a frame stay behind, so a pending stream yields no frame
/// until more samples come.
pub proof fn remainder_holds_no_frame(stream: Seq<Single>, fft: int, hop: int)
    requires
        1 <= hop <= fft,
    ensures
        remainder(stream, fft, hop).len() < fft,
        frames(remainder(stream, fft, hop), fft, hop).len() == 0,
{
    lemma_frames_fit(stream.len() as int, fft, hop);
}

/// A frame has one column, as long as `spectrum` and `log10` give one result for
/// each argument.
pub proof fn same_frame_gives_same_column<
    S: Fn(&Vec<Single>) -> Vec<Single>,
    L: Fn(Single) -> Single,
>(
    frame: Seq<Single>,
    window: Seq<Single>,
    spectrum: S,
    log10: L,
    a: Seq<Single>,
    b: Seq<Single>,
)
    requires
        is_column(frame, window, spectrum, log10, a),
        is_column(frame, window, spectrum, log10, b),
        single_valued(spectrum, log10),
    ensures
        a == b,
{
    let (f, m) = choose|input: Vec<Single>, magnitudes: Vec<Single>|
        {
            &&& #[trigger] call_ensures(spectrum, (&input,), magnitudes)
            &&& input@ == windowed(frame, window)
            &&& a.len() == magnitudes.len()
            &&& forall|j: int|
                0 <= j < a.len() ==> is_level(log10, magnitudes[j], #[trigger] a[j])
        };
    let (g, n) = choose|input: Vec<Single>, magnitudes: Vec<Single>|
        {
            &&& #[trigger] call_ensures(spectrum, (&input,), magnitudes)
            &&& input@ == windowed(frame, window)
            &&& b.len() == magnitudes.len()
            &&& forall|j: int|
                0 <= j < b.len() ==> is_level(log10, magnitudes[j], #[trigger] b[j])
        };
    assert(m@ == n@);
    assert forall|j: int| 0 <= j < a.len() implies a[j] == b[j] by {
        assert(is_level(log10, m[j], a[j]));
        assert(is_level(log10, n[j], b[j]));
        assert(m@[j] == n@[j]);
    }
    assert(a =~= b);
}

/// A run of calls gives a column for each frame of the whole signal, in order, and
/// leaves what one call would leave.
proof fn lemma_streamed<S: Fn(&Vec<Single>) -> Vec<Single>, L: Fn(Single) -> Single>(
    chunks: Seq<Seq<Single>>,
    waiting: Seq<Seq<Single>>,
    columns: Seq<Seq<Vec<Single>>>,
    fft: int,
    hop: int,
    window: Seq<Single>,
    spectrum: S,
    log10: L,
)
    requires
        1 <= hop <= fft,
        streamed(chunks, waiting, columns, fft, hop, window, spectrum, log10),
    ensures
        processed(
            Seq::empty(),
            joined(chunks),
            fft,
            hop,
            window,
            spectrum,
            log10,
            joined(columns),
            waiting.last(),
        ),
    decreases chunks.len(),
{
    let none: Seq<Single> = Seq::empty();
    if chunks.len() == 0 {
        let whole = none + joined(chunks);
        assert(whole.len() == 0);
        assert(frame_count(0, fft, hop) == 0);
        assert(frame_count(0, fft, hop) * hop == 0) by (nonlinear_arith)
            requires
                frame_count(0, fft, hop) == 0,
        ;
        assert(remainder(whole, fft, hop) =~= waiting.last());
        assert(frames(whole, fft, hop).len() == 0);
    } else {
        let n = chunks.len() - 1;
        let first = joined(chunks.drop_last());
        let next = chunks.last();
        let head = joined(columns.drop_last());
        let tail = columns.last();
        assert forall|i: int| 0 <= i < n implies processed(
            waiting.drop_last()[i],
            #[trigger] chunks.drop_last()[i],
            fft,
            hop,
            window,
            spectrum,
            log10,
            columns.drop_last()[i],
            waiting.drop_last()[i + 1],
        ) by {
            assert(chunks.drop_last()[i] == chunks[i]);
        }
        lemma_streamed(
            chunks.drop_last(),
            waiting.drop_last(),
            columns.drop_last(),
            fft,
            hop,
            window,
            spectrum,
            log10,
        );
        assert(none + first =~= first);
        assert(none + joined(chunks) =~= first + next);
        assert(waiting.drop_last().last() == waiting[n]);
        assert(processed(
            waiting[n],
            chunks[n],
            fft,
            hop,
            window,
            spectrum,
            log10,
            columns[n],
            waiting[n + 1],
        ));
        streaming_in_chunks_matches_one_shot(first, next, fft, hop);
        let early = frames(first, fft, hop);
        let late = frames(remainder(first, fft, hop) + next, fft, hop);
        let all = joined(columns);
        assert(all == head + tail);
        assert forall|k: int| 0 <= k < all.len() implies is_column(
            frames(first + next, fft, hop)[k],
            window,
            spectrum,
            log10,
            #[trigger] all[k]@,
        ) by {
            if k < head.len() {
                assert(all[k] == head[k]);
                assert((early + late)[k] == early[k]);
            } else {
                assert(all[k] == tail[k - head.len()]);
                assert((early + late)[k] == late[k - early.len()]);
            }
        }
    }
}

/// Feeding a signal in any number of pieces of any sizes yields the same columns as
/// feeding it at once, in the same order, and leaves the same samples behind: as
/// many columns as the signal has complete frames.
pub proof fn any_chunks_match_one_shot<
    S: Fn(&Vec<Single>) -> Vec<Single>,
    L: Fn(Single) -> Single,
>(
    chunks: Seq<Seq<Single>>,
    waiting: Seq<Seq<Single>>,
    columns: Seq<Seq<Vec<Single>>>,
    at_once: Seq<Vec<Single>>,
    rest: Seq<Single>,
    fft: int,
    hop: int,
    window: Seq<Single>,
    spectrum: S,
    log10: L,
)
    requires
        1 <= hop <= fft,
        single_valued(spectrum, log10),
        streamed(chunks, waiting, columns, fft, hop, window, spectrum, log10),
        processed(
            Seq::empty(),
            joined(chunks),
            fft,
            hop,
            window,
            spectrum,
            log10,
            at_once,
            rest,
        ),
    ensures
        joined(columns).len() == at_once.len(),
        at_once.len() == frame_count(joined(chunks).len() as int, fft, hop),
        forall|k: int|
            0 <= k < at_once.len() ==> #[trigger] joined(columns)[k]@ == at_once[k]@,
        waiting.last() == rest,
{
    lemma_streamed(chunks, waiting, columns, fft, hop, window, spectrum, log10);
    let all = joined(columns);
    let whole = Seq::<Single>::empty() + joined(chunks);
    assert(whole =~= joined(chunks));
    lemma_frames_fit(whole.len() as int, fft, hop);
    assert forall|k: int| 0 <= k < at_once.len() implies #[trigger] all[k]@ == at_once[k]@ by {
        let f = frames(whole, fft, hop)[k];
        assert(is_column(f, window, spectrum, log10, all[k]@));
        assert(is_column(f, window, spectrum, log10, at_once[k]@));
        same_frame_gives_same_column(f, window, spectrum, log10, all[k]@, at_once[k]@);
    }
}

/// The constant under the logarithm is `10^-10`, up to its 2^24th part, and the factor
/// before it is 20.
pub proof fn level_constants()
    ensures
        (Single { bits: DB_SCALE }).value() == 20 * pow2(149),
        0x100_0000 * abs(10_000_000_000 * (Single { bits: DB_EPSILON }).value() - pow2(149))
            <= pow2(149),
{
    lemma2_to64();
    lemma2_to64_rest();
    // 20 is 0xa0_0000 * 2^-19, and 10^-10 about 0xdb_e6ff * 2^-57.
    rounding::lemma_units(130, 0xa0_0000);
    lemma_pow2_adds(19, 130);
    rounding::lemma_units(92, 0xdb_e6ff);
    lemma_pow2_adds(57, 92);
    lemma_pow2_pos(92);
    let p = pow2(92) as int;
    assert(pow2(149) == 0x200_0000_0000_0000 * p);
}

/// How many frames a stream has, which they are, and what they leave.
pub proof fn lemma_frames_of(stream: Seq<Single>, size: int, hop: int)
    requires
        1 <= hop <= size,
    ensures
        ({
            let n = frames(stream, size, hop).len() as int;
            &&& n == 0 <==> stream.len() < size
            &&& n > 0 ==> (n - 1) * hop + size <= stream.len() < n * hop + size
            &&& remainder(stream, size, hop) == stream.skip(n * hop)
        }),
{
    let n = frames(stream, size, hop).len() as int;
    if stream.len() >= size {
        let q = (stream.len() - size) / hop;
        vstd::arithmetic::div_mod::lemma_fundamental_div_mod(stream.len() - size, hop);
        vstd::arithmetic::div_mod::lemma_div_pos_is_pos(stream.len() - size, hop);
        assert((n - 1) * hop == hop * q && n * hop == hop * q + hop) by (nonlinear_arith)
            requires
                n == q + 1,
        ;
    }
}

/// A new producer has the frame, hop, rate and window that it was made for, and no
/// samples yet.
pub proof fn new_producers_are_as_asked_for<C: Fn(Single) -> Single>(
    fft_size: usize,
    hop_size: usize,
    window_kind: WindowKind,
    sample_rate: u32,
    cosine: C,
    p: StftProducer,
)
    requires
        call_ensures(
            StftProducer::new::<C>,
            (fft_size, hop_size, window_kind, sample_rate, &cosine),
            p,
        ),
    ensures
        p.size() == fft_size,
        p.hop() == hop_size,
        p.rate() == sample_rate,
        p.waiting() == Seq::<Single>::empty(),
        p.taps().len() == fft_size,
        window::is_window(window_kind, fft_size as int, cosine, p.taps()),
{
    assert(p.waiting() =~= Seq::<Single>::empty());
}

/// Each call of [`StftProducer::process`] gives one column for each frame of the stream,
/// hop by hop as far as complete frames go, and keeps what follows the last hop.
pub proof fn one_column_per_complete_frame<
    S: Fn(&Vec<Single>) -> Vec<Single>,
    L: Fn(Single) -> Single,
>(
    p: &mut StftProducer,
    samples: &[Single],
    spectrum: S,
    log10: L,
    columns: Vec<Vec<Single>>,
)
    requires
        old(p).wf(),
        call_ensures(StftProducer::process::<S, L>, (p, samples, &spectrum, &log10), columns),
    ensures
        ({
            let stream = old(p).waiting() + samples@;
            let (size, hop, n) = (old(p).size(), old(p).hop(), columns.len() as int);
            &&& n == 0 <==> stream.len() < size
            &&& n > 0 ==> (n - 1) * hop + size <= stream.len() < n * hop + size
            &&& final(p).waiting() == stream.skip(n * hop)
            &&& final(p).size() == size && final(p).hop() == hop
            &&& final(p).taps() == old(p).taps() && final(p).rate() == old(p).rate()
        }),
{
    lemma_frames_of(old(p).waiting() + samples@, old(p).size(), old(p).hop());
}

/// What column `k` of a call is made of: the transform is handed as many samples as the
/// FFT size, the samples of frame `k` times the window's coefficients, one by one, and
/// gives the magnitudes; each level is 20 times a logarithm of the magnitude raised by
/// [`DB_EPSILON`]. All this up to rounding, with values in units of `2^-149`; what is
/// undefined stays so.
pub proof fn columns_are_levels_of_windowed_frames<
    S: Fn(&Vec<Single>) -> Vec<Single>,
    L: Fn(Single) -> Single,
>(
    p: &mut StftProducer,
    samples: &[Single],
    spectrum: S,
    log10: L,
    columns: Vec<Vec<Single>>,
    k: int,
) -> (made: (Vec<Single>, Vec<Single>))
    requires
        old(p).wf(),
        call_ensures(StftProducer::process::<S, L>, (p, samples, &spectrum, &log10), columns),
        0 <= k < columns.len(),
    ensures
        call_ensures(spectrum, (&made.0,), made.1),
        made.0.len() == old(p).size(),
        forall|i: int|
            0 <= i < old(p).size() && (old(p).waiting() + samples@)[k * old(p).hop() + i].finite()
                && old(p).taps()[i].finite() ==> order::near(
                #[trigger] made.0[i],
                (old(p).waiting() + samples@)[k * old(p).hop() + i].value()
                    * old(p).taps()[i].value(),
                pow2(149) as int,
            ),
        forall|i: int|
            0 <= i < old(p).size() && ((old(p).waiting() + samples@)[k * old(p).hop() + i].nan()
                || old(p).taps()[i].nan()) ==> (#[trigger] made.0[i]).nan(),
        columns[k].len() == old(p).size() / 2 + 1,
        made.1.len() == columns[k].len(),
        forall|j: int|
            0 <= j < made.1.len() && (#[trigger] made.1[j]).finite() ==> exists|
                raised: Single,
                l: Single,
            |
                {
                    &&& #[trigger] call_ensures(log10, (raised,), l)
                    &&& order::near(
                        raised,
                        made.1[j].value() + (Single { bits: DB_EPSILON }).value(),
                        1,
                    )
                    &&& l.finite() ==> order::near(columns[k][j], 20 * l.value(), 1)
                },
{
    let stream = old(p).waiting() + samples@;
    let (size, hop) = (old(p).size(), old(p).hop());
    let u = pow2(149) as int;
    let done = frames(stream, size, hop);
    let first = k * hop;
    let taps = old(p).taps();
    let scale = Single { bits: DB_SCALE };
    let epsilon = Single { bits: DB_EPSILON };
    one_column_per_complete_frame(p, samples, spectrum, log10, columns);
    level_constants();
    lemma_pow2_pos(149);
    assert(is_column(done[k], taps, spectrum, log10, columns[k]@));
    let n = columns.len() as int;
    assert(first >= 0 && first + size <= stream.len()) by (nonlinear_arith)
        requires
            first == k * hop,
            0 <= k <= n - 1,
            hop >= 1,
            (n - 1) * hop + size <= stream.len(),
    ;
    let (input, magnitudes) = choose|input: Vec<Single>, magnitudes: Vec<Single>|
        {
            &&& #[trigger] call_ensures(spectrum, (&input,), magnitudes)
            &&& input@ == windowed(done[k], taps)
            &&& columns[k]@.len() == magnitudes.len()
            &&& forall|j: int|
                0 <= j < columns[k]@.len() ==> is_level(
                    log10,
                    magnitudes[j],
                    #[trigger] columns[k]@[j],
                )
        };
    assert(input.len() == size);
    assert forall|i: int|
        0 <= i < size && (stream[k * hop + i].nan() || taps[i].nan()) implies (
    #[trigger] input[i]).nan() by {
        assert(input[i] == windowed(done[k], taps)[i]);
        assert(done[k][i] == stream[first + i]);
    }
    assert forall|i: int|
        0 <= i < size && stream[k * hop + i].finite() && taps[i].finite() implies order::near(
        #[trigger] input[i],
        stream[k * hop + i].value() * taps[i].value(),
        u,
    ) by {
        assert(input[i] == windowed(done[k], taps)[i]);
        assert(done[k][i] == stream[first + i]);
        order::operations_are_near(stream[first + i], taps[i]);
    }
    assert forall|j: int|
        0 <= j < magnitudes.len() && (#[trigger] magnitudes[j]).finite() implies exists|
        raised: Single,
        l: Single,
    |
        {
            &&& #[trigger] call_ensures(log10, (raised,), l)
            &&& order::near(raised, magnitudes[j].value() + epsilon.value(), 1)
            &&& l.finite() ==> order::near(columns[k][j], 20 * l.value(), 1)
        } by {
        let m = magnitudes[j];
        let raised = m.sum(epsilon);
        assert(is_level(log10, m, columns[k]@[j]));
        let l = choose|l: Single| #[trigger]
            call_ensures(log10, (raised,), l) && columns[k]@[j] == scale.product(l);
        order::operations_are_near(m, epsilon);
        if l.finite() {
            let v = l.value();
            order::operations_are_near(scale, l);
            assert(scale.value() * v == (20 * v) * u) by (nonlinear_arith)
                requires
                    scale.value() == 20 * u,
            ;
            order::lemma_near_scaled(columns[k]@[j], scale.value() * v, 20 * v, u);
        }
        assert(call_ensures(log10, (raised,), l));
    }
    (input, magnitudes)
}

impl StftProducer {
    /// A hop advances, and by no more than one frame; one coefficient per sample
    /// of a frame.
    pub closed spec fn wf(self) -> bool {
        &&& self.fft_size >= 2
        &&& 1 <= self.hop_size <= self.fft_size
        &&& self.window.len() == self.fft_size
    }

    pub closed spec fn size(self) -> int {
        self.fft_size as int
    }

    pub closed spec fn hop(self) -> int {
        self.hop_size as int
    }

    pub closed spec fn rate(self) -> u32 {
        self.sample_rate
    }

    /// The window coefficients.
    pub closed spec fn taps(self) -> Seq<Single> {
        self.window@
    }

    /// The samples that no completed frame has consumed.
    pub closed spec fn waiting(self) -> Seq<Single> {
        self.pending@
    }

    /// Build a producer for the given frame/hop/window and source sample rate,
    /// with the cosines that `cosine` gives for the window.
    pub fn new<C: Fn(Single) -> Single>(
        fft_size: usize,
        hop_size: usize,
        window_kind: WindowKind,
        sample_rate: u32,
        cosine: &C,
    ) -> (p: StftProducer)
        requires
            fft_size >= 2,
            1 <= hop_size <= fft_size,
            forall|x: Single| call_requires(*cosine, (x,)),
        ensures
            p.wf(),
            p.size() == fft_size,
            p.hop() == hop_size,
            p.rate() == sample_rate,
            p.waiting().len() == 0,
            window::is_window(window_kind, fft_size as int, *cosine, p.taps()),
    {
        StftProducer {
            window: window::coefficients(window_kind, fft_size, cosine),
            fft_size,
            hop_size,
            sample_rate,
            pending: VecDeque::new(),
            input: Vec::with_capacity(fft_size),
        }
    }

    /// Number of frequency bins in each emitted column (`fft_size / 2 + 1`).
    pub fn num_bins(&self) -> (r: usize)
        ensures
            r == self.size() / 2 + 1,
    {
        self.fft_size / 2 + 1
    }

    pub fn fft_size(&self) -> (r: usize)
        ensures
            r == self.size(),
    {
        self.fft_size
    }

    pub fn hop_size(&self) -> (r: usize)
        ensures
            r == self.hop(),
    {
        self.hop_size
    }

    pub fn sample_rate(&self) -> (r: u32)
        ensures
            r == self.rate(),
    {
        self.sample_rate
    }

    /// Center frequency (Hz) of FFT bin `bin`.
    pub fn bin_to_freq(&self, bin: usize) -> (r: Single)
        ensures
            r == bin_frequency(bin as int, self.rate() as int, self.size()),
    {
        Single::from_u64(bin as u64).times(Single::from_u64(self.sample_rate as u64)).over(
            Single::from_u64(self.fft_size as u64),
        )
    }

    /// Push `samples` and return the newly completed columns, in order.
    ///
    /// `spectrum` gives the magnitudes of the bins of a windowed frame, `log10`
    /// the decimal logarithm.
    pub fn process<S: Fn(&Vec<Single>) -> Vec<Single>, L: Fn(Single) -> Single>(
        &mut self,
        samples: &[Single],
        spectrum: &S,
        log10: &L,
    ) -> (columns: Vec<Vec<Single>>)
        requires
            old(self).wf(),
            forall|f: Vec<Single>|
                f.len() == old(self).size() ==> #[trigger] call_requires(*spectrum, (&f,)),
            forall|f: Vec<Single>, m: Vec<Single>|
                f.len() == old(self).size() && #[trigger] call_ensures(*spectrum, (&f,), m)
                    ==> m.len() == old(self).size() / 2 + 1,
            forall|x: Single| call_requires(*log10, (x,)),
        ensures
            final(self).wf(),
            final(self).size() == old(self).size(),
            final(self).hop() == old(self).hop(),
            final(self).rate() == old(self).rate(),
            final(self).taps() == old(self).taps(),
            processed(
                old(self).waiting(),
                samples@,
                old(self).size(),
                old(self).hop(),
                old(self).taps(),
                *spectrum,
                *log10,
                columns@,
                final(self).waiting(),
            ),
            forall|k: int|
                0 <= k < columns.len() ==> #[trigger] columns[k].len() == old(self).size() / 2 + 1,
    {
        let ghost stream = self.pending@ + samples@;
        let ghost before = self.pending@;
        let mut i: usize = 0;
        while i < samples.len()
            invariant
                i <= samples@.len(),
                self.wf(),
                self.fft_size == old(self).fft_size,
                self.hop_size == old(self).hop_size,
                self.sample_rate == old(self).sample_rate,
                self.window == old(self).window,
                self.pending@ == before + samples@.take(i as int),
            decreases samples@.len() - i,
        {
            self.pending.push_back(samples[i]);
            proof {
                assert(samples@.take(i + 1) == samples@.take(i as int).push(samples@[i as int]));
                assert(before + samples@.take(i + 1) =~= (before + samples@.take(i as int)).push(
                    samples@[i as int],
                ));
            }
            i = i + 1;
        }
        let ghost fft = self.fft_size as int;
        let ghost hop = self.hop_size as int;
        let mut columns: Vec<Vec<Single>> = Vec::new();
        proof {
            assert(samples@.take(samples@.len() as int) == samples@);
            assert(stream.skip(0) == stream);
            assert(columns.len() * hop == 0) by (nonlinear_arith)
                requires
                    columns.len() == 0,
            ;
        }
        while self.pending.len() >= self.fft_size
            invariant
                self.wf(),
                old(self).wf(),
                self.fft_size == old(self).fft_size,
                self.hop_size == old(self).hop_size,
                self.sample_rate == old(self).sample_rate,
                self.window == old(self).window,
                fft == self.fft_size,
                hop == self.hop_size,
                columns.len() * hop <= stream.len(),
                self.pending@ == stream.skip(columns.len() * hop),
                columns.len() > 0 ==> stream.len() - (columns.len() - 1) * hop >= fft,
                forall|f: Vec<Single>|
                    f.len() == old(self).size() ==> #[trigger] call_requires(*spectrum, (&f,)),
                forall|f: Vec<Single>, m: Vec<Single>|
                    f.len() == old(self).size() && #[trigger] call_ensures(*spectrum, (&f,), m)
                        ==> m.len() == old(self).size() / 2 + 1,
                forall|x: Single| call_requires(*log10, (x,)),
                forall|k: int|
                    0 <= k < columns.len() ==> is_column(
                        frame(stream, fft, hop, k),
                        self.window@,
                        *spectrum,
                        *log10,
                        #[trigger] columns[k]@,
                    ),
                forall|k: int|
                    0 <= k < columns.len() ==> #[trigger] columns[k].len() == old(self).size() / 2
                        + 1,
            decreases self.pending.len(),
        {
            let column = self.compute_column(spectrum, log10);
            let ghost n = columns.len() as int;
            proof {
                assert(self.pending@.take(fft) =~= frame(stream, fft, hop, n));
                assert((n + 1) * hop == n * hop + hop && (n + 1 - 1) * hop == n * hop)
                    by (nonlinear_arith);
            }
            columns.push(column);
            // Advance the sliding window by one hop.
            self.drop_front();
            proof {
                assert(stream.skip(n * hop).skip(hop) =~= stream.skip((n + 1) * hop));
            }
        }
        proof {
            lemma_frame_count(stream.len() as int, fft, hop, columns.len() as int);
        }
        columns
    }

    /// Drop the oldest hop of pending samples.
    fn drop_front(&mut self)
        requires
            old(self).wf(),
            old(self).pending@.len() >= old(self).fft_size,
        ensures
            final(self).window == old(self).window,
            final(self).fft_size == old(self).fft_size,
            final(self).hop_size == old(self).hop_size,
            final(self).sample_rate == old(self).sample_rate,
            final(self).pending@ == old(self).pending@.skip(old(self).hop_size as int),
    {
        let ghost before = self.pending@;
        let mut i: usize = 0;
        while i < self.hop_size
            invariant
                i <= self.hop_size,
                self.wf(),
                self.window == old(self).window,
                self.fft_size == old(self).fft_size,
                self.hop_size == old(self).hop_size,
                self.sample_rate == old(self).sample_rate,
                before == old(self).pending@,
                before.len() >= self.fft_size,
                self.pending@ == before.skip(i as int),
            decreases self.hop_size - i,
        {
            self.pending.pop_front();
            proof {
                assert(before.skip(i as int).skip(1) =~= before.skip(i + 1));
            }
            i = i + 1;
        }
    }

    /// Window the oldest `fft_size` pending samples, transform them, and take the
    /// level of each magnitude.
    fn compute_column<S: Fn(&Vec<Single>) -> Vec<Single>, L: Fn(Single) -> Single>(
        &mut self,
        spectrum: &S,
        log10: &L,
    ) -> (column: Vec<Single>)
        requires
            old(self).wf(),
            old(self).pending@.len() >= old(self).fft_size,
            forall|f: Vec<Single>|
                f.len() == old(self).fft_size ==> #[trigger] call_requires(*spectrum, (&f,)),
            forall|f: Vec<Single>, m: Vec<Single>|
                f.len() == old(self).fft_size && #[trigger] call_ensures(*spectrum, (&f,), m)
                    ==> m.len() == old(self).fft_size / 2 + 1,
            forall|x: Single| call_requires(*log10, (x,)),
        ensures
            final(self).window == old(self).window,
            final(self).fft_size == old(self).fft_size,
            final(self).hop_size == old(self).hop_size,
            final(self).sample_rate == old(self).sample_rate,
            final(self).pending == old(self).pending,
            is_column(
                old(self).pending@.take(old(self).fft_size as int),
                old(self).window@,
                *spectrum,
                *log10,
                column@,
            ),
            column.len() == old(self).fft_size / 2 + 1,
    {
        self.input.clear();
        let mut i: usize = 0;
        while i < self.fft_size
            invariant
                i <= self.fft_size,
                self.wf(),
                self.window == old(self).window,
                self.fft_size == old(self).fft_size,
                self.hop_size == old(self).hop_size,
                self.sample_rate == old(self).sample_rate,
                self.pending == old(self).pending,
                self.pending@.len() >= self.fft_size,
                self.input.len() == i,
                forall|k: int|
                    0 <= k < i ==> #[trigger] self.input[k] == self.pending@[k].product(
                        self.window[k],
                    ),
            decreases self.fft_size - i,
        {
            let tap = self.pending[i].times(self.window[i]);
            self.input.push(tap);
            i = i + 1;
        }
        proof {
            assert(self.input@ =~= windowed(
                self.pending@.take(self.fft_size as int),
                self.window@,
            ));
        }
        let magnitudes = spectrum(&self.input);
        let mut column: Vec<Single> = Vec::new();
        let mut j: usize = 0;
        while j < magnitudes.len()
            invariant
                j <= magnitudes.len(),
                column.len() == j,
                forall|x: Single| call_requires(*log10, (x,)),
                forall|k: int|
                    0 <= k < j ==> is_level(*log10, magnitudes[k], #[trigger] column[k]),
            decreases magnitudes.len() - j,
        {
            let l = log10(magnitudes[j].plus(Single { bits: DB_EPSILON }));
            column.push((Single { bits: DB_SCALE }).times(l));
            j = j + 1;
        }
        column
    }
}

} // verus!
