//! The analysis ring: a lock-free single-producer single-consumer queue of
//! sample bit patterns between the audio callback and the render loop.
//!
//! The two ends may live on different threads, so what one end finds depends on
//! how far the other has come. Each end has a history of its own, though: what
//! went in through the producer and what it was refused, what came out through the
//! consumer, how often it asked and whether it has come to the end.
use vstd::prelude::*;

use crate::single::Single;

verus! {

/// [`rtrb::Producer`], the writing end of a ring.
#[verifier::external_type_specification]
#[verifier::external_body]
#[verifier::reject_recursive_types(T)]
pub struct ExProducer<T>(rtrb::Producer<T>);

/// [`rtrb::Consumer`], the reading end of a ring.
#[verifier::external_type_specification]
#[verifier::external_body]
#[verifier::reject_recursive_types(T)]
pub struct ExConsumer<T>(rtrb::Consumer<T>);

/// The values that the ring has accepted from a producer, in order.
pub uninterp spec fn pushed(producer: rtrb::Producer<u32>) -> Seq<u32>;

/// The values that the ring has handed back to a producer because it was full.
pub uninterp spec fn refused(producer: rtrb::Producer<u32>) -> Seq<u32>;

/// The capacity of a producer's ring.
pub uninterp spec fn capacity(producer: rtrb::Producer<u32>) -> nat;

/// All the values that a producer's ring accepts, from the first to the last one
/// that it will ever accept.
pub uninterp spec fn lane_in(producer: rtrb::Producer<u32>) -> Seq<u32>;

/// All the values that a consumer's ring accepts, from the first to the last one
/// that it will ever accept.
pub uninterp spec fn lane_out(consumer: rtrb::Consumer<u32>) -> Seq<u32>;

/// The values that a consumer has taken from the ring, in order.
pub uninterp spec fn popped(consumer: rtrb::Consumer<u32>) -> Seq<u32>;

/// A consumer's last attempt to take a value has found the ring empty.
pub uninterp spec fn exhausted(consumer: rtrb::Consumer<u32>) -> bool;

/// How many attempts to take a value a consumer has made.
pub uninterp spec fn attempts(consumer: rtrb::Consumer<u32>) -> nat;

/// Calls [`rtrb::RingBuffer::new`], which makes an empty ring of exactly the given
/// capacity and returns its two ends. The buffer is allocated at once, so its size
/// in bytes must be one that an allocation can have.
#[verifier::external_body]
pub(crate) fn new_ring(slots: usize) -> (ends: (rtrb::Producer<u32>, rtrb::Consumer<u32>))
    requires
        slots * 4 <= isize::MAX,
    ensures
        pushed(ends.0) == Seq::<u32>::empty(),
        refused(ends.0) == Seq::<u32>::empty(),
        capacity(ends.0) == slots,
        popped(ends.1) == Seq::<u32>::empty(),
        attempts(ends.1) == 0,
        lane_out(ends.1) == lane_in(ends.0),
{
    rtrb::RingBuffer::<u32>::new(slots)
}

/// Calls [`rtrb::Producer::push`], which appends the value to those accepted
/// before, or hands it back when the ring is full. A ring that has accepted fewer
/// values than it has slots cannot be full; how full another one is depends on the
/// consumer.
#[verifier::external_body]
pub(crate) fn push(producer: &mut rtrb::Producer<u32>, value: u32) -> (r: Result<(), u32>)
    ensures
        capacity(*final(producer)) == capacity(*old(producer)),
        lane_in(*final(producer)) == lane_in(*old(producer)),
        r is Ok ==> pushed(*final(producer)).is_prefix_of(lane_in(*final(producer))),
        r is Ok ==> pushed(*final(producer)) == pushed(*old(producer)).push(value) && refused(
            *final(producer),
        ) == refused(*old(producer)),
        r is Err ==> pushed(*final(producer)) == pushed(*old(producer)) && refused(
            *final(producer),
        ) == refused(*old(producer)).push(value) && r->Err_0 == value,
        pushed(*old(producer)).len() < capacity(*old(producer)) ==> r is Ok,
{
    match producer.push(value) {
        Ok(()) => Ok(()),
        Err(rtrb::PushError::Full(value)) => Err(value),
    }
}

/// Calls [`rtrb::Consumer::pop`], which takes the oldest value, or none when the
/// ring is empty: values come out in the order in which they were accepted, none
/// is left out and none comes twice. Each call is one attempt. Whether the ring is
/// empty depends on the producer.
#[verifier::external_body]
pub(crate) fn pop(consumer: &mut rtrb::Consumer<u32>) -> (r: Option<u32>)
    ensures
        r is Some ==> popped(*final(consumer)) == popped(*old(consumer)).push(r->0),
        r is None ==> popped(*final(consumer)) == popped(*old(consumer)),
        exhausted(*final(consumer)) <==> r is None,
        attempts(*final(consumer)) == attempts(*old(consumer)) + 1,
        lane_out(*final(consumer)) == lane_out(*old(consumer)),
        r is Some ==> popped(*final(consumer)).is_prefix_of(lane_out(*final(consumer))),
{
    match consumer.pop() {
        Ok(value) => Some(value),
        Err(rtrb::PopError::Empty) => None,
    }
}

/// The bit patterns of samples.
pub open spec fn patterns(samples: Seq<Single>) -> Seq<u32> {
    Seq::new(samples.len(), |i: int| samples[i].bits)
}

/// The values at whose place `keep` holds, in order.
pub open spec fn kept(values: Seq<u32>, keep: Seq<bool>) -> Seq<u32>
    decreases values.len(),
{
    if values.len() == 0 {
        values
    } else if keep[values.len() - 1] {
        kept(values.drop_last(), keep).push(values.last())
    } else {
        kept(values.drop_last(), keep)
    }
}

/// The places at which `keep` does not hold.
pub open spec fn others(keep: Seq<bool>) -> Seq<bool> {
    Seq::new(keep.len(), |i: int| !keep[i])
}

/// Offering `values` to a producer's ring has taken it from `before` to `after`:
/// each value was accepted or refused, in order, and all were accepted where they
/// fit beside everything that was accepted before.
pub open spec fn offered(
    before: rtrb::Producer<u32>,
    values: Seq<u32>,
    after: rtrb::Producer<u32>,
) -> bool {
    &&& capacity(after) == capacity(before)
    &&& lane_in(after) == lane_in(before)
    &&& pushed(before).is_prefix_of(lane_in(before)) ==> pushed(after).is_prefix_of(lane_in(after))
    &&& exists|keep: Seq<bool>|
        {
            &&& keep.len() == values.len()
            &&& pushed(after) == pushed(before) + #[trigger] kept(values, keep)
            &&& refused(after) == refused(before) + kept(values, others(keep))
        }
    &&& pushed(before).len() + values.len() <= capacity(before) ==> pushed(after) == pushed(before)
        + values
}

/// Taking `values` from a consumer's ring has led from `before` to `after`.
pub open spec fn taken(
    before: rtrb::Consumer<u32>,
    values: Seq<u32>,
    after: rtrb::Consumer<u32>,
) -> bool {
    &&& popped(after) == popped(before) + values
    &&& lane_out(after) == lane_out(before)
    &&& popped(before).is_prefix_of(lane_out(before)) ==> popped(after).is_prefix_of(
        lane_out(after),
    )
}

/// What comes out of a ring is what went in, in the same order: of the values
/// accepted and the values taken, the shorter list is the beginning of the longer
/// one.
pub proof fn what_comes_out_went_in(
    producer: rtrb::Producer<u32>,
    consumer: rtrb::Consumer<u32>,
    i: int,
)
    requires
        lane_out(consumer) == lane_in(producer),
        pushed(producer).is_prefix_of(lane_in(producer)),
        popped(consumer).is_prefix_of(lane_out(consumer)),
        0 <= i < pushed(producer).len(),
        i < popped(consumer).len(),
    ensures
        popped(consumer)[i] == pushed(producer)[i],
{
    assert(pushed(producer)[i] == lane_in(producer)[i]);
    assert(popped(consumer)[i] == lane_out(consumer)[i]);
}

/// Offering values in pieces is offering all of them: what a first and a second
/// offer do is what one offer of both does.
pub proof fn offers_add_up(
    before: rtrb::Producer<u32>,
    first: Seq<u32>,
    between: rtrb::Producer<u32>,
    second: Seq<u32>,
    after: rtrb::Producer<u32>,
)
    requires
        offered(before, first, between),
        offered(between, second, after),
    ensures
        offered(before, first + second, after),
{
    let k1 = choose|keep: Seq<bool>|
        {
            &&& keep.len() == first.len()
            &&& pushed(between) == pushed(before) + #[trigger] kept(first, keep)
            &&& refused(between) == refused(before) + kept(first, others(keep))
        };
    let k2 = choose|keep: Seq<bool>|
        {
            &&& keep.len() == second.len()
            &&& pushed(after) == pushed(between) + #[trigger] kept(second, keep)
            &&& refused(after) == refused(between) + kept(second, others(keep))
        };
    lemma_kept_add(first, k1, second, k2);
    lemma_kept_add(first, others(k1), second, others(k2));
    assert(others(k1 + k2) =~= others(k1) + others(k2));
    let all = kept(first + second, k1 + k2);
    assert(pushed(after) =~= pushed(before) + all);
    assert(refused(after) =~= refused(before) + kept(first + second, others(k1 + k2)));
    if pushed(before).len() + (first + second).len() <= capacity(before) {
        assert(pushed(after) =~= pushed(before) + (first + second));
    }
}

proof fn lemma_kept_add(v: Seq<u32>, a: Seq<bool>, w: Seq<u32>, b: Seq<bool>)
    requires
        a.len() == v.len(),
        b.len() == w.len(),
    ensures
        kept(v + w, a + b) == kept(v, a) + kept(w, b),
    decreases w.len(),
{
    if w.len() == 0 {
        assert(v + w =~= v);
        lemma_kept_agree(v, a + b, a);
        assert(kept(v, a) + kept(w, b) =~= kept(v, a));
    } else {
        let w1 = w.drop_last();
        let b1 = b.drop_last();
        lemma_kept_add(v, a, w1, b1);
        assert((v + w).drop_last() =~= v + w1);
        lemma_kept_agree(v + w1, a + b, a + b1);
        lemma_kept_agree(w1, b, b1);
        assert((a + b)[(v + w).len() - 1] == b[w.len() - 1]);
        assert((kept(v, a) + kept(w1, b1)).push(w.last()) =~= kept(v, a) + kept(w1, b1).push(
            w.last(),
        ));
    }
}

proof fn lemma_kept_prefix(values: Seq<u32>, keep: Seq<bool>, more: bool)
    requires
        keep.len() == values.len(),
    ensures
        kept(values, keep.push(more)) == kept(values, keep),
{
    lemma_kept_agree(values, keep.push(more), keep);
}

proof fn lemma_kept_agree(values: Seq<u32>, a: Seq<bool>, b: Seq<bool>)
    requires
        a.len() >= values.len(),
        b.len() >= values.len(),
        forall|i: int| 0 <= i < values.len() ==> a[i] == b[i],
    ensures
        kept(values, a) == kept(values, b),
    decreases values.len(),
{
    if values.len() > 0 {
        lemma_kept_agree(values.drop_last(), a, b);
    }
}

/// Offering nothing changes nothing.
pub proof fn lemma_nothing_offered(producer: rtrb::Producer<u32>)
    ensures
        offered(producer, Seq::empty(), producer),
{
    let none: Seq<u32> = Seq::empty();
    let keep: Seq<bool> = Seq::empty();
    assert(pushed(producer) + kept(none, keep) =~= pushed(producer));
    assert(refused(producer) + kept(none, others(keep)) =~= refused(producer));
    assert(pushed(producer) + none =~= pushed(producer));
}

/// Push one sample into the ring, dropping it when the ring is full. Returns
/// whether it was accepted.
pub fn push_sample(producer: &mut rtrb::Producer<u32>, sample: Single) -> (accepted: bool)
    ensures
        offered(*old(producer), seq![sample.bits], *final(producer)),
        pushed(*final(producer)).len() == pushed(*old(producer)).len() + if accepted {
            1int
        } else {
            0
        },
{
    let r = push(producer, sample.bits);
    proof {
        let value = seq![sample.bits];
        let keep = seq![r is Ok];
        reveal_with_fuel(kept, 2);
        assert(value.drop_last() =~= Seq::<u32>::empty());
        assert(kept(value, keep) =~= if r is Ok {
            value
        } else {
            Seq::empty()
        });
        assert(kept(value, others(keep)) =~= if r is Ok {
            Seq::empty()
        } else {
            value
        });
        assert(pushed(*producer) =~= pushed(*old(producer)) + kept(value, keep));
        assert(refused(*producer) =~= refused(*old(producer)) + kept(value, others(keep)));
    }
    r.is_ok()
}

/// Push samples into the ring, in order, dropping those that find it full.
/// Returns how many were accepted.
pub fn push_samples(producer: &mut rtrb::Producer<u32>, samples: &[Single]) -> (accepted: usize)
    ensures
        offered(*old(producer), patterns(samples@), *final(producer)),
        accepted == pushed(*final(producer)).len() - pushed(*old(producer)).len(),
{
    let ghost before = pushed(*producer);
    let ghost back = refused(*producer);
    let ghost room = capacity(*producer);
    let ghost all = patterns(samples@);
    let ghost mut keep: Seq<bool> = Seq::empty();
    let mut accepted: usize = 0;
    let mut i: usize = 0;
    proof {
        assert(all.take(0) == Seq::<u32>::empty());
        assert(before + kept(all.take(0), keep) =~= before);
        assert(back + kept(all.take(0), others(keep)) =~= back);
    }
    while i < samples.len()
        invariant
            i <= samples@.len(),
            accepted <= i,
            all == patterns(samples@),
            keep.len() == i,
            capacity(*producer) == room,
            before == pushed(*old(producer)),
            lane_in(*producer) == lane_in(*old(producer)),
            before.is_prefix_of(lane_in(*old(producer))) ==> pushed(*producer).is_prefix_of(
                lane_in(*producer),
            ),
            pushed(*producer) == before + kept(all.take(i as int), keep),
            refused(*producer) == back + kept(all.take(i as int), others(keep)),
            accepted == kept(all.take(i as int), keep).len(),
            before.len() + samples@.len() <= room ==> kept(all.take(i as int), keep) == all.take(
                i as int,
            ),
        decreases samples@.len() - i,
    {
        let r = push(producer, samples[i].bits);
        proof {
            let ok = r is Ok;
            let value = samples@[i as int].bits;
            let next = all.take(i + 1);
            assert(next.drop_last() =~= all.take(i as int));
            assert(next.last() == value);
            assert(others(keep.push(ok)) =~= others(keep).push(!ok));
            lemma_kept_prefix(all.take(i as int), keep, ok);
            lemma_kept_prefix(all.take(i as int), others(keep), !ok);
            assert((before + kept(all.take(i as int), keep)).push(value) =~= before + kept(
                all.take(i as int),
                keep,
            ).push(value));
            assert((back + kept(all.take(i as int), others(keep))).push(value) =~= back + kept(
                all.take(i as int),
                others(keep),
            ).push(value));
            assert(all.take(i as int).push(value) =~= next);
            keep = keep.push(ok);
        }
        if r.is_ok() {
            accepted = accepted + 1;
        }
        i = i + 1;
    }
    proof {
        assert(all.take(i as int) =~= all);
    }
    accepted
}

/// How many attempts have been made after draining `taken` samples: one for each of
/// them and, unless no more fit into memory, one that found the ring empty.
pub open spec fn drained_attempts(before: nat, taken: nat) -> nat {
    if taken < usize::MAX {
        before + taken + 1
    } else {
        before + taken
    }
}

/// Take the samples that wait in the ring, oldest first, until it is found empty
/// (or no more fit into memory).
pub fn drain_samples(consumer: &mut rtrb::Consumer<u32>) -> (samples: Vec<Single>)
    ensures
        taken(*old(consumer), patterns(samples@), *final(consumer)),
        exhausted(*final(consumer)) || samples.len() == usize::MAX,
        attempts(*final(consumer)) == drained_attempts(attempts(*old(consumer)), samples@.len()),
{
    let mut samples: Vec<Single> = Vec::new();
    let ghost before = popped(*consumer);
    proof {
        assert(before + patterns(samples@) =~= before);
    }
    while samples.len() < usize::MAX
        invariant
            before == popped(*old(consumer)),
            popped(*consumer) == before + patterns(samples@),
            attempts(*consumer) == attempts(*old(consumer)) + samples.len(),
            lane_out(*consumer) == lane_out(*old(consumer)),
            before.is_prefix_of(lane_out(*old(consumer))) ==> popped(*consumer).is_prefix_of(
                lane_out(*consumer),
            ),
        decreases usize::MAX - samples.len(),
    {
        match pop(consumer) {
            Some(bits) => {
                let ghost so_far = samples@;
                samples.push(Single { bits });
                proof {
                    assert((before + patterns(so_far)).push(bits) =~= before + patterns(samples@));
                }
            },
            None => {
                return samples;
            },
        }
    }
    samples
}

/// How many values of a list are kept.
pub open spec fn count(keep: Seq<bool>) -> nat
    decreases keep.len(),
{
    if keep.len() == 0 {
        0
    } else {
        count(keep.drop_last()) + if keep.last() {
            1nat
        } else {
            0
        }
    }
}

/// Kept values keep their order: value `i`, if it is kept, stands behind as many as are
/// kept before it.
pub proof fn kept_values_keep_their_order(values: Seq<u32>, keep: Seq<bool>, i: int)
    requires
        keep.len() == values.len(),
        0 <= i < values.len(),
    ensures
        kept(values, keep).len() == count(keep),
        keep[i] ==> count(keep.take(i)) < count(keep) && kept(values, keep)[count(
            keep.take(i),
        ) as int] == values[i],
    decreases values.len(),
{
    let n = values.len() - 1;
    let rest = values.drop_last();
    let head = keep.drop_last();
    lemma_kept_count(values, keep);
    lemma_kept_count(rest, head);
    lemma_kept_ignores(rest, keep, head);
    if i == n {
        assert(keep.take(i) =~= head);
    } else {
        kept_values_keep_their_order(rest, head, i);
        assert(head.take(i) =~= keep.take(i));
    }
}

proof fn lemma_kept_count(values: Seq<u32>, keep: Seq<bool>)
    requires
        keep.len() == values.len(),
    ensures
        kept(values, keep).len() == count(keep),
    decreases values.len(),
{
    if values.len() > 0 {
        lemma_kept_count(values.drop_last(), keep.drop_last());
        lemma_kept_ignores(values.drop_last(), keep, keep.drop_last());
    }
}

/// What is kept of values depends on their own places alone.
proof fn lemma_kept_ignores(values: Seq<u32>, keep: Seq<bool>, other: Seq<bool>)
    requires
        forall|i: int| 0 <= i < values.len() ==> keep[i] == other[i],
    ensures
        kept(values, keep) == kept(values, other),
    decreases values.len(),
{
    if values.len() > 0 {
        lemma_kept_ignores(values.drop_last(), keep, other);
    }
}

/// Samples that fit into a ring are all accepted, in order and bit for bit, and the number
/// returned is that of the samples accepted in any case.
pub proof fn samples_that_fit_are_accepted(
    producer: &mut rtrb::Producer<u32>,
    samples: &[Single],
    accepted: usize,
    i: int,
)
    requires
        call_ensures(push_samples, (producer, samples), accepted),
    ensures
        pushed(*final(producer)).len() == pushed(*old(producer)).len() + accepted,
        pushed(*old(producer)).len() + samples@.len() <= capacity(*old(producer)) ==> {
            &&& accepted == samples@.len()
            &&& 0 <= i < samples@.len() ==> pushed(*final(producer))[pushed(*old(producer)).len()
                + i] == samples@[i].bits
        },
{
}

/// Draining adds the samples, bit for bit and in order, to what the consumer has taken, and
/// ends with an attempt that found nothing.
pub proof fn drained_samples_are_taken(
    consumer: &mut rtrb::Consumer<u32>,
    samples: Vec<Single>,
    i: int,
)
    requires
        call_ensures(drain_samples, (consumer,), samples),
    ensures
        popped(*final(consumer)).len() == popped(*old(consumer)).len() + samples.len(),
        0 <= i < samples.len() ==> popped(*final(consumer))[popped(*old(consumer)).len() + i]
            == samples[i].bits,
        samples.len() < usize::MAX ==> exhausted(*final(consumer)) && attempts(*final(consumer))
            == attempts(*old(consumer)) + samples.len() + 1,
{
}

} // verus!
