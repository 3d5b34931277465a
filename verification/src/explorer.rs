//! Moving through the latent space: what each redraw does with the sliders and
//! buttons, and how often it happens.
use vstd::arithmetic::power2::*;
use vstd::math::*;
use vstd::prelude::*;

use crate::gan;
use crate::gan::{SimpleRng, SliderProjection};
use crate::midi::NUM_SLIDERS;
use crate::order;
use crate::single;
use crate::single::{Single, ONE};

verus! {

/// How far the button seeds are from the seed of the projection.
pub const BUTTON_SEED_OFFSET: u64 = 1000;

/// The projection and what is needed to give a slider a new direction when its
/// button has been pressed.
pub struct Explorer {
    pub projection: SliderProjection,
    /// The presses seen so far, per button.
    pub last_button_presses: [u64; 8],
    /// The last seed used.
    pub seed_counter: u64,
}

/// How many of the first `n` buttons have been pressed since they were last seen.
pub open spec fn fresh(last: Seq<u64>, presses: Seq<u64>, n: nat) -> nat
    decreases n,
{
    if n == 0 {
        0
    } else {
        fresh(last, presses, (n - 1) as nat) + if presses[n - 1] > last[n - 1] {
            1nat
        } else {
            0
        }
    }
}

proof fn lemma_fresh(last: Seq<u64>, presses: Seq<u64>, m: nat, n: nat)
    requires
        m <= n,
    ensures
        fresh(last, presses, m) <= fresh(last, presses, n) <= n,
    decreases n,
{
    if m < n {
        lemma_fresh(last, presses, m, (n - 1) as nat);
    } else if n > 0 {
        lemma_fresh(last, presses, (n - 1) as nat, (n - 1) as nat);
    }
}

impl Explorer {
    /// One direction per slider.
    pub open spec fn wf(self) -> bool {
        &&& self.projection.wf()
        &&& self.projection.num_sliders == NUM_SLIDERS
    }

    /// Start from a random projection, with no button pressed.
    pub fn new<F: Fn(u64, u64) -> Single>(z_dim: usize, seed: u64, normal: &F) -> (e: Explorer)
        requires
            z_dim * NUM_SLIDERS <= usize::MAX,
            seed + BUTTON_SEED_OFFSET <= u64::MAX,
            forall|u: u64, v: u64|
                u < 0x20_0000_0000_0000 && v < 0x20_0000_0000_0000 ==> call_requires(
                    *normal,
                    (u, v),
                ),
        ensures
            e.wf(),
            e.projection.z_dim == z_dim,
            e.projection.drawn_from(*normal, seed),
            forall|i: int| 0 <= i < NUM_SLIDERS ==> #[trigger] e.last_button_presses[i] == 0,
            e.seed_counter == seed + BUTTON_SEED_OFFSET,
    {
        Explorer {
            projection: SliderProjection::new(z_dim, NUM_SLIDERS, seed, normal),
            last_button_presses: [0; 8],
            seed_counter: seed + BUTTON_SEED_OFFSET,
        }
    }

    /// Look at the button counters. Each slider whose button has been pressed since
    /// the last look gets a new direction, from the next seed; the others keep theirs.
    pub fn look_at_buttons<F: Fn(u64, u64) -> Single>(&mut self, presses: &[u64; 8], normal: &F)
        requires
            old(self).wf(),
            old(self).seed_counter + fresh(old(self).last_button_presses@, presses@, 8)
                <= u64::MAX,
            forall|u: u64, v: u64|
                u < 0x20_0000_0000_0000 && v < 0x20_0000_0000_0000 ==> call_requires(
                    *normal,
                    (u, v),
                ),
        ensures
            final(self).wf(),
            final(self).projection.z_dim == old(self).projection.z_dim,
            final(self).projection.base_z == old(self).projection.base_z,
            final(self).seed_counter == old(self).seed_counter + fresh(
                old(self).last_button_presses@,
                presses@,
                8,
            ),
            forall|i: int|
                0 <= i < NUM_SLIDERS ==> #[trigger] final(self).last_button_presses[i]
                    == if presses[i] > old(self).last_button_presses[i] {
                    presses[i]
                } else {
                    old(self).last_button_presses[i]
                },
            forall|i: int, k: int|
                0 <= i < NUM_SLIDERS && 0 <= k < old(self).projection.z_dim && presses[i] > old(
                    self,
                ).last_button_presses[i] ==> gan::is_normal(
                    *normal,
                    gan::seeded(
                        (old(self).seed_counter + fresh(
                            old(self).last_button_presses@,
                            presses@,
                            i as nat,
                        ) + 1) as u64,
                    ),
                    k,
                    #[trigger] final(self).projection.element(i, k),
                ),
            forall|i: int, k: int|
                0 <= i < NUM_SLIDERS && 0 <= k < old(self).projection.z_dim && presses[i] <= old(
                    self,
                ).last_button_presses[i] ==> #[trigger] final(self).projection.element(i, k)
                    == old(self).projection.element(i, k),
    {
        let ghost last = self.last_button_presses@;
        let ghost first = self.seed_counter;
        let ghost before = self.projection;
        let mut i: usize = 0;
        while i < NUM_SLIDERS
            invariant
                i <= NUM_SLIDERS,
                self.wf(),
                last.len() == 8,
                first + fresh(last, presses@, 8) <= u64::MAX,
                self.projection.z_dim == before.z_dim,
                self.projection.base_z == before.base_z,
                self.seed_counter == first + fresh(last, presses@, i as nat),
                forall|u: u64, v: u64|
                    u < 0x20_0000_0000_0000 && v < 0x20_0000_0000_0000 ==> call_requires(
                        *normal,
                        (u, v),
                    ),
                forall|j: int|
                    0 <= j < NUM_SLIDERS ==> #[trigger] self.last_button_presses[j] == if j < i
                        && presses[j] > last[j] {
                        presses[j]
                    } else {
                        last[j]
                    },
                forall|j: int, k: int|
                    0 <= j < i && 0 <= k < before.z_dim && presses[j] > last[j] ==> gan::is_normal(
                        *normal,
                        gan::seeded((first + fresh(last, presses@, j as nat) + 1) as u64),
                        k,
                        #[trigger] self.projection.element(j, k),
                    ),
                forall|j: int, k: int|
                    0 <= j < NUM_SLIDERS && 0 <= k < before.z_dim && (j >= i || presses[j]
                        <= last[j]) ==> #[trigger] self.projection.element(j, k) == before.element(
                        j,
                        k,
                    ),
            decreases NUM_SLIDERS - i,
        {
            proof {
                lemma_fresh(last, presses@, (i + 1) as nat, 8);
                assert(self.last_button_presses[i as int] == last[i as int]);
            }
            if presses[i] > self.last_button_presses[i] {
                self.last_button_presses[i] = presses[i];
                self.seed_counter = self.seed_counter + 1;
                self.projection.rerandomize_slider(i, self.seed_counter, normal);
            }
            i = i + 1;
        }
    }

    /// The latent vector for the sliders.
    pub fn latent(&self, sliders: &[u8; 8]) -> (z: Vec<Single>)
        requires
            self.wf(),
        ensures
            z.len() == self.projection.z_dim,
            forall|i: int|
                0 <= i < z.len() ==> #[trigger] z[i] == self.projection.projected(
                    sliders@,
                    i,
                    NUM_SLIDERS as nat,
                ),
    {
        self.projection.project(sliders.as_slice())
    }
}

/// As many buttons are fresh as there are places at which more presses are counted than
/// have been seen.
pub proof fn fresh_buttons_are_counted(last: Seq<u64>, presses: Seq<u64>, n: nat)
    ensures
        fresh(last, presses, n) == Seq::new(n, |i: int| i).filter(
            |i: int| presses[i] > last[i],
        ).len(),
    decreases n,
{
    let all = Seq::new(n, |i: int| i);
    let pressed = |i: int| presses[i] > last[i];
    reveal(Seq::filter);
    if n > 0 {
        fresh_buttons_are_counted(last, presses, (n - 1) as nat);
        assert(all.drop_last() =~= Seq::new((n - 1) as nat, |i: int| i));
        assert(all.last() == n - 1);
    }
}

/// What looking at the buttons does: a slider whose button has been pressed since the last
/// look gets a direction from the beginning of the run of a seed of its own, the next after
/// those of the buttons before it; every other direction and the base stay.
pub proof fn pressed_buttons_draw_from_successive_seeds<F: Fn(u64, u64) -> Single>(
    normal: F,
    e: &mut Explorer,
    presses: [u64; 8],
    slider: int,
    k: int,
    rng: SimpleRng,
    run: Seq<u64>,
)
    requires
        old(e).wf(),
        call_ensures(Explorer::look_at_buttons::<F>, (e, &presses, &normal), ()),
        old(e).seed_counter + 8 <= u64::MAX,
        0 <= slider < 8,
        0 <= k < old(e).projection.z_dim,
        call_ensures(
            SimpleRng::new,
            (
                (old(e).seed_counter + 1 + Seq::new(slider as nat, |i: int| i).filter(
                    |i: int| presses@[i] > old(e).last_button_presses@[i],
                ).len()) as u64,
            ),
            rng,
        ),
        run.len() > 2 * old(e).projection.z_dim,
        run[0] == rng.state,
        gan::is_run(run),
    ensures
        ({
            let at = slider * old(e).projection.z_dim + k;
            if presses@[slider] > old(e).last_button_presses@[slider] {
                &&& final(e).last_button_presses@[slider] == presses@[slider]
                &&& call_ensures(
                    normal,
                    (run[2 * k + 1] >> 11, run[2 * k + 2] >> 11),
                    final(e).projection.matrix[at],
                )
            } else {
                &&& final(e).last_button_presses@[slider] == old(e).last_button_presses@[slider]
                &&& final(e).projection.matrix[at] == old(e).projection.matrix[at]
            }
        }),
        final(e).projection.base_z@ == old(e).projection.base_z@,
{
    let last = old(e).last_button_presses@;
    fresh_buttons_are_counted(last, presses@, slider as nat);
    lemma_fresh(last, presses@, slider as nat, 8);
    gan::lemma_run(run, (2 * k + 1) as nat);
    gan::lemma_run(run, (2 * k + 2) as nat);
    let seed = (old(e).seed_counter + fresh(last, presses@, slider as nat) + 1) as u64;
    if presses@[slider] > last[slider] {
        assert(gan::is_normal(
            normal,
            gan::seeded(seed),
            k,
            final(e).projection.element(slider, k),
        ));
    } else {
        assert(final(e).projection.element(slider, k) == old(e).projection.element(slider, k));
    }
    assert(final(e).last_button_presses[slider] == if presses[slider]
        > old(e).last_button_presses[slider] {
        presses[slider]
    } else {
        old(e).last_button_presses[slider]
    });
}

/// Looking again without a new press changes nothing.
pub proof fn nothing_is_fresh_twice(last: Seq<u64>, presses: Seq<u64>, n: nat)
    requires
        forall|i: int| 0 <= i < n ==> #[trigger] last[i] >= presses[i],
    ensures
        fresh(last, presses, n) == 0,
    decreases n,
{
    if n > 0 {
        nothing_is_fresh_twice(last, presses, (n - 1) as nat);
    }
}

/// Counts frames and tells the rate about once a second.
pub struct FrameCounter {
    pub frames: u32,
}

impl FrameCounter {
    pub fn new() -> (c: FrameCounter)
        ensures
            c.frames == 0,
    {
        FrameCounter { frames: 0 }
    }

    /// Count a frame, `elapsed` seconds after the count was last at zero. From one
    /// second on, returns the frames per second and starts anew.
    pub fn tick(&mut self, elapsed: Single) -> (fps: Option<Single>)
        requires
            old(self).frames < u32::MAX,
        ensures
            if (Single { bits: ONE }).at_most(elapsed) {
                &&& fps == Some(Single::of_integer(old(self).frames + 1).quotient(elapsed))
                &&& final(self).frames == 0
            } else {
                &&& fps is None
                &&& final(self).frames == old(self).frames + 1
            },
    {
        self.frames = self.frames + 1;
        if (Single { bits: ONE }).le(elapsed) {
            let fps = Single::from_u64(self.frames as u64).over(elapsed);
            self.frames = 0;
            Some(fps)
        } else {
            None
        }
    }
}

/// The latent vector for the sliders is the base, moved along the direction of every
/// slider by `(2 s - 127) / 127` of it, up to rounding (values in units of `2^-149`).
pub proof fn latent_vectors_follow_every_slider(
    e: Explorer,
    sliders: [u8; 8],
    z: Vec<Single>,
    i: int,
    bound: int,
)
    requires
        e.wf(),
        call_ensures(Explorer::latent, (&e, &sliders), z),
        0 <= i < e.projection.z_dim,
        forall|j: int| 0 <= j < 8 ==> (#[trigger] sliders@[j]) <= 127,
        forall|j: int|
            0 <= j < 8 ==> (#[trigger] e.projection.element(j, i)).finite() && abs(
                e.projection.element(j, i).value(),
            ) <= bound,
        e.projection.base_z[i].finite(),
        abs(e.projection.base_z[i].value()) <= bound,
        17 * bound < pow2(276),
    ensures
        z.len() == e.projection.z_dim,
        z[i].finite(),
        0x100_0000 * abs(
            127 * z[i].value() - 127 * e.projection.base_z[i].value() - gan::displacement(
                e.projection,
                sliders@,
                i,
                8,
            ),
        ) <= 127 * (128 * bound + 8 * 0x80_0000),
{
    gan::lemma_projected(e.projection, sliders@, i, 8, bound);
    assert(z[i] == e.projection.projected(sliders@, i, 8));
}

/// The frame rate is told from one second on, as the frames counted divided by the
/// seconds, up to rounding, and the count starts anew; until then it grows by one.
pub proof fn rates_are_frames_per_second(c: &mut FrameCounter, elapsed: Single, fps: Option<Single>)
    requires
        call_ensures(FrameCounter::tick, (c, elapsed), fps),
        old(c).frames < 0x100_0000,
        elapsed.finite(),
    ensures
        elapsed.value() < pow2(149) ==> fps is None && final(c).frames == old(c).frames + 1,
        elapsed.value() >= pow2(149) ==> {
            &&& fps is Some
            &&& order::near(fps->0, (old(c).frames + 1) * pow2(149) * pow2(149), elapsed.value())
            &&& final(c).frames == 0
        },
{
    let one = Single { bits: ONE };
    let frames = Single::of_integer(old(c).frames + 1);
    lemma_pow2_pos(149);
    order::lemma_one();
    single::order_is_by_value(one, elapsed);
    order::whole_numbers_are_exact(old(c).frames + 1);
    if elapsed.value() >= pow2(149) {
        order::operations_are_near(frames, elapsed);
    }
}

/// A new explorer has seen no presses, its projection has eight directions and a base drawn
/// one after the other from the run of its seed, and the first button seed follows the
/// seed at a distance of a thousand.
pub proof fn explorers_start_from_their_seed<F: Fn(u64, u64) -> Single>(
    normal: F,
    z_dim: usize,
    seed: u64,
    e: Explorer,
    rng: SimpleRng,
    run: Seq<u64>,
    i: int,
    k: int,
)
    requires
        call_ensures(Explorer::new::<F>, (z_dim, seed, &normal), e),
        call_ensures(SimpleRng::new, (seed,), rng),
        run.len() > 18 * z_dim,
        run[0] == rng.state,
        gan::is_run(run),
        0 <= i < 8,
        0 <= k < z_dim,
    ensures
        e.seed_counter == seed + 1000,
        e.last_button_presses@[i] == 0,
        e.projection.z_dim == z_dim && e.projection.num_sliders == 8,
        call_ensures(
            normal,
            (run[2 * (i * z_dim + k) + 1] >> 11, run[2 * (i * z_dim + k) + 2] >> 11),
            e.projection.matrix[i * z_dim + k],
        ),
        call_ensures(
            normal,
            (run[2 * (8 * z_dim + k) + 1] >> 11, run[2 * (8 * z_dim + k) + 2] >> 11),
            e.projection.base_z[k],
        ),
{
    gan::lemma_own_draws(normal, seed, e.projection, run, i, k);
    assert(e.last_button_presses[i] == 0);
}

} // verus!
