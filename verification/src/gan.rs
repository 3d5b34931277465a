//! The image generator's wire format and the slider projection into its latent
//! space.
//!
//! The generator is a separate process. At startup it announces its dimensions
//! in a 12-byte header; after that each request is a latent vector and each
//! answer a raw RGB image.
use vstd::arithmetic::power2::*;
use vstd::math::*;
use vstd::prelude::*;

use crate::order;
use crate::rounding;
use crate::single;
use crate::single::{Single, ONE, TWO};

verus! {

/// Dimensions announced by the generator at startup.
#[derive(Debug, Clone, Copy)]
pub struct GanInfo {
    pub z_dim: u32,
    pub img_size: u32,
    pub img_channels: u32,
}

/// Why the generator cannot be started.
#[derive(Copy, Clone, Debug, PartialEq, Eq, Structural)]
pub enum LaunchError {
    /// Its Python environment is not installed.
    MissingPython,
    /// Its script is not there.
    MissingScript,
}

/// Whether the generator can be started, by what was found of it.
pub fn launch_check(python_exists: bool, script_exists: bool) -> (r: Result<(), LaunchError>)
    ensures
        r == if !python_exists {
            Err(LaunchError::MissingPython)
        } else if !script_exists {
            Err(LaunchError::MissingScript)
        } else {
            Ok(())
        },
{
    if !python_exists {
        return Err(LaunchError::MissingPython);
    }
    if !script_exists {
        return Err(LaunchError::MissingScript);
    }
    Ok(())
}

/// The little-endian number in the four bytes at `at`.
pub open spec fn little_endian(bytes: Seq<u8>, at: int) -> int {
    bytes[at] + 0x100 * bytes[at + 1] + 0x1_0000 * bytes[at + 2] + 0x100_0000 * bytes[at + 3]
}

/// `bytes` hold the bits of the elements in order, little-endian.
pub open spec fn holds_elements(bytes: Seq<u8>, z: Seq<Single>) -> bool {
    forall|k: int| 0 <= k < z.len() ==> little_endian(bytes, 4 * k) == #[trigger] z[k].bits
}

fn read_u32(bytes: &[u8], at: usize) -> (n: u32)
    requires
        at + 4 <= bytes@.len(),
    ensures
        n == little_endian(bytes@, at as int),
{
    bytes[at] as u32 + 0x100 * bytes[at + 1] as u32 + 0x1_0000 * bytes[at + 2] as u32 + 0x100_0000
        * bytes[at + 3] as u32
}

impl GanInfo {
    /// Read the startup header: latent dimension, image size and channels.
    pub fn from_header(header: &[u8; 12]) -> (info: GanInfo)
        ensures
            info.z_dim == little_endian(header@, 0),
            info.img_size == little_endian(header@, 4),
            info.img_channels == little_endian(header@, 8),
    {
        let bytes: &[u8] = header.as_slice();
        GanInfo {
            z_dim: read_u32(bytes, 0),
            img_size: read_u32(bytes, 4),
            img_channels: read_u32(bytes, 8),
        }
    }

    /// The bytes of one image.
    pub open spec fn image_len(self) -> int {
        self.img_size * self.img_size * self.img_channels
    }

    /// Total bytes of one output image (RGB, row-major).
    pub fn image_bytes(&self) -> (n: usize)
        requires
            self.image_len() <= usize::MAX,
            self.img_size * self.img_size <= usize::MAX,
        ensures
            n == self.image_len(),
    {
        self.img_size as usize * self.img_size as usize * self.img_channels as usize
    }

    /// Total bytes of one input z-vector (four per element).
    pub fn z_bytes(&self) -> (n: usize)
        requires
            self.z_dim * 4 <= usize::MAX,
        ensures
            n == self.z_dim * 4,
    {
        self.z_dim as usize * 4
    }

    /// The request for a latent vector: its elements in order, little-endian.
    pub fn request(&self, z: &[Single]) -> (bytes: Vec<u8>)
        requires
            z@.len() == self.z_dim,
            self.z_dim * 4 <= usize::MAX,
        ensures
            bytes.len() == self.z_dim * 4,
            forall|k: int|
                0 <= k < z@.len() ==> little_endian(bytes@, 4 * k) == #[trigger] z@[k].bits,
            holds_elements(bytes@, z@),
    {
        let mut bytes: Vec<u8> = Vec::new();
        let mut i: usize = 0;
        while i < z.len()
            invariant
                i <= z@.len(),
                z@.len() * 4 <= usize::MAX,
                bytes.len() == 4 * i,
                forall|k: int|
                    0 <= k < i ==> little_endian(bytes@, 4 * k) == #[trigger] z@[k].bits,
            decreases z@.len() - i,
        {
            let b: u32 = z[i].bits;
            let ghost before = bytes@;
            bytes.push((b % 0x100) as u8);
            bytes.push((b / 0x100 % 0x100) as u8);
            bytes.push((b / 0x1_0000 % 0x100) as u8);
            bytes.push((b / 0x100_0000) as u8);
            proof {
                assert(b == b % 0x100 + 0x100 * (b / 0x100 % 0x100) + 0x1_0000 * (b / 0x1_0000
                    % 0x100) + 0x100_0000 * (b / 0x100_0000)) by (bit_vector);
                assert(little_endian(bytes@, 4 * i) == b);
                assert forall|k: int| 0 <= k < i implies little_endian(bytes@, 4 * k)
                    == #[trigger] z@[k].bits by {
                    assert(little_endian(before, 4 * k) == z@[k].bits);
                }
            }
            i = i + 1;
        }
        bytes
    }
}

/// A request determines the latent vector it was made from.
pub proof fn request_is_injective(bytes: Seq<u8>, y: Seq<Single>, z: Seq<Single>)
    requires
        y.len() == z.len(),
        forall|k: int| 0 <= k < y.len() ==> little_endian(bytes, 4 * k) == #[trigger] y[k].bits,
        forall|k: int| 0 <= k < z.len() ==> little_endian(bytes, 4 * k) == #[trigger] z[k].bits,
    ensures
        y == z,
{
    assert forall|k: int| 0 <= k < y.len() implies y[k] == z[k] by {
        assert(y[k].bits == z[k].bits);
    }
    assert(y =~= z);
}

/// A request holds four bytes for each element of the latent vector, in order, and the
/// lowest first: byte `j` of element `k` is the `j`-th digit of its bits to the base 256.
pub proof fn requests_hold_the_elements_lowest_byte_first(
    info: GanInfo,
    z: &[Single],
    bytes: Vec<u8>,
    k: int,
)
    requires
        call_ensures(GanInfo::request, (&info, z), bytes),
        z@.len() == info.z_dim,
        0 <= k < z@.len(),
    ensures
        bytes.len() == 4 * z@.len(),
        bytes[4 * k] == z@[k].bits % 0x100,
        bytes[4 * k + 1] == z@[k].bits / 0x100 % 0x100,
        bytes[4 * k + 2] == z@[k].bits / 0x1_0000 % 0x100,
        bytes[4 * k + 3] == z@[k].bits / 0x100_0000,
{
    assert(holds_elements(bytes@, z@));
    assert(little_endian(bytes@, 4 * k) == z@[k].bits);
    lemma_digits(bytes@, 4 * k, z@[k].bits);
}

/// A little-endian number has its digits to the base 256 in its bytes.
proof fn lemma_digits(bytes: Seq<u8>, at: int, n: u32)
    requires
        little_endian(bytes, at) == n,
    ensures
        bytes[at] == n % 0x100,
        bytes[at + 1] == n / 0x100 % 0x100,
        bytes[at + 2] == n / 0x1_0000 % 0x100,
        bytes[at + 3] == n / 0x100_0000,
{
    let (a, b, c, d) = (bytes[at] as u32, bytes[at + 1] as u32, bytes[at + 2] as u32, bytes[at
        + 3] as u32);
    assert(n % 0x100 == a && n / 0x100 % 0x100 == b && n / 0x1_0000 % 0x100 == c && n
        / 0x100_0000 == d) by (bit_vector)
        requires
            n == a + 0x100 * b + 0x1_0000 * c + 0x100_0000 * d,
            a < 0x100,
            b < 0x100,
            c < 0x100,
            d < 0x100,
    ;
}

/// The header is three numbers, lowest byte first: the latent dimension, the image size
/// and the channels.
pub proof fn headers_hold_three_numbers(header: [u8; 12], info: GanInfo)
    requires
        call_ensures(GanInfo::from_header, (&header,), info),
    ensures
        header@[0] == info.z_dim % 0x100 && header@[1] == info.z_dim / 0x100 % 0x100,
        header@[2] == info.z_dim / 0x1_0000 % 0x100 && header@[3] == info.z_dim / 0x100_0000,
        header@[4] == info.img_size % 0x100 && header@[5] == info.img_size / 0x100 % 0x100,
        header@[6] == info.img_size / 0x1_0000 % 0x100 && header@[7] == info.img_size
            / 0x100_0000,
        header@[8] == info.img_channels % 0x100 && header@[9] == info.img_channels / 0x100
            % 0x100,
        header@[10] == info.img_channels / 0x1_0000 % 0x100 && header@[11] == info.img_channels
            / 0x100_0000,
{
    lemma_digits(header@, 0, info.z_dim);
    lemma_digits(header@, 4, info.img_size);
    lemma_digits(header@, 8, info.img_channels);
}

/// Minimal xorshift-based random number generator.
pub struct SimpleRng {
    pub state: u64,
}

/// One xorshift step.
pub open spec fn xorshift(x: u64) -> u64 {
    let a = x ^ (x << 13);
    let b = a ^ (a >> 7);
    b ^ (b << 17)
}

/// The state `n` steps after `x`.
pub open spec fn steps(x: u64, n: nat) -> u64
    decreases n,
{
    if n == 0 {
        x
    } else {
        xorshift(steps(x, (n - 1) as nat))
    }
}

/// The state that a seed starts from.
pub open spec fn seeded(seed: u64) -> u64 {
    if seed == u64::MAX {
        0
    } else {
        (seed + 1) as u64
    }
}

/// The `k`-th uniform draw from state `x`, in multiples of `2^-53`.
pub open spec fn draw(x: u64, k: int) -> u64 {
    steps(x, (k + 1) as nat) >> 11
}

/// `v` is a value of `normal` on the `k`-th pair of draws from state `x`.
pub open spec fn is_normal<F: Fn(u64, u64) -> Single>(normal: F, x: u64, k: int, v: Single) -> bool {
    call_ensures(normal, (draw(x, 2 * k), draw(x, 2 * k + 1)), v)
}

impl SimpleRng {
    pub fn new(seed: u64) -> (r: SimpleRng)
        ensures
            r.state == seeded(seed),
    {
        SimpleRng { state: seed.wrapping_add(1) }
    }

    pub fn next_u64(&mut self) -> (r: u64)
        ensures
            r == xorshift(old(self).state),
            final(self).state == r,
    {
        self.state = self.state ^ (self.state << 13);
        self.state = self.state ^ (self.state >> 7);
        self.state = self.state ^ (self.state << 17);
        self.state
    }

    /// Uniform in `[0, 1)`, in multiples of `2^-53`.
    pub fn uniform(&mut self) -> (r: u64)
        ensures
            r == xorshift(old(self).state) >> 11,
            r < 0x20_0000_0000_0000,
            final(self).state == xorshift(old(self).state),
    {
        let x = self.next_u64();
        proof {
            assert(x >> 11 < 0x20_0000_0000_0000) by (bit_vector);
        }
        x >> 11
    }

    /// A standard normal number: what `normal` makes of two uniform ones.
    pub fn normal<F: Fn(u64, u64) -> Single>(&mut self, normal: &F) -> (r: Single)
        requires
            forall|u: u64, v: u64|
                u < 0x20_0000_0000_0000 && v < 0x20_0000_0000_0000 ==> call_requires(
                    *normal,
                    (u, v),
                ),
        ensures
            is_normal(*normal, old(self).state, 0, r),
            final(self).state == steps(old(self).state, 2),
    {
        proof {
            reveal_with_fuel(steps, 3);
        }
        let u1 = self.uniform();
        let u2 = self.uniform();
        normal(u1, u2)
    }
}

proof fn lemma_steps_add(x: u64, m: nat, n: nat)
    ensures
        steps(steps(x, m), n) == steps(x, m + n),
    decreases n,
{
    if n > 0 {
        lemma_steps_add(x, m, (n - 1) as nat);
    }
}

proof fn lemma_xorshift_nonzero(x: u64)
    requires
        x != 0,
    ensures
        xorshift(x) != 0,
{
    assert(x != 0 ==> x ^ (x << 13) != 0) by (bit_vector);
    let a = x ^ (x << 13);
    assert(a != 0 ==> a ^ (a >> 7) != 0) by (bit_vector);
    let b = a ^ (a >> 7);
    assert(b != 0 ==> b ^ (b << 17) != 0) by (bit_vector);
}

/// A step of the generator is linear: on the exclusive or of two states it gives the
/// exclusive or of what it gives on each. So it is fixed by what it gives on single bits:
/// bit `i` spreads to the places 13 up, 7 down and 17 up.
pub proof fn generator_steps_are_linear(x: u64, y: u64, i: u64)
    requires
        i < 64,
    ensures
        xorshift(x ^ y) == xorshift(x) ^ xorshift(y),
        i >= 7 && i < 34 ==> xorshift(1u64 << i) == (1u64 << i) ^ (1u64 << ((i + 13) as u64)) ^ (
        1u64 << ((i - 7) as u64)) ^ (1u64 << ((i + 6) as u64)) ^ (1u64 << ((i + 17) as u64)) ^ (1u64
            << ((i + 30) as u64)) ^ (1u64 << ((i + 10) as u64)) ^ (1u64 << ((i + 23) as u64)),
{
    assert({
        let a = x ^ (x << 13);
        let b = a ^ (a >> 7);
        let c = y ^ (y << 13);
        let d = c ^ (c >> 7);
        let e = (x ^ y) ^ ((x ^ y) << 13);
        let f = e ^ (e >> 7);
        f ^ (f << 17) == (b ^ (b << 17)) ^ (d ^ (d << 17))
    }) by (bit_vector);
    if i >= 7 && i < 34 {
        let (j, k, l, m, n, o, p) = (
            (i + 13) as u64,
            (i - 7) as u64,
            (i + 6) as u64,
            (i + 17) as u64,
            (i + 30) as u64,
            (i + 10) as u64,
            (i + 23) as u64,
        );
        assert({
            let z = 1u64 << i;
            let a = z ^ (z << 13);
            let b = a ^ (a >> 7);
            b ^ (b << 17) == (1u64 << i) ^ (1u64 << j) ^ (1u64 << k) ^ (1u64 << l) ^ (1u64 << m) ^ (
            1u64 << n) ^ (1u64 << o) ^ (1u64 << p)
        }) by (bit_vector)
            requires
                7 <= i < 34,
                j == i + 13,
                k == i - 7,
                l == i + 6,
                m == i + 17,
                n == i + 30,
                o == i + 10,
                p == i + 23,
        ;
    }
}

/// Successive seeds start from successive states, the first from 1, and a draw is the
/// upper 53 bits of the state that one step leads to.
pub proof fn seeds_start_one_after_another(seed: u64, rng: SimpleRng)
    requires
        seed < u64::MAX,
        call_ensures(SimpleRng::new, (seed,), rng),
    ensures
        rng.state == seed + 1,
{
}

/// The generator never reaches the state zero, which it could not leave: every
/// seed but the greatest starts and stays away from it.
pub proof fn generator_never_sticks(seed: u64, n: nat)
    requires
        seed != u64::MAX,
    ensures
        steps(seeded(seed), n) != 0,
    decreases n,
{
    if n > 0 {
        generator_never_sticks(seed, (n - 1) as nat);
        lemma_xorshift_nonzero(steps(seeded(seed), (n - 1) as nat));
    }
}

/// Random projection from a low-dimensional slider space to the latent space.
///
/// Each column of the projection matrix maps one slider axis to a direction.
/// Sliders are normalized from MIDI `0..=127` to `[-1, 1]`.
pub struct SliderProjection {
    /// One direction after the other, each of length `z_dim`.
    pub matrix: Vec<Single>,
    pub z_dim: usize,
    pub num_sliders: usize,
    /// Base vector (center of exploration).
    pub base_z: Vec<Single>,
}

/// The bits of 127.
pub const SLIDER_TOP: u32 = 0x42fe_0000;

/// A slider value normalized to `[-1, 1]`.
pub open spec fn normalized(val: u8) -> Single {
    Single::of_integer(val as int).quotient(Single { bits: SLIDER_TOP }).product(
        Single { bits: TWO },
    ).difference(Single { bits: ONE })
}

fn normalize(val: u8) -> (t: Single)
    ensures
        t == normalized(val),
{
    Single::from_u64(val as u64).over(Single { bits: SLIDER_TOP }).times(Single { bits: TWO }).minus(
        Single { bits: ONE },
    )
}

impl SliderProjection {
    /// One direction per slider and a base, all of the same dimension.
    pub open spec fn wf(self) -> bool {
        &&& self.matrix.len() == self.num_sliders * self.z_dim
        &&& self.base_z.len() == self.z_dim
    }

    /// Element `k` of the direction of slider `i`.
    pub open spec fn element(self, i: int, k: int) -> Single {
        self.matrix[i * self.z_dim + k]
    }

    /// Drawn from a seed: first the directions, slider by slider, then the base.
    pub open spec fn drawn_from<F: Fn(u64, u64) -> Single>(self, normal: F, seed: u64) -> bool {
        &&& self.wf()
        &&& forall|k: int|
            0 <= k < self.matrix.len() ==> is_normal(
                normal,
                seeded(seed),
                k,
                #[trigger] self.matrix[k],
            )
        &&& forall|k: int|
            0 <= k < self.z_dim ==> is_normal(
                normal,
                seeded(seed),
                self.z_dim * self.num_sliders + k,
                #[trigger] self.base_z[k],
            )
    }

    /// Element `i` of the latent vector after the first `n` sliders: the base,
    /// displaced along each direction in turn.
    pub open spec fn projected(self, sliders: Seq<u8>, i: int, n: nat) -> Single
        decreases n,
    {
        if n == 0 {
            self.base_z[i]
        } else {
            self.projected(sliders, i, (n - 1) as nat).sum(
                normalized(sliders[n - 1]).product(self.element(n - 1, i)),
            )
        }
    }

    /// Create a new random projection.
    ///
    /// `seed` fixes the draws; `normal` turns a pair of uniform ones into a
    /// standard normal number.
    pub fn new<F: Fn(u64, u64) -> Single>(
        z_dim: usize,
        num_sliders: usize,
        seed: u64,
        normal: &F,
    ) -> (p: SliderProjection)
        requires
            z_dim * num_sliders <= usize::MAX,
            forall|u: u64, v: u64|
                u < 0x20_0000_0000_0000 && v < 0x20_0000_0000_0000 ==> call_requires(
                    *normal,
                    (u, v),
                ),
        ensures
            p.z_dim == z_dim,
            p.num_sliders == num_sliders,
            p.drawn_from(*normal, seed),
    {
        let mut rng = SimpleRng::new(seed);
        let matrix = normals(&mut rng, z_dim * num_sliders, normal);
        let ghost middle = rng.state;
        let base_z = normals(&mut rng, z_dim, normal);
        proof {
            assert(matrix.len() == num_sliders * z_dim) by (nonlinear_arith)
                requires
                    matrix.len() == z_dim * num_sliders,
            ;
            assert forall|k: int| 0 <= k < z_dim implies is_normal(
                *normal,
                seeded(seed),
                z_dim * num_sliders + k,
                #[trigger] base_z[k],
            ) by {
                lemma_draws_shift(seeded(seed), (z_dim * num_sliders) as nat, k);
            }
        }
        SliderProjection { matrix, z_dim, num_sliders, base_z }
    }

    /// Re-randomize the projection direction for a single slider.
    pub fn rerandomize_slider<F: Fn(u64, u64) -> Single>(
        &mut self,
        slider_idx: usize,
        seed: u64,
        normal: &F,
    )
        requires
            old(self).wf(),
            slider_idx < old(self).num_sliders,
            forall|u: u64, v: u64|
                u < 0x20_0000_0000_0000 && v < 0x20_0000_0000_0000 ==> call_requires(
                    *normal,
                    (u, v),
                ),
        ensures
            rerandomized(*old(self), slider_idx as int, seed, *normal, *final(self)),
    {
        let mut rng = SimpleRng::new(seed);
        let ghost m = self.matrix@;
        let z = self.z_dim;
        proof {
            assert(slider_idx * z + z <= self.num_sliders * z) by (nonlinear_arith)
                requires
                    slider_idx < self.num_sliders,
            ;
            assert((slider_idx + 1) * z == slider_idx * z + z) by (nonlinear_arith);
            assert(slider_idx * z >= 0) by (nonlinear_arith);
        }
        let offset: usize = slider_idx * z;
        let mut i: usize = 0;
        while i < z
            invariant
                i <= z,
                z == self.z_dim,
                self.z_dim == old(self).z_dim,
                self.num_sliders == old(self).num_sliders,
                self.base_z == old(self).base_z,
                self.matrix.len() == m.len(),
                offset + z <= m.len(),
                rng.state == steps(seeded(seed), (2 * i) as nat),
                forall|u: u64, v: u64|
                    u < 0x20_0000_0000_0000 && v < 0x20_0000_0000_0000 ==> call_requires(
                        *normal,
                        (u, v),
                    ),
                forall|k: int|
                    0 <= k < i ==> is_normal(
                        *normal,
                        seeded(seed),
                        k,
                        #[trigger] self.matrix[offset + k],
                    ),
                forall|k: int|
                    0 <= k < m.len() && !(offset <= k < offset + i) ==> #[trigger] self.matrix[k]
                        == m[k],
            decreases z - i,
        {
            let v = rng.normal(normal);
            proof {
                lemma_draws_shift(seeded(seed), i as nat, 0);
                lemma_steps_add(seeded(seed), (2 * i) as nat, 2);
            }
            let ghost before = self.matrix@;
            self.matrix.set(offset + i, v);
            proof {
                assert forall|k: int| 0 <= k < i + 1 implies is_normal(
                    *normal,
                    seeded(seed),
                    k,
                    #[trigger] self.matrix[offset + k],
                ) by {
                    if k < i {
                        assert(self.matrix[offset + k] == before[offset + k]);
                    }
                }
            }
            i = i + 1;
        }
        proof {
            assert forall|j: int, k: int|
                0 <= j < self.num_sliders && j != slider_idx && 0 <= k < z implies
                #[trigger] self.element(j, k) == old(self).element(j, k) by {
                let at = j * z + k;
                assert(0 <= at < m.len() && !(offset <= at < offset + z)) by (nonlinear_arith)
                    requires
                        at == j * z + k,
                        offset == slider_idx * z,
                        m.len() == self.num_sliders * z,
                        0 <= j < self.num_sliders,
                        j != slider_idx,
                        0 <= k < z,
                ;
                assert(self.matrix[at] == m[at]);
            }
        }
    }

    /// Project slider values (MIDI `0..=127`) to a latent vector of length `z_dim`.
    pub fn project(&self, sliders: &[u8]) -> (z: Vec<Single>)
        requires
            self.wf(),
            sliders@.len() >= self.num_sliders,
        ensures
            z.len() == self.z_dim,
            forall|i: int|
                0 <= i < self.z_dim ==> #[trigger] z[i] == self.projected(
                    sliders@,
                    i,
                    self.num_sliders as nat,
                ),
    {
        let mut z: Vec<Single> = Vec::new();
        let mut i: usize = 0;
        while i < self.z_dim
            invariant
                i <= self.z_dim,
                self.wf(),
                z.len() == i,
                forall|k: int| 0 <= k < i ==> #[trigger] z[k] == self.base_z[k],
            decreases self.z_dim - i,
        {
            z.push(self.base_z[i]);
            i = i + 1;
        }
        let mut s: usize = 0;
        while s < self.num_sliders
            invariant
                s <= self.num_sliders,
                self.wf(),
                sliders@.len() >= self.num_sliders,
                z.len() == self.z_dim,
                forall|k: int|
                    0 <= k < self.z_dim ==> #[trigger] z[k] == self.projected(
                        sliders@,
                        k,
                        s as nat,
                    ),
            decreases self.num_sliders - s,
        {
            let t = normalize(sliders[s]);
            proof {
                assert(s * self.z_dim + self.z_dim <= self.num_sliders * self.z_dim)
                    by (nonlinear_arith)
                    requires
                        s < self.num_sliders,
                ;
                assert(s * self.z_dim >= 0) by (nonlinear_arith);
            }
            let offset: usize = s * self.z_dim;
            let mut i: usize = 0;
            while i < self.z_dim
                invariant
                    i <= self.z_dim,
                    s < self.num_sliders,
                    self.wf(),
                    offset == s * self.z_dim,
                    offset + self.z_dim <= self.matrix.len(),
                    t == normalized(sliders@[s as int]),
                    z.len() == self.z_dim,
                    forall|k: int|
                        0 <= k < self.z_dim ==> #[trigger] z[k] == self.projected(
                            sliders@,
                            k,
                            if k < i {
                                (s + 1) as nat
                            } else {
                                s as nat
                            },
                        ),
                decreases self.z_dim - i,
            {
                let moved = z[i].plus(t.times(self.matrix[offset + i]));
                z.set(i, moved);
                i = i + 1;
            }
            s = s + 1;
        }
        z
    }

    pub fn z_dim(&self) -> (r: usize)
        ensures
            r == self.z_dim,
    {
        self.z_dim
    }

    pub fn num_sliders(&self) -> (r: usize)
        ensures
            r == self.num_sliders,
    {
        self.num_sliders
    }
}

/// Giving slider `slider` a new direction has led from `before` to `after`: the
/// direction is drawn from the seed, and everything else stays.
pub open spec fn rerandomized<F: Fn(u64, u64) -> Single>(
    before: SliderProjection,
    slider: int,
    seed: u64,
    normal: F,
    after: SliderProjection,
) -> bool {
    &&& after.wf()
    &&& after.z_dim == before.z_dim
    &&& after.num_sliders == before.num_sliders
    &&& after.base_z == before.base_z
    &&& forall|k: int|
        0 <= k < before.z_dim ==> is_normal(
            normal,
            seeded(seed),
            k,
            #[trigger] after.element(slider, k),
        )
    &&& forall|i: int, k: int|
        0 <= i < before.num_sliders && i != slider && 0 <= k < before.z_dim
            ==> #[trigger] after.element(i, k) == before.element(i, k)
}

/// `normal` gives one number for each pair of draws.
pub open spec fn single_valued<F: Fn(u64, u64) -> Single>(normal: F) -> bool {
    forall|u: u64, v: u64, r: Single, s: Single| #[trigger]
        call_ensures(normal, (u, v), r) && #[trigger] call_ensures(normal, (u, v), s) ==> r == s
}

/// Projections with the same elements have the same matrix.
proof fn lemma_same_elements(p: SliderProjection, q: SliderProjection)
    requires
        p.wf(),
        q.wf(),
        p.z_dim == q.z_dim,
        p.num_sliders == q.num_sliders,
        forall|i: int, k: int|
            0 <= i < p.num_sliders && 0 <= k < p.z_dim ==> #[trigger] p.element(i, k)
                == q.element(i, k),
    ensures
        p.matrix@ == q.matrix@,
{
    assert forall|at: int| 0 <= at < p.matrix@.len() implies p.matrix@[at] == q.matrix@[at] by {
        let z = p.z_dim as int;
        assert(z > 0) by (nonlinear_arith)
            requires
                0 <= at < p.num_sliders * z,
                z >= 0,
        ;
        let i = at / z;
        let k = at % z;
        vstd::arithmetic::div_mod::lemma_fundamental_div_mod(at, z);
        assert(0 <= i < p.num_sliders && i * z + k == at) by (nonlinear_arith)
            requires
                at == z * i + k,
                0 <= k < z,
                0 <= at < p.num_sliders * z,
        ;
        assert(p.element(i, k) == q.element(i, k));
    }
    assert(p.matrix@ =~= q.matrix@);
}

/// The result of projecting depends on the elements of the projection, and on as
/// many slider values as it has sliders: further ones are ignored.
pub proof fn projection_depends_on_its_sliders(
    p: SliderProjection,
    q: SliderProjection,
    sliders: Seq<u8>,
    others: Seq<u8>,
    i: int,
    n: nat,
)
    requires
        p.matrix@ == q.matrix@,
        p.base_z@ == q.base_z@,
        p.z_dim == q.z_dim,
        forall|j: int| 0 <= j < n ==> sliders[j] == others[j],
    ensures
        p.projected(sliders, i, n) == q.projected(others, i, n),
    decreases n,
{
    if n > 0 {
        projection_depends_on_its_sliders(p, q, sliders, others, i, (n - 1) as nat);
        assert(p.element(n - 1, i) == p.matrix@[(n - 1) * p.z_dim + i]);
        assert(q.element(n - 1, i) == q.matrix@[(n - 1) * p.z_dim + i]);
    }
}

/// A new direction depends on the seed alone: drawing it again changes nothing.
pub proof fn repeating_a_direction_changes_nothing<F: Fn(u64, u64) -> Single>(
    normal: F,
    slider: int,
    seed: u64,
    before: SliderProjection,
    once: SliderProjection,
    twice: SliderProjection,
)
    requires
        single_valued(normal),
        0 <= slider < before.num_sliders,
        rerandomized(before, slider, seed, normal, once),
        rerandomized(once, slider, seed, normal, twice),
    ensures
        twice.matrix@ == once.matrix@,
        twice.base_z == once.base_z,
        twice.z_dim == once.z_dim,
        twice.num_sliders == once.num_sliders,
{
    assert forall|i: int, k: int|
        0 <= i < twice.num_sliders && 0 <= k < twice.z_dim implies #[trigger] twice.element(i, k)
        == once.element(i, k) by {
        if i == slider {
            assert(is_normal(normal, seeded(seed), k, twice.element(slider, k)));
            assert(is_normal(normal, seeded(seed), k, once.element(slider, k)));
        }
    }
    lemma_same_elements(twice, once);
}

/// Drawing the first direction of a new projection again from the projection's own
/// seed gives it back, so no result of projecting changes.
pub proof fn first_direction_is_drawn_first<F: Fn(u64, u64) -> Single>(
    normal: F,
    seed: u64,
    fresh: SliderProjection,
    after: SliderProjection,
    sliders: Seq<u8>,
    i: int,
)
    requires
        single_valued(normal),
        fresh.drawn_from(normal, seed),
        fresh.num_sliders > 0,
        rerandomized(fresh, 0, seed, normal, after),
    ensures
        after.matrix@ == fresh.matrix@,
        after.base_z == fresh.base_z,
        after.projected(sliders, i, after.num_sliders as nat) == fresh.projected(
            sliders,
            i,
            fresh.num_sliders as nat,
        ),
{
    assert forall|j: int, k: int|
        0 <= j < after.num_sliders && 0 <= k < after.z_dim implies #[trigger] after.element(j, k)
        == fresh.element(j, k) by {
        if j == 0 {
            assert(fresh.z_dim <= fresh.num_sliders * fresh.z_dim) by (nonlinear_arith)
                requires
                    fresh.num_sliders > 0,
            ;
            assert(j * fresh.z_dim + k == k) by (nonlinear_arith)
                requires
                    j == 0,
            ;
            assert(is_normal(normal, seeded(seed), k, fresh.matrix[k]));
            assert(is_normal(normal, seeded(seed), k, after.element(0, k)));
        }
    }
    lemma_same_elements(after, fresh);
    projection_depends_on_its_sliders(
        after,
        fresh,
        sliders,
        sliders,
        i,
        fresh.num_sliders as nat,
    );
}

/// The same seed gives the same projection, as long as `normal` gives one number
/// for each pair of draws.
pub proof fn same_seed_gives_same_projection<F: Fn(u64, u64) -> Single>(
    normal: F,
    seed: u64,
    p: SliderProjection,
    q: SliderProjection,
)
    requires
        single_valued(normal),
        p.drawn_from(normal, seed),
        q.drawn_from(normal, seed),
        p.z_dim == q.z_dim,
        p.num_sliders == q.num_sliders,
    ensures
        p.matrix@ == q.matrix@,
        p.base_z@ == q.base_z@,
{
    assert forall|k: int| 0 <= k < p.matrix@.len() implies p.matrix@[k] == q.matrix@[k] by {
        assert(is_normal(normal, seeded(seed), k, p.matrix[k]));
        assert(is_normal(normal, seeded(seed), k, q.matrix[k]));
    }
    assert forall|k: int| 0 <= k < p.base_z@.len() implies p.base_z@[k] == q.base_z@[k] by {
        let j = p.z_dim * p.num_sliders + k;
        assert(is_normal(normal, seeded(seed), j, p.base_z[k]));
        assert(is_normal(normal, seeded(seed), j, q.base_z[k]));
    }
    assert(p.matrix@ =~= q.matrix@);
    assert(p.base_z@ =~= q.base_z@);
}

/// The bits of -1.
pub const MINUS_ONE: u32 = 0xbf80_0000;

proof fn lemma_slider_values()
    ensures
        Single::of_integer(127) == (Single { bits: SLIDER_TOP }),
        (Single { bits: TWO }).value() == 2 * pow2(149),
{
    let top = Single { bits: SLIDER_TOP };
    lemma2_to64();
    rounding::lemma_units(132, 0xfe_0000);
    lemma_pow2_adds(17, 132);
    rounding::lemma_rounded_exact(SLIDER_TOP as int, 1);
    rounding::lemma_units(127, 0x80_0000);
    lemma_pow2_adds(23, 127);
    lemma_pow2_adds(1, 149);
}

/// Slider positions run from -1 at 0 to 1 at 127, and rise with the value.
pub proof fn sliders_span_the_unit_range(low: u8, high: u8)
    requires
        low <= high <= 127,
    ensures
        normalized(0) == (Single { bits: MINUS_ONE }),
        normalized(127) == (Single { bits: ONE }),
        normalized(low).at_most(normalized(high)),
        (Single { bits: MINUS_ONE }).at_most(normalized(low)),
        normalized(high).at_most(Single { bits: ONE }),
{
    let top = Single { bits: SLIDER_TOP };
    let one = Single { bits: ONE };
    let two = Single { bits: TWO };
    let zero = Single { bits: 0 };
    lemma_slider_values();
    order::lemma_one();
    lemma_pow2_pos(149);
    assert(normalized(127) == one) by {
        order::self_quotient_is_one(top);
        order::product_commutes(one, two);
        order::product_with_one(two);
        order::lemma_opposite(one);
        order::exact_sum(two, one.opposite(), one);
    }
    assert(normalized(0) == (Single { bits: MINUS_ONE })) by {
        order::whole_numbers_are_exact(0);
        rounding::lemma_units_increase(0, top.magnitude());
        order::lemma_quotient(zero, top);
        order::lemma_rank_exact(zero, top.value());
        assert(Single::of_integer(0) == zero) by {
            if Single::of_integer(0).magnitude() > 0 {
                rounding::lemma_units_increase(0, Single::of_integer(0).magnitude());
            }
        }
        assert(zero.value() * pow2(149) == 0 && zero.value() * top.value() == 0)
            by (nonlinear_arith)
            requires
                zero.value() == 0,
        ;
        assert(zero.quotient(top) == zero);
        order::lemma_product(zero, two);
        order::lemma_rank_exact(zero, pow2(149) as int);
        assert(zero.value() * two.value() == 0) by (nonlinear_arith)
            requires
                zero.value() == 0,
        ;
        assert(zero.product(two) == zero);
        order::lemma_opposite(one);
        order::exact_sum(zero, one.opposite(), Single { bits: MINUS_ONE });
    }
    lemma_normalized_monotone(low, high);
    lemma_normalized_monotone(0, low);
    lemma_normalized_monotone(high, 127);
}

proof fn lemma_normalized_monotone(low: u8, high: u8)
    requires
        low <= high,
    ensures
        normalized(low).at_most(normalized(high)),
{
    let top = Single { bits: SLIDER_TOP };
    let one = Single { bits: ONE };
    let two = Single { bits: TWO };
    let a = Single::of_integer(low as int);
    let b = Single::of_integer(high as int);
    order::lemma_conversion(low as int);
    order::lemma_conversion(high as int);
    order::conversion_is_monotone(low as int, high as int);
    order::lemma_quotient(a, top);
    order::lemma_quotient(b, top);
    order::quotient_is_monotone(a, b, top);
    let c = a.quotient(top);
    let d = b.quotient(top);
    if c.finite() {
        order::lemma_product(c, two);
    }
    if d.finite() {
        order::lemma_product(d, two);
    }
    order::product_is_monotone(c, d, two);
    let e = c.product(two);
    let f = d.product(two);
    if e.finite() {
        order::lemma_sum(e, one.opposite());
    }
    if f.finite() {
        order::lemma_sum(f, one.opposite());
    }
    order::difference_is_monotone(e, f, one);
}

/// A slider position is off from `2 * val / 127 - 1` by at most six 2^24ths.
proof fn lemma_normalized_error(val: u8)
    requires
        val <= 127,
    ensures
        normalized(val).finite(),
        -ONE <= normalized(val).rank() <= ONE,
        0x100_0000 * abs(127 * normalized(val).value() - (2 * val - 127) * pow2(149)) <= 762
            * pow2(149),
{
    let u = pow2(149) as int;
    let top = Single { bits: SLIDER_TOP };
    let one = Single { bits: ONE };
    let two = Single { bits: TWO };
    let a = Single::of_integer(val as int);
    let v = val as int;
    lemma_slider_values();
    order::lemma_one();
    lemma_pow2_pos(149);
    lemma_pow2_adds(24, 125);
    lemma_pow2_pos(125);
    lemma2_to64();
    order::whole_numbers_are_exact(v);
    order::whole_numbers_are_exact(127);
    order::conversion_is_monotone(v, 127);
    sliders_span_the_unit_range(val, val);
    // val / 127
    let x = a.quotient(top);
    order::lemma_quotient_defined(a, top);
    order::self_quotient_is_one(top);
    order::quotient_is_monotone(a, top, top);
    order::lemma_quotient(a, top);
    assert(v * u * u >= 0) by (nonlinear_arith)
        requires
            v >= 0,
    ;
    rounding::lemma_rounded(a.value() * pow2(149), top.value());
    order::lemma_quotient_error(a, top);
    let xv = x.value();
    single::order_is_by_value(x, one);
    single::order_is_by_value(Single { bits: 0 }, x);
    assert(0x100_0000 * abs(127 * xv - v * u) <= 127 * u) by {
        let d = 127 * xv - v * u;
        assert(xv * (127 * u) - (v * u) * u == d * u) by (nonlinear_arith)
            requires
                d == 127 * xv - v * u,
        ;
        assert(0x100_0000 * d <= 127 * u && -0x100_0000 * d <= 127 * u) by (nonlinear_arith)
            requires
                (2 * (d * u) <= 127 * u && -2 * (d * u) <= 127 * u) || (0x100_0000 * (d * u) <= (v
                    * u) * u && -0x100_0000 * (d * u) <= (v * u) * u),
                0 <= v <= 127,
                u >= 0x100_0000,
        ;
    }
    // Twice that.
    let y = x.product(two);
    order::lemma_product(x, two);
    order::product_commutes(one, two);
    order::product_with_one(two);
    order::product_is_monotone(x, one, two);
    order::zero_stays_zero(Single { bits: 0 }, two);
    order::product_is_monotone(Single { bits: 0 }, x, two);
    order::lemma_product_error(x, two);
    let yv = y.value();
    assert(0x100_0000 * abs(yv - 2 * xv) <= 2 * xv) by {
        let d = yv - 2 * xv;
        assert(yv * u - xv * (2 * u) == d * u) by (nonlinear_arith)
            requires
                d == yv - 2 * xv,
        ;
        assert(xv * (2 * u) == (2 * xv) * u) by (nonlinear_arith);
        assert(0x100_0000 * d <= 2 * xv && -0x100_0000 * d <= 2 * xv) by (nonlinear_arith)
            requires
                (2 * (d * u) <= u && -2 * (d * u) <= u) || (0x100_0000 * (d * u) <= (2 * xv) * u
                    && -0x100_0000 * (d * u) <= (2 * xv) * u),
                xv >= 0,
                u > 0,
        ;
    }
    // Less 1.
    order::lemma_opposite(one);
    order::lemma_sum_error(y, one.opposite());
    let t = normalized(val).value();
    let c = v * u;
    assert((2 * v - 127) * u == 2 * c - 127 * u) by (nonlinear_arith)
        requires
            c == v * u,
    ;
    assert(0x100_0000 * abs(t - (yv - u)) <= abs(yv - u));
    assert(0 <= c <= 127 * u) by (nonlinear_arith)
        requires
            c == v * u,
            0 <= v <= 127,
            u > 0,
    ;
    assert(0x100_0000 * abs(127 * t - (2 * c - 127 * u)) <= 762 * u);
}

/// Opposite slider positions are opposite numbers, up to rounding.
proof fn lemma_opposite_positions(val: u8)
    requires
        val <= 127,
    ensures
        0x100_0000 * abs(normalized(val).value() + normalized((127 - val) as u8).value()) <= 12
            * pow2(149),
{
    let u = pow2(149) as int;
    let other = (127 - val) as u8;
    lemma_normalized_error(val);
    lemma_normalized_error(other);
    assert((2 * other - 127) * u == -((2 * val - 127) * u)) by (nonlinear_arith)
        requires
            other == 127 - val,
    ;
}

/// One slider and its mirror image move the result to opposite sides, up to rounding.
proof fn lemma_mirrored_step(t: int, r: int, e: int, p: int, q: int, bound: int, u: int)
    requires
        u > 0,
        abs(t) <= u,
        abs(r) <= u,
        abs(e) <= bound,
        0x100_0000 * abs(t + r) <= 12 * u,
        2 * abs(p * u - t * e) <= u || 0x100_0000 * abs(p * u - t * e) <= abs(t * e),
        2 * abs(q * u - r * e) <= u || 0x100_0000 * abs(q * u - r * e) <= abs(r * e),
    ensures
        0x80_0000 * abs(p + q) <= 7 * bound + 0x80_0000,
{
    let ub = u * bound;
    assert(abs(t * e) <= ub && abs(r * e) <= ub) by {
        assert(-ub <= t * e <= ub && -ub <= r * e <= ub) by (nonlinear_arith)
            requires
                ub == u * bound,
                -u <= t <= u,
                -u <= r <= u,
                -bound <= e <= bound,
        ;
    }
    assert(0x100_0000 * abs(p * u - t * e) <= ub + 0x80_0000 * u);
    assert(0x100_0000 * abs(q * u - r * e) <= ub + 0x80_0000 * u);
    let x = t + r;
    assert(x * e == t * e + r * e) by (nonlinear_arith)
        requires
            x == t + r,
    ;
    assert(-(12 * ub) <= 0x100_0000 * (x * e) <= 12 * ub) by (nonlinear_arith)
        requires
            -(12 * u) <= 0x100_0000 * x <= 12 * u,
            -bound <= e <= bound,
            ub == u * bound,
    ;
    let s = p + q;
    assert(s * u == p * u + q * u) by (nonlinear_arith)
        requires
            s == p + q,
    ;
    assert(-(14 * ub + 0x100_0000 * u) <= 0x100_0000 * (s * u) <= 14 * ub + 0x100_0000 * u);
    assert(0x100_0000 * s <= 14 * bound + 0x100_0000 && -0x100_0000 * s <= 14 * bound
        + 0x100_0000) by (nonlinear_arith)
        requires
            -(14 * ub + 0x100_0000 * u) <= 0x100_0000 * (s * u) <= 14 * ub + 0x100_0000 * u,
            ub == u * bound,
            u > 0,
    ;
}

/// The shares of one slider and of its mirror image in a result: neither is greater
/// than the direction's element, and they cancel, up to rounding.
proof fn lemma_mirrored_shares(val: u8, e: Single, bound: int)
    requires
        val <= 127,
        e.finite(),
        abs(e.value()) <= bound,
    ensures
        normalized(val).product(e).finite(),
        normalized((127 - val) as u8).product(e).finite(),
        abs(normalized(val).product(e).value()) <= bound,
        abs(normalized((127 - val) as u8).product(e).value()) <= bound,
        0x80_0000 * abs(
            normalized(val).product(e).value() + normalized((127 - val) as u8).product(e).value(),
        ) <= 7 * bound + 0x80_0000,
{
    let u = pow2(149) as int;
    let one = Single { bits: ONE };
    let t = normalized(val);
    let r = normalized((127 - val) as u8);
    lemma_pow2_pos(149);
    order::lemma_one();
    order::lemma_opposite(one);
    lemma_normalized_error(val);
    lemma_normalized_error((127 - val) as u8);
    lemma_opposite_positions(val);
    order::product_commutes(t, e);
    order::product_commutes(r, e);
    order::product_within(e, t);
    order::product_within(e, r);
    single::order_is_by_value(t, one);
    single::order_is_by_value(one.opposite(), t);
    single::order_is_by_value(r, one);
    single::order_is_by_value(one.opposite(), r);
    order::lemma_product_error(t, e);
    order::lemma_product_error(r, e);
    lemma_mirrored_step(
        t.value(),
        r.value(),
        e.value(),
        t.product(e).value(),
        r.product(e).value(),
        bound,
        u,
    );
}

/// A rounded sum is near the sum.
proof fn lemma_near(a: int, x: int, c: int, w: int, bound: int)
    requires
        abs(a) <= w,
        abs(x) <= bound,
        0x100_0000 * abs(c - (a + x)) <= abs(a + x),
        abs(c - (a + x)) <= abs(x),
    ensures
        -(w + bound) <= 0x100_0000 * (c - (a + x)) <= w + bound,
        abs(c) <= w + 2 * bound,
{
}

/// How far two mirrored results drift from twice the base with one more slider.
proof fn lemma_drift(k: int, bound: int, base: int, a: int, b: int, x: int, y: int, c: int, d: int)
    requires
        k >= 0,
        abs(a) <= (2 * k + 1) * bound,
        abs(b) <= (2 * k + 1) * bound,
        abs(x) <= bound,
        abs(y) <= bound,
        0x80_0000 * abs(x + y) <= 7 * bound + 0x80_0000,
        0x80_0000 * abs(a + b - 2 * base) <= (k * k + 8 * k) * bound + 0x80_0000 * k,
        0x100_0000 * abs(c - (a + x)) <= abs(a + x),
        abs(c - (a + x)) <= abs(x),
        0x100_0000 * abs(d - (b + y)) <= abs(b + y),
        abs(d - (b + y)) <= abs(y),
    ensures
        abs(c) <= (2 * k + 3) * bound,
        abs(d) <= (2 * k + 3) * bound,
        0x80_0000 * abs(c + d - 2 * base) <= ((k + 1) * (k + 1) + 8 * (k + 1)) * bound + 0x80_0000
            * (k + 1),
{
    let w = (2 * k + 1) * bound;
    let v = (k * k + 8 * k) * bound;
    assert((2 * k + 3) * bound == w + 2 * bound) by (nonlinear_arith)
        requires
            w == (2 * k + 1) * bound,
    ;
    assert(((k + 1) * (k + 1) + 8 * (k + 1)) * bound == v + 8 * bound + w) by (nonlinear_arith)
        requires
            w == (2 * k + 1) * bound,
            v == (k * k + 8 * k) * bound,
    ;
    lemma_near(a, x, c, w, bound);
    lemma_near(b, y, d, w, bound);
    let e = c - (a + x);
    let f = d - (b + y);
    let s = x + y;
    let t = a + b - 2 * base;
    assert(c + d - 2 * base == e + f + s + t);
    let g = w + bound;
    let h = 7 * bound + 0x80_0000;
    let m = v + 0x80_0000 * k;
    assert(-g <= 0x100_0000 * e <= g);
    assert(-g <= 0x100_0000 * f <= g);
    assert(-h <= 0x80_0000 * s <= h);
    assert(-m <= 0x80_0000 * t <= m);
    let r = e + f + s + t;
    assert(-(g + h + m) <= 0x80_0000 * r <= g + h + m) by (nonlinear_arith)
        requires
            r == e + f + s + t,
            -g <= 0x100_0000 * e <= g,
            -g <= 0x100_0000 * f <= g,
            -h <= 0x80_0000 * s <= h,
            -m <= 0x80_0000 * t <= m,
    ;
}

/// Mirroring every slider about the middle of its range mirrors the result about the
/// base, up to rounding: where the base and the directions are at most `bound` (in
/// units of `2^-149`, as all values here), element `i` of the two results together
/// is twice the base, to within `(n^2 + 8 n) * bound / 2^23` and one unit per slider.
/// Neither of them exceeds `(2 n + 1) * bound`.
pub proof fn mirrored_sliders_mirror_the_result(
    p: SliderProjection,
    sliders: Seq<u8>,
    mirrored: Seq<u8>,
    i: int,
    n: nat,
    bound: int,
)
    requires
        forall|j: int|
            0 <= j < n ==> (#[trigger] sliders[j]) <= 127 && mirrored[j] == 127 - sliders[j],
        p.base_z[i].finite(),
        abs(p.base_z[i].value()) <= bound,
        forall|j: int|
            0 <= j < n ==> (#[trigger] p.element(j, i)).finite() && abs(p.element(j, i).value())
                <= bound,
        p.projected(sliders, i, n).finite(),
        p.projected(mirrored, i, n).finite(),
    ensures
        0x80_0000 * abs(
            p.projected(sliders, i, n).value() + p.projected(mirrored, i, n).value() - 2
                * p.base_z[i].value(),
        ) <= (n * n + 8 * n) * bound + 0x80_0000 * n,
        abs(p.projected(sliders, i, n).value()) <= (2 * n + 1) * bound,
        abs(p.projected(mirrored, i, n).value()) <= (2 * n + 1) * bound,
    decreases n,
{
    if n == 0 {
        assert((n * n + 8 * n) * bound == 0 && (2 * n + 1) * bound == bound) by (nonlinear_arith)
            requires
                n == 0,
        ;
    } else {
        let k = (n - 1) as nat;
        let e = p.element(k as int, i);
        let a = p.projected(sliders, i, k);
        let b = p.projected(mirrored, i, k);
        let x = normalized(sliders[k as int]).product(e);
        let y = normalized(mirrored[k as int]).product(e);
        assert(sliders[k as int] <= 127 && mirrored[k as int] == 127 - sliders[k as int]);
        lemma_mirrored_shares(sliders[k as int], e, bound);
        assert(p.projected(sliders, i, n) == a.sum(x));
        assert(p.projected(mirrored, i, n) == b.sum(y));
        order::finite_sum_has_finite_terms(a, x);
        order::finite_sum_has_finite_terms(b, y);
        mirrored_sliders_mirror_the_result(p, sliders, mirrored, i, k, bound);
        order::lemma_sum_error(a, x);
        order::lemma_sum_error(b, y);
        lemma_drift(
            k as int,
            bound,
            p.base_z[i].value(),
            a.value(),
            b.value(),
            x.value(),
            y.value(),
            a.sum(x).value(),
            b.sum(y).value(),
        );
    }
}

/// Successive states of the generator.
pub open spec fn is_run(run: Seq<u64>) -> bool {
    forall|j: int| 0 <= j < run.len() - 1 ==> #[trigger] xorshift(run[j]) == run[j + 1]
}

/// State `j` of a run is `j` steps from the first.
pub proof fn lemma_run(run: Seq<u64>, j: nat)
    requires
        is_run(run),
        j < run.len(),
    ensures
        run[j as int] == steps(run[0], j),
    decreases j,
{
    if j > 0 {
        lemma_run(run, (j - 1) as nat);
        assert(xorshift(run[j - 1]) == run[j - 1 + 1]);
    }
}

/// The draws of each element of a projection that is drawn from a seed.
pub proof fn lemma_own_draws<F: Fn(u64, u64) -> Single>(
    normal: F,
    seed: u64,
    p: SliderProjection,
    run: Seq<u64>,
    i: int,
    k: int,
)
    requires
        p.drawn_from(normal, seed),
        run.len() > 2 * (p.num_sliders * p.z_dim + p.z_dim),
        run[0] == seeded(seed),
        is_run(run),
        0 <= i < p.num_sliders,
        0 <= k < p.z_dim,
    ensures
        call_ensures(
            normal,
            (run[2 * (i * p.z_dim + k) + 1] >> 11, run[2 * (i * p.z_dim + k) + 2] >> 11),
            p.matrix[i * p.z_dim + k],
        ),
        call_ensures(
            normal,
            (
                run[2 * (p.num_sliders * p.z_dim + k) + 1] >> 11,
                run[2 * (p.num_sliders * p.z_dim + k) + 2] >> 11,
            ),
            p.base_z[k],
        ),
{
    let (z_dim, num_sliders) = (p.z_dim as int, p.num_sliders as int);
    let at = i * z_dim + k;
    let behind = num_sliders * z_dim + k;
    assert(0 <= at < num_sliders * z_dim) by (nonlinear_arith)
        requires
            at == i * z_dim + k,
            0 <= i < num_sliders,
            0 <= k < z_dim,
    ;
    assert(behind == z_dim * num_sliders + k) by (nonlinear_arith)
        requires
            behind == num_sliders * z_dim + k,
    ;
    lemma_run(run, (2 * at + 1) as nat);
    lemma_run(run, (2 * at + 2) as nat);
    lemma_run(run, (2 * behind + 1) as nat);
    lemma_run(run, (2 * behind + 2) as nat);
    assert(is_normal(normal, seeded(seed), at, p.matrix[at]));
    assert(is_normal(normal, seeded(seed), behind, p.base_z[k]));
}

/// Every element of a new projection has two draws of its own. In the one run of the
/// generator from the seed, element `k` of the direction of slider `i` is made of the
/// draws `2 * (i * z_dim + k)` and the next, and element `k` of the base of those as far
/// behind all the directions. (Draw `j` is the upper 53 bits of state `j + 1`.)
pub proof fn every_element_has_its_own_draws<F: Fn(u64, u64) -> Single>(
    normal: F,
    z_dim: usize,
    num_sliders: usize,
    seed: u64,
    p: SliderProjection,
    rng: SimpleRng,
    run: Seq<u64>,
    i: int,
    k: int,
)
    requires
        call_ensures(SliderProjection::new::<F>, (z_dim, num_sliders, seed, &normal), p),
        call_ensures(SimpleRng::new, (seed,), rng),
        run.len() > 2 * (num_sliders * z_dim + z_dim),
        run[0] == rng.state,
        is_run(run),
        0 <= i < num_sliders,
        0 <= k < z_dim,
    ensures
        p.matrix.len() == num_sliders * z_dim,
        p.base_z.len() == z_dim,
        call_ensures(
            normal,
            (run[2 * (i * z_dim + k) + 1] >> 11, run[2 * (i * z_dim + k) + 2] >> 11),
            p.matrix[i * z_dim + k],
        ),
        call_ensures(
            normal,
            (
                run[2 * (num_sliders * z_dim + k) + 1] >> 11,
                run[2 * (num_sliders * z_dim + k) + 2] >> 11,
            ),
            p.base_z[k],
        ),
{
    lemma_own_draws(normal, seed, p, run, i, k);
}

/// A new direction is drawn from the beginning of the run of its own seed, and no other
/// element of the projection changes.
pub proof fn only_one_direction_is_drawn_anew<F: Fn(u64, u64) -> Single>(
    normal: F,
    p: &mut SliderProjection,
    slider_idx: usize,
    seed: u64,
    rng: SimpleRng,
    run: Seq<u64>,
    at: int,
)
    requires
        old(p).wf(),
        slider_idx < old(p).num_sliders,
        call_ensures(
            SliderProjection::rerandomize_slider::<F>,
            (p, slider_idx, seed, &normal),
            (),
        ),
        call_ensures(SimpleRng::new, (seed,), rng),
        run.len() > 2 * old(p).z_dim,
        run[0] == rng.state,
        is_run(run),
        0 <= at < old(p).matrix.len(),
    ensures
        final(p).z_dim == old(p).z_dim,
        final(p).num_sliders == old(p).num_sliders,
        final(p).base_z@ == old(p).base_z@,
        final(p).matrix.len() == old(p).matrix.len(),
        ({
            let k = at - slider_idx * old(p).z_dim;
            if 0 <= k < old(p).z_dim {
                call_ensures(
                    normal,
                    (run[2 * k + 1] >> 11, run[2 * k + 2] >> 11),
                    final(p).matrix[at],
                )
            } else {
                final(p).matrix[at] == old(p).matrix[at]
            }
        }),
{
    let z = old(p).z_dim as int;
    let n = old(p).num_sliders as int;
    let k = at - slider_idx * z;
    if 0 <= k < z {
        lemma_run(run, (2 * k + 1) as nat);
        lemma_run(run, (2 * k + 2) as nat);
        assert(is_normal(normal, seeded(seed), k, final(p).element(slider_idx as int, k)));
    } else {
        assert(z > 0) by (nonlinear_arith)
            requires
                0 <= at < n * z,
                z >= 0,
        ;
        let i = at / z;
        let j = at % z;
        vstd::arithmetic::div_mod::lemma_fundamental_div_mod(at, z);
        assert(0 <= i < n && i * z + j == at) by (nonlinear_arith)
            requires
                at == z * i + j,
                0 <= j < z,
                0 <= at < n * z,
        ;
        assert(i != slider_idx) by {
            if i == slider_idx {
                assert(i * z == slider_idx * z);
            }
        }
        assert(final(p).element(i, j) == old(p).element(i, j));
    }
}

/// How far the first `n` sliders move element `i` from the base, in 127ths: slider `j`
/// at `s` moves it by `(2 s - 127) / 127` of its direction.
pub open spec fn displacement(p: SliderProjection, sliders: Seq<u8>, i: int, n: nat) -> int
    decreases n,
{
    if n == 0 {
        0
    } else {
        displacement(p, sliders, i, (n - 1) as nat) + (2 * sliders[n - 1] - 127) * p.matrix[(n - 1)
            * p.z_dim + i].value()
    }
}

/// The share of one slider is the share `(2 s - 127) / 127` of its direction, up to
/// rounding.
proof fn lemma_share(val: u8, e: Single, bound: int)
    requires
        val <= 127,
        e.finite(),
        abs(e.value()) <= bound,
    ensures
        normalized(val).product(e).finite(),
        abs(normalized(val).product(e).value()) <= bound,
        0x100_0000 * abs(
            127 * normalized(val).product(e).value() - (2 * val - 127) * e.value(),
        ) <= 889 * bound + 127 * 0x80_0000,
{
    let u = pow2(149) as int;
    let t = normalized(val);
    let x = t.product(e);
    lemma_pow2_pos(149);
    lemma_normalized_error(val);
    order::product_commutes(t, e);
    order::product_within(e, t);
    order::lemma_product_error(t, e);
    let (tv, ev, xv) = (t.value(), e.value(), x.value());
    let one = Single { bits: ONE };
    order::lemma_one();
    order::lemma_opposite(one);
    single::order_is_by_value(t, one);
    single::order_is_by_value(one.opposite(), t);
    let m = 2 * val - 127;
    let ub = u * bound;
    assert(-ub <= tv * ev <= ub) by (nonlinear_arith)
        requires
            ub == u * bound,
            -u <= tv <= u,
            -bound <= ev <= bound,
    ;
    let d = xv * u - tv * ev;
    assert(-(ub + 0x80_0000 * u) <= 0x100_0000 * d <= ub + 0x80_0000 * u) by {
        assert(bound >= 0);
        assert(ub >= 0) by (nonlinear_arith)
            requires
                ub == u * bound,
                u > 0,
                bound >= 0,
        ;
    }
    let g = 127 * tv - m * u;
    assert(-(762 * ub) <= 0x100_0000 * (g * ev) <= 762 * ub) by (nonlinear_arith)
        requires
            -(762 * u) <= 0x100_0000 * g <= 762 * u,
            -bound <= ev <= bound,
            ub == u * bound,
    ;
    let r = 127 * xv - m * ev;
    assert(r * u == 127 * d + g * ev) by (nonlinear_arith)
        requires
            r == 127 * xv - m * ev,
            d == xv * u - tv * ev,
            g == 127 * tv - m * u,
    ;
    let limit = 889 * bound + 127 * 0x80_0000;
    let lu = 889 * ub + 127 * (0x80_0000 * u);
    assert(limit * u == lu) by (nonlinear_arith)
        requires
            limit == 889 * bound + 127 * 0x80_0000,
            ub == u * bound,
            lu == 889 * ub + 127 * (0x80_0000 * u),
    ;
    let ge = g * ev;
    let ru = r * u;
    assert(ru == 127 * d + ge);
    assert(-lu <= 0x100_0000 * ru <= lu);
    assert(-limit <= 0x100_0000 * r <= limit) by (nonlinear_arith)
        requires
            -lu <= 0x100_0000 * ru <= lu,
            ru == r * u,
            limit * u == lu,
            u > 0,
    ;
}

/// One more slider: how far the result may be off.
proof fn lemma_moved(k: int, bound: int, base: int, a: int, x: int, c: int, before: int, step: int)
    requires
        k >= 0,
        abs(a) <= (2 * k + 1) * bound,
        abs(x) <= bound,
        0x100_0000 * abs(127 * x - step) <= 889 * bound + 127 * 0x80_0000,
        0x100_0000 * abs(127 * a - 127 * base - before) <= 127 * ((k * k + 8 * k) * bound + k
            * 0x80_0000),
        0x100_0000 * abs(c - (a + x)) <= abs(a + x),
        abs(c - (a + x)) <= abs(x),
    ensures
        abs(c) <= (2 * k + 3) * bound,
        0x100_0000 * abs(127 * c - 127 * base - (before + step)) <= 127 * (((k + 1) * (k + 1) + 8
            * (k + 1)) * bound + (k + 1) * 0x80_0000),
{
    let w = (2 * k + 1) * bound;
    let v = (k * k + 8 * k) * bound;
    assert((2 * k + 3) * bound == w + 2 * bound) by (nonlinear_arith)
        requires
            w == (2 * k + 1) * bound,
    ;
    assert(((k + 1) * (k + 1) + 8 * (k + 1)) * bound == v + 8 * bound + w) by (nonlinear_arith)
        requires
            w == (2 * k + 1) * bound,
            v == (k * k + 8 * k) * bound,
    ;
    lemma_near(a, x, c, w, bound);
    let e = c - (a + x);
    let s = 127 * x - step;
    let t = 127 * a - 127 * base - before;
    let r = 127 * c - 127 * base - (before + step);
    assert(r == 127 * e + s + t);
    let g = w + bound;
    let h = 889 * bound + 127 * 0x80_0000;
    let m = 127 * (v + k * 0x80_0000);
    assert(-g <= 0x100_0000 * e <= g);
    assert(-h <= 0x100_0000 * s <= h);
    assert(-m <= 0x100_0000 * t <= m);
    assert(-(127 * g + h + m) <= 0x100_0000 * r <= 127 * g + h + m);
}

/// Each element of a result is the base, moved along every direction.
pub proof fn lemma_projected(p: SliderProjection, sliders: Seq<u8>, i: int, n: nat, bound: int)
    requires
        forall|j: int| 0 <= j < n ==> (#[trigger] sliders[j]) <= 127,
        p.base_z[i].finite(),
        abs(p.base_z[i].value()) <= bound,
        forall|j: int|
            0 <= j < n ==> (#[trigger] p.element(j, i)).finite() && abs(p.element(j, i).value())
                <= bound,
        (2 * n + 1) * bound < pow2(276),
    ensures
        p.projected(sliders, i, n).finite(),
        abs(p.projected(sliders, i, n).value()) <= (2 * n + 1) * bound,
        0x100_0000 * abs(
            127 * p.projected(sliders, i, n).value() - 127 * p.base_z[i].value() - displacement(
                p,
                sliders,
                i,
                n,
            ),
        ) <= 127 * ((n * n + 8 * n) * bound + n * 0x80_0000),
    decreases n,
{
    if n == 0 {
        assert((n * n + 8 * n) * bound == 0 && (2 * n + 1) * bound == bound) by (nonlinear_arith)
            requires
                n == 0,
        ;
    } else {
        let k = (n - 1) as nat;
        let e = p.element(k as int, i);
        let a = p.projected(sliders, i, k);
        let x = normalized(sliders[k as int]).product(e);
        assert(sliders[k as int] <= 127);
        assert(bound >= 0);
        assert((2 * n + 1) * bound == (2 * k + 1) * bound + 2 * bound) by (nonlinear_arith)
            requires
                n == k + 1,
        ;
        lemma_projected(p, sliders, i, k, bound);
        lemma_share(sliders[k as int], e, bound);
        order::operations_are_near(a, x);
        order::lemma_sum_error(a, x);
        lemma_moved(
            k as int,
            bound,
            p.base_z[i].value(),
            a.value(),
            x.value(),
            a.sum(x).value(),
            displacement(p, sliders, i, k),
            (2 * sliders[k as int] - 127) * e.value(),
        );
    }
}

/// Projecting is affine: each element of the result is the base, moved along the
/// direction of every slider by `(2 s - 127) / 127` of it, to within
/// `((n^2 + 8 n) * bound) / 2^24` and half a unit per slider (values in units of
/// `2^-149`), for a base and directions of at most `bound`.
pub proof fn projecting_moves_along_every_direction(
    p: SliderProjection,
    sliders: &[u8],
    z: Vec<Single>,
    i: int,
    bound: int,
)
    requires
        p.wf(),
        sliders@.len() >= p.num_sliders,
        call_ensures(SliderProjection::project, (&p, sliders), z),
        0 <= i < p.z_dim,
        forall|j: int| 0 <= j < p.num_sliders ==> (#[trigger] sliders@[j]) <= 127,
        forall|at: int|
            0 <= at < p.matrix.len() ==> (#[trigger] p.matrix[at]).finite() && abs(
                p.matrix[at].value(),
            ) <= bound,
        p.base_z[i].finite(),
        abs(p.base_z[i].value()) <= bound,
        (2 * p.num_sliders + 1) * bound < pow2(276),
    ensures
        z.len() == p.z_dim,
        z[i].finite(),
        ({
            let n = p.num_sliders as nat;
            0x100_0000 * abs(
                127 * z[i].value() - 127 * p.base_z[i].value() - displacement(p, sliders@, i, n),
            ) <= 127 * ((n * n + 8 * n) * bound + n * 0x80_0000)
        }),
{
    let n = p.num_sliders as nat;
    assert forall|j: int| 0 <= j < n implies (#[trigger] p.element(j, i)).finite() && abs(
        p.element(j, i).value(),
    ) <= bound by {
        let at = j * p.z_dim + i;
        assert(0 <= at < p.num_sliders * p.z_dim) by (nonlinear_arith)
            requires
                at == j * p.z_dim + i,
                0 <= j < p.num_sliders,
                0 <= i < p.z_dim,
        ;
        assert(p.matrix[at].finite());
    }
    lemma_projected(p, sliders@, i, n, bound);
    assert(z[i] == p.projected(sliders@, i, n));
}

/// The `k`-th pair of draws after `n` pairs is the pair `n + k`.
proof fn lemma_draws_shift(x: u64, n: nat, k: int)
    requires
        k >= 0,
    ensures
        draw(steps(x, 2 * n), 2 * k) == draw(x, 2 * (n + k)),
        draw(steps(x, 2 * n), 2 * k + 1) == draw(x, 2 * (n + k) + 1),
{
    lemma_steps_add(x, 2 * n, (2 * k + 1) as nat);
    lemma_steps_add(x, 2 * n, (2 * k + 2) as nat);
}

/// `n` standard normal numbers.
fn normals<F: Fn(u64, u64) -> Single>(rng: &mut SimpleRng, n: usize, normal: &F) -> (r: Vec<Single>)
    requires
        forall|u: u64, v: u64|
            u < 0x20_0000_0000_0000 && v < 0x20_0000_0000_0000 ==> call_requires(*normal, (u, v)),
    ensures
        r.len() == n,
        forall|k: int| 0 <= k < n ==> is_normal(*normal, old(rng).state, k, #[trigger] r[k]),
        final(rng).state == steps(old(rng).state, (2 * n) as nat),
{
    let mut r: Vec<Single> = Vec::new();
    let ghost x = rng.state;
    let mut i: usize = 0;
    while i < n
        invariant
            i <= n,
            r.len() == i,
            rng.state == steps(x, (2 * i) as nat),
            forall|u: u64, v: u64|
                u < 0x20_0000_0000_0000 && v < 0x20_0000_0000_0000 ==> call_requires(
                    *normal,
                    (u, v),
                ),
            forall|k: int| 0 <= k < i ==> is_normal(*normal, x, k, #[trigger] r[k]),
        decreases n - i,
    {
        let v = rng.normal(normal);
        proof {
            lemma_draws_shift(x, i as nat, 0);
            lemma_steps_add(x, (2 * i) as nat, 2);
        }
        r.push(v);
        i = i + 1;
    }
    r
}

/// A uniform draw is the upper 53 bits of the next state, and a normal one is what `normal`
/// makes of two of them in order.
pub proof fn draws_are_the_upper_bits_of_successive_states<F: Fn(u64, u64) -> Single>(
    normal: F,
    a: &mut SimpleRng,
    u: u64,
    b: &mut SimpleRng,
    v: Single,
)
    requires
        call_ensures(SimpleRng::uniform, (a,), u),
        call_ensures(SimpleRng::normal::<F>, (b, &normal), v),
    ensures
        final(a).state == xorshift(old(a).state),
        u * 0x800 <= final(a).state < (u + 1) * 0x800,
        call_ensures(
            normal,
            (xorshift(old(b).state) >> 11, xorshift(xorshift(old(b).state)) >> 11),
            v,
        ),
        final(b).state == xorshift(xorshift(old(b).state)),
{
    let x = xorshift(old(a).state);
    assert((x >> 11) * 0x800 <= x && x - (x >> 11) * 0x800 < 0x800) by (bit_vector);
    reveal_with_fuel(steps, 3);
    assert(is_normal(normal, old(b).state, 0, v));
}

/// An image has as many bytes as its square has pixels, times the channels, and a latent
/// vector has four bytes per element.
pub proof fn sizes_are_products_of_the_dimensions(info: GanInfo, image: usize, z: usize)
    requires
        call_ensures(GanInfo::image_bytes, (&info,), image),
        call_ensures(GanInfo::z_bytes, (&info,), z),
    ensures
        image == info.img_size * info.img_size * info.img_channels,
        z == 4 * info.z_dim,
{
}

/// The position of a slider, whatever its value, is `(2 s - 127) / 127`, up to rounding.
proof fn lemma_position(val: u8)
    ensures
        normalized(val).finite(),
        0x100_0000 * abs(127 * normalized(val).value() - (2 * val - 127) * pow2(149)) <= 2_000
            * pow2(149),
{
    let u = pow2(149) as int;
    let top = Single { bits: SLIDER_TOP };
    let one = Single { bits: ONE };
    let two = Single { bits: TWO };
    let a = Single::of_integer(val as int);
    let v = val as int;
    lemma_slider_values();
    order::lemma_one();
    lemma_pow2_pos(149);
    lemma2_to64();
    lemma_pow2_strictly_increases(32, 149);
    lemma_pow2_strictly_increases(160, 276);
    lemma_pow2_adds(11, 149);
    order::whole_numbers_are_exact(v);
    order::whole_numbers_are_exact(127);
    order::lemma_conversion(127);
    let x = a.quotient(top);
    let vu = v * u;
    assert(0 <= vu <= 255 * u) by (nonlinear_arith)
        requires
            vu == v * u,
            0 <= v <= 255,
            u > 0,
    ;
    order::operations_are_near(a, top);
    assert((127 * u) == 127 * u && vu * u == a.value() * u);
    order::lemma_near_reduced(x, vu, 127, u, a.value() * u, top.value());
    assert(x.finite());
    let xv = x.value();
    assert(-(255 * u) <= 0x100_0000 * (127 * xv - vu) <= 255 * u);
    let y = x.product(two);
    order::operations_are_near(x, two);
    assert(xv * (2 * u) == (2 * xv) * u) by (nonlinear_arith);
    order::lemma_near_scaled(y, xv * two.value(), 2 * xv, u);
    assert(y.finite());
    let yv = y.value();
    assert(-(5 * u) <= 0x100_0000 * (yv - 2 * xv) <= 5 * u);
    let t = normalized(val);
    order::operations_are_near(y, one);
    assert(t.finite());
    let tv = t.value();
    assert(-(5 * u) <= 0x100_0000 * (tv - (yv - u)) <= 5 * u);
    assert((2 * v - 127) * u == 2 * vu - 127 * u) by (nonlinear_arith)
        requires
            vu == v * u,
    ;
}

/// How a result comes about, for any slider values: from the base, the share of one slider
/// after the other is added, each the slider's position times its direction, and positions
/// are `(2 s - 127) / 127`; all up to rounding. Returns the sums so far, the positions and
/// the shares.
pub proof fn projecting_adds_share_by_share(
    p: SliderProjection,
    sliders: &[u8],
    z: Vec<Single>,
    i: int,
) -> (made: (Seq<Single>, Seq<Single>, Seq<Single>))
    requires
        p.wf(),
        sliders@.len() >= p.num_sliders,
        call_ensures(SliderProjection::project, (&p, sliders), z),
        0 <= i < p.z_dim,
    ensures
        made.0.len() == p.num_sliders + 1 && made.1.len() == p.num_sliders && made.2.len()
            == p.num_sliders,
        made.0[0] == p.base_z[i],
        made.0.last() == z[i],
        forall|j: int|
            0 <= j < p.num_sliders ==> {
                let e = p.matrix[j * p.z_dim + i];
                &&& (#[trigger] made.1[j]).finite()
                &&& 0x100_0000 * abs(
                    127 * made.1[j].value() - (2 * sliders@[j] - 127) * pow2(149),
                ) <= 2_000 * pow2(149)
                &&& e.finite() ==> order::near(
                    made.2[j],
                    made.1[j].value() * e.value(),
                    pow2(149) as int,
                )
                &&& made.0[j].finite() && made.2[j].finite() ==> order::near(
                    made.0[j + 1],
                    made.0[j].value() + made.2[j].value(),
                    1,
                )
                &&& made.0[j].nan() || e.nan() ==> made.0[j + 1].nan()
            },
{
    let n = p.num_sliders as nat;
    let sums = Seq::new(n + 1, |j: int| p.projected(sliders@, i, j as nat));
    let positions = Seq::new(n, |j: int| normalized(sliders@[j]));
    let shares = Seq::new(n, |j: int| normalized(sliders@[j]).product(p.element(j, i)));
    assert forall|j: int| 0 <= j < n implies {
        let e = p.matrix[j * p.z_dim + i];
        &&& (#[trigger] positions[j]).finite()
        &&& 0x100_0000 * abs(
            127 * positions[j].value() - (2 * sliders@[j] - 127) * pow2(149),
        ) <= 2_000 * pow2(149)
        &&& e.finite() ==> order::near(
            shares[j],
            positions[j].value() * e.value(),
            pow2(149) as int,
        )
        &&& sums[j].finite() && shares[j].finite() ==> order::near(
            sums[j + 1],
            sums[j].value() + shares[j].value(),
            1,
        )
        &&& sums[j].nan() || e.nan() ==> sums[j + 1].nan()
    } by {
        let e = p.element(j, i);
        lemma_position(sliders@[j]);
        if e.finite() {
            order::operations_are_near(positions[j], e);
        }
        if sums[j].finite() && shares[j].finite() {
            order::operations_are_near(sums[j], shares[j]);
        }
        assert(p.projected(sliders@, i, (j + 1) as nat) == sums[j].sum(shares[j]));
    }
    assert(z[i] == p.projected(sliders@, i, n));
    (sums, positions, shares)
}

} // verus!
