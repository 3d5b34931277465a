//! Colormap lookup tables.
//!
//! Each colormap is built as a 256-entry RGBA8 table. The perceptual maps
//! (inferno, magma, viridis) are stored as a handful of anchor colors, evenly
//! spaced over `[0, 1]`, and linearly interpolated.
use vstd::arithmetic::power2::*;
use vstd::math::*;
use vstd::prelude::*;

use crate::config::Colormap;
use crate::order;
use crate::rounding;
use crate::single;
use crate::single::{Single, HALF, ONE};

verus! {

/// Number of entries in a colormap table.
pub const LUT_LEN: usize = 256;

/// The bits of 7, the number of segments between the anchors.
pub const SEVEN: u32 = 0x40e0_0000;

/// The bits of 255.
pub const FULL: u32 = 0x437f_0000;

/// Anchor colors of inferno, from dark to light.
pub const INFERNO: [[u32; 3]; 8] = [
    [0x3ac4_9ba6, 0x3a03_126f, 0x3c63_bcd3], // 0.0015 0.0005 0.0139
    [0x3db2_2d0e, 0x3d34_3958, 0x3e65_6042], // 0.0870 0.0440 0.2240
    [0x3e84_1893, 0x3d1f_be77, 0x3ecf_df3b], // 0.2580 0.0390 0.4060
    [0x3ee6_e979, 0x3df9_db23, 0x3ed7_0a3d], // 0.4510 0.1220 0.4200
    [0x3f24_9ba6, 0x3e4c_cccd, 0x3eb5_3f7d], // 0.6430 0.2000 0.3540
    [0x3f53_b646, 0x3ea0_c49c, 0x3e69_78d5], // 0.8270 0.3140 0.2280
    [0x3f73_b646, 0x3f07_ef9e, 0x3dac_0831], // 0.9520 0.5310 0.0840
    [0x3f7c_ed91, 0x3f7f_7cee, 0x3f25_1eb8], // 0.9880 0.9980 0.6450
];

/// Anchor colors of magma, from dark to light.
pub const MAGMA: [[u32; 3]; 8] = [
    [0x3a83_126f, 0x0000_0000, 0x3c65_6042], // 0.0010 0.0000 0.0140
    [0x3d9f_be77, 0x3d5d_2f1b, 0x3e58_1062], // 0.0780 0.0540 0.2110
    [0x3e6d_9168, 0x3d71_a9fc, 0x3ee0_4189], // 0.2320 0.0590 0.4380
    [0x3ed1_eb85, 0x3dba_5e35, 0x3edd_b22d], // 0.4100 0.0910 0.4330
    [0x3f16_872b, 0x3e18_9375, 0x3ece_d917], // 0.5880 0.1490 0.4040
    [0x3f45_1eb8, 0x3e5c_28f6, 0x3ea8_f5c3], // 0.7700 0.2150 0.3300
    [0x3f6d_d2f2, 0x3ed2_f1aa, 0x3e14_7ae1], // 0.9290 0.4120 0.1450
    [0x3f7c_ac08, 0x3f7d_b22d, 0x3f3f_be77], // 0.9870 0.9910 0.7490
];

/// Anchor colors of viridis, from dark to light.
pub const VIRIDIS: [[u32; 3]; 8] = [
    [0x3e88_b439, 0x3ba3_d70a, 0x3ea8_72b0], // 0.2670 0.0050 0.3290
    [0x3e90_e560, 0x3e06_24dd, 0x3ee5_e354], // 0.2830 0.1310 0.4490
    [0x3e82_0c4a, 0x3e87_ae14, 0x3f07_ae14], // 0.2540 0.2650 0.5300
    [0x3e53_f7cf, 0x3ebe_76c9, 0x3f0d_9168], // 0.2070 0.3720 0.5530
    [0x3e27_ef9e, 0x3ef1_26e9, 0x3f0e_d917], // 0.1640 0.4710 0.5580
    [0x3e03_126f, 0x3f11_26e9, 0x3f0d_0e56], // 0.1280 0.5670 0.5510
    [0x3e88_b439, 0x3f3f_be77, 0x3ee1_cac1], // 0.2670 0.7490 0.4410
    [0x3f7e_353f, 0x3f67_ef9e, 0x3e13_74bc], // 0.9930 0.9060 0.1440
];

/// The anchor colors of a perceptual colormap; gray needs none.
pub open spec fn anchors(cm: Colormap) -> Option<[[u32; 3]; 8]> {
    match cm {
        Colormap::Inferno => Some(INFERNO),
        Colormap::Magma => Some(MAGMA),
        Colormap::Viridis => Some(VIRIDIS),
        Colormap::Gray => None,
    }
}

fn anchors_for(cm: Colormap) -> (r: Option<[[u32; 3]; 8]>)
    ensures
        r == anchors(cm),
{
    match cm {
        Colormap::Inferno => Some(INFERNO),
        Colormap::Magma => Some(MAGMA),
        Colormap::Viridis => Some(VIRIDIS),
        Colormap::Gray => None,
    }
}

/// A position in `[0, 1]`, in segments.
pub open spec fn scaled(t: Single) -> Single {
    t.clamped(Single { bits: 0 }, Single { bits: ONE }).product(Single { bits: SEVEN })
}

/// The segment that a position falls into; the end of the range belongs to the last one.
pub open spec fn segment(t: Single) -> int {
    scaled(t).whole_part(6)
}

/// Linear interpolation from `a` to `b`.
pub open spec fn blend(a: Single, b: Single, fraction: Single) -> Single {
    a.sum(b.difference(a).product(fraction))
}

/// Channel `c` of a colormap at `t`.
pub open spec fn channel(cm: Colormap, t: Single, c: int) -> Single {
    match anchors(cm) {
        None => t.clamped(Single { bits: 0 }, Single { bits: ONE }),
        Some(table) => {
            let i = segment(t);
            blend(
                Single { bits: table[i][c] },
                Single { bits: table[i + 1][c] },
                scaled(t).difference(Single::of_integer(i)),
            )
        },
    }
}

/// Sample a colormap at `t` in `[0, 1]`, returning linear RGB in `[0, 1]`.
pub fn sample(cm: Colormap, t: Single) -> (rgb: [Single; 3])
    ensures
        rgb[0] == channel(cm, t, 0),
        rgb[1] == channel(cm, t, 1),
        rgb[2] == channel(cm, t, 2),
{
    let t = t.clamp(Single { bits: 0 }, Single { bits: ONE });
    match anchors_for(cm) {
        None => [t, t, t],
        Some(table) => {
            let scaled = t.times(Single { bits: SEVEN });
            let i: usize = scaled.whole(6) as usize;
            let fraction = scaled.minus(Single::from_u64(i as u64));
            let a = table[i];
            let b = table[i + 1];
            [
                interpolate(Single { bits: a[0] }, Single { bits: b[0] }, fraction),
                interpolate(Single { bits: a[1] }, Single { bits: b[1] }, fraction),
                interpolate(Single { bits: a[2] }, Single { bits: b[2] }, fraction),
            ]
        },
    }
}

fn interpolate(a: Single, b: Single, fraction: Single) -> (r: Single)
    ensures
        r == blend(a, b, fraction),
{
    a.plus(b.minus(a).times(fraction))
}

/// A channel in `[0, 1]` as a byte, rounded.
pub open spec fn byte_of(c: Single) -> int {
    c.clamped(Single { bits: 0 }, Single { bits: ONE }).product(Single { bits: FULL }).sum(
        Single { bits: HALF },
    ).whole_part(255)
}

fn quantize(c: Single) -> (r: u8)
    ensures
        r == byte_of(c),
{
    let n: u32 = c.clamp(Single { bits: 0 }, Single { bits: ONE }).times(Single { bits: FULL }).plus(
        Single { bits: HALF },
    ).whole(255);
    n as u8
}

/// The position of table entry `i`.
pub open spec fn entry_position(i: int) -> Single {
    Single::of_integer(i).quotient(Single { bits: FULL })
}

/// Build the 256-entry RGBA8 table for `cm` (alpha fixed at 255), laid out as
/// `[r, g, b, a, r, g, b, a, ...]`.
pub fn lut_rgba8(cm: Colormap) -> (lut: Vec<u8>)
    ensures
        lut.len() == 4 * LUT_LEN,
        forall|i: int, c: int|
            0 <= i < LUT_LEN && 0 <= c < 3 ==> #[trigger] lut[4 * i + c] == byte_of(
                channel(cm, entry_position(i), c),
            ),
        forall|i: int| 0 <= i < LUT_LEN ==> #[trigger] lut[4 * i + 3] == 255,
{
    let mut lut: Vec<u8> = Vec::with_capacity(LUT_LEN * 4);
    let mut i: usize = 0;
    while i < LUT_LEN
        invariant
            i <= LUT_LEN,
            lut.len() == 4 * i,
            forall|j: int, c: int|
                0 <= j < i && 0 <= c < 3 ==> #[trigger] lut[4 * j + c] == byte_of(
                    channel(cm, entry_position(j), c),
                ),
            forall|j: int| 0 <= j < i ==> #[trigger] lut[4 * j + 3] == 255,
        decreases LUT_LEN - i,
    {
        let t = Single::from_u64(i as u64).over(Single { bits: FULL });
        let rgb = sample(cm, t);
        lut.push(quantize(rgb[0]));
        lut.push(quantize(rgb[1]));
        lut.push(quantize(rgb[2]));
        lut.push(255);
        i = i + 1;
    }
    lut
}

/// Positions beyond an end of `[0, 1]` have the color of that end.
pub proof fn positions_beyond_the_range_are_clamped(cm: Colormap, t: Single, c: int)
    ensures
        t.less(Single { bits: 0 }) ==> channel(cm, t, c) == channel(cm, Single { bits: 0 }, c),
        (Single { bits: ONE }).less(t) ==> channel(cm, t, c) == channel(
            cm,
            Single { bits: ONE },
            c,
        ),
{
}

/// Gray is neutral and linear: each channel is the position itself.
pub proof fn gray_is_the_position(t: Single, c: int)
    requires
        (Single { bits: 0 }).at_most(t),
        t.at_most(Single { bits: ONE }),
    ensures
        channel(Colormap::Gray, t, c) == t,
{
}

/// No anchor exceeds 0.998046875.
proof fn lemma_anchors(cm: Colormap, i: int, c: int)
    requires
        anchors(cm) is Some,
        0 <= i < 8,
        0 <= c < 3,
    ensures
        anchors(cm)->0[i][c] <= 0x3f7f_8000,
{
}

/// The place within a segment lies in `[0, 1]`.
proof fn lemma_fraction(t: Single)
    requires
        !t.nan(),
    ensures
        0 <= segment(t) <= 6,
        ({
            let f = scaled(t).difference(Single::of_integer(segment(t)));
            0 <= f.rank() <= ONE
        }),
        scaled(t).finite(),
        0 <= scaled(t).value() - segment(t) * pow2(149) <= pow2(149),
{
    let zero = Single { bits: 0 };
    let one = Single { bits: ONE };
    let seven = Single { bits: SEVEN };
    let q = t.clamped(zero, one);
    let x = scaled(t);
    let i = segment(t);
    let u = pow2(149) as int;
    lemma_pow2_pos(149);
    lemma2_to64();
    order::lemma_one();
    // The scaled position lies between 0 and 7.
    order::product_commutes(q, seven);
    order::product_with_fraction(seven, q);
    rounding::lemma_units(128, 0xe0_0000);
    lemma_pow2_adds(21, 128);
    single::order_is_by_value(zero, x);
    single::order_is_by_value(x, seven);
    assert(0 <= x.value() <= 7 * u);
    // Its whole part, held to 6, leaves at most 1.
    let w = x.value() / u;
    vstd::arithmetic::div_mod::lemma_fundamental_div_mod(x.value(), u);
    assert(w >= 0 && u * w <= x.value() < u * w + u) by (nonlinear_arith)
        requires
            x.value() == u * w + x.value() % u,
            0 <= x.value() % u < u,
            x.value() >= 0,
            u > 0,
    ;
    assert(i == if w > 6 { 6 } else { w }) by {
        if x.negative() {
            assert(x.magnitude() == 0);
            assert(w == 0) by (nonlinear_arith)
                requires
                    u * w <= 0,
                    w >= 0,
                    u > 0,
            ;
        }
    }
    order::whole_numbers_are_exact(i);
    let whole = Single::of_integer(i);
    assert(0 <= x.value() - i * u <= u) by (nonlinear_arith)
        requires
            u * w <= x.value() < u * w + u,
            x.value() <= 7 * u,
            i == if w > 6 { 6 } else { w },
            u > 0,
    ;
    order::lemma_opposite(whole);
    order::lemma_sum(x, whole.opposite());
    order::lemma_rank_exact(zero, 1);
    order::lemma_rank_exact(one, 1);
    order::lemma_rank_monotone(zero.value() * 1, 1, x.value() - i * u, 1);
    order::lemma_rank_monotone(x.value() - i * u, 1, one.value() * 1, 1);
}

/// The anchor colors in ten thousandths.
pub open spec fn published(cm: Colormap) -> Seq<Seq<int>> {
    match cm {
        Colormap::Inferno => seq![
            seq![15, 5, 139],
            seq![870, 440, 2240],
            seq![2580, 390, 4060],
            seq![4510, 1220, 4200],
            seq![6430, 2000, 3540],
            seq![8270, 3140, 2280],
            seq![9520, 5310, 840],
            seq![9880, 9980, 6450],
        ],
        Colormap::Magma => seq![
            seq![10, 0, 140],
            seq![780, 540, 2110],
            seq![2320, 590, 4380],
            seq![4100, 910, 4330],
            seq![5880, 1490, 4040],
            seq![7700, 2150, 3300],
            seq![9290, 4120, 1450],
            seq![9870, 9910, 7490],
        ],
        Colormap::Viridis => seq![
            seq![2670, 50, 3290],
            seq![2830, 1310, 4490],
            seq![2540, 2650, 5300],
            seq![2070, 3720, 5530],
            seq![1640, 4710, 5580],
            seq![1280, 5670, 5510],
            seq![2670, 7490, 4410],
            seq![9930, 9060, 1440],
        ],
        Colormap::Gray => Seq::empty(),
    }
}

/// `bits`, with the significand `s` in the binade `e`, are those of `decimal / 10000`, up
/// to the 2^24th part.
proof fn lemma_decimal(bits: u32, e: nat, s: int, decimal: int, p: int)
    requires
        bits == e * 0x80_0000 + s,
        0x80_0000 <= s <= 0x100_0000,
        e < 149,
        bits < 0x8000_0000,
        pow2((149 - e) as nat) == p,
        0x100_0000 * abs(10_000 * s - decimal * p) <= decimal * p,
    ensures
        0x100_0000 * abs(10_000 * (Single { bits }).value() - decimal * pow2(149)) <= decimal
            * pow2(149),
{
    let q = pow2(e) as int;
    lemma_pow2_pos(e);
    lemma_pow2_adds((149 - e) as nat, e);
    rounding::lemma_units(e, s);
    let x = 10_000 * s;
    let y = decimal * p;
    assert(x * q == 10_000 * (s * q) && y * q == decimal * (p * q) && 0x100_0000 * (x * q - y * q)
        <= y * q && 0x100_0000 * (y * q - x * q) <= y * q) by (nonlinear_arith)
        requires
            x == 10_000 * s,
            y == decimal * p,
            0x100_0000 * (x - y) <= y,
            0x100_0000 * (y - x) <= y,
            q > 0,
    ;
}

proof fn lemma_inferno(i: int, c: int)
    requires
        0 <= i < 8,
        0 <= c < 3,
    ensures
        0x100_0000 * abs(
            10_000 * (Single { bits: INFERNO[i][c] }).value() - published(Colormap::Inferno)[i][c]
                * pow2(149),
        ) <= published(Colormap::Inferno)[i][c] * pow2(149),
{
    lemma2_to64();
    lemma2_to64_rest();
    rounding::lemma_units(0, 0);
    if i == 0 {
        lemma_decimal(INFERNO[0][0], 116, 0xc49ba6, 15, 0x200000000);
        lemma_decimal(INFERNO[0][1], 115, 0x83126f, 5, 0x400000000);
        lemma_decimal(INFERNO[0][2], 119, 0xe3bcd3, 139, 0x40000000);
    }
    if i == 1 {
        lemma_decimal(INFERNO[1][0], 122, 0xb22d0e, 870, 0x8000000);
        lemma_decimal(INFERNO[1][1], 121, 0xb43958, 440, 0x10000000);
        lemma_decimal(INFERNO[1][2], 123, 0xe56042, 2240, 0x4000000);
    }
    if i == 2 {
        lemma_decimal(INFERNO[2][0], 124, 0x841893, 2580, 0x2000000);
        lemma_decimal(INFERNO[2][1], 121, 0x9fbe77, 390, 0x10000000);
        lemma_decimal(INFERNO[2][2], 124, 0xcfdf3b, 4060, 0x2000000);
    }
    if i == 3 {
        lemma_decimal(INFERNO[3][0], 124, 0xe6e979, 4510, 0x2000000);
        lemma_decimal(INFERNO[3][1], 122, 0xf9db23, 1220, 0x8000000);
        lemma_decimal(INFERNO[3][2], 124, 0xd70a3d, 4200, 0x2000000);
    }
    if i == 4 {
        lemma_decimal(INFERNO[4][0], 125, 0xa49ba6, 6430, 0x1000000);
        lemma_decimal(INFERNO[4][1], 123, 0xcccccd, 2000, 0x4000000);
        lemma_decimal(INFERNO[4][2], 124, 0xb53f7d, 3540, 0x2000000);
    }
    if i == 5 {
        lemma_decimal(INFERNO[5][0], 125, 0xd3b646, 8270, 0x1000000);
        lemma_decimal(INFERNO[5][1], 124, 0xa0c49c, 3140, 0x2000000);
        lemma_decimal(INFERNO[5][2], 123, 0xe978d5, 2280, 0x4000000);
    }
    if i == 6 {
        lemma_decimal(INFERNO[6][0], 125, 0xf3b646, 9520, 0x1000000);
        lemma_decimal(INFERNO[6][1], 125, 0x87ef9e, 5310, 0x1000000);
        lemma_decimal(INFERNO[6][2], 122, 0xac0831, 840, 0x8000000);
    }
    if i == 7 {
        lemma_decimal(INFERNO[7][0], 125, 0xfced91, 9880, 0x1000000);
        lemma_decimal(INFERNO[7][1], 125, 0xff7cee, 9980, 0x1000000);
        lemma_decimal(INFERNO[7][2], 125, 0xa51eb8, 6450, 0x1000000);
    }
}

proof fn lemma_magma(i: int, c: int)
    requires
        0 <= i < 8,
        0 <= c < 3,
    ensures
        0x100_0000 * abs(
            10_000 * (Single { bits: MAGMA[i][c] }).value() - published(Colormap::Magma)[i][c]
                * pow2(149),
        ) <= published(Colormap::Magma)[i][c] * pow2(149),
{
    lemma2_to64();
    lemma2_to64_rest();
    rounding::lemma_units(0, 0);
    if i == 0 && c == 1 {
        let none = published(Colormap::Magma)[0][1];
        assert(none * pow2(149) == 0) by (nonlinear_arith)
            requires
                none == 0,
        ;
    }
    if i == 0 {
        lemma_decimal(MAGMA[0][0], 116, 0x83126f, 10, 0x200000000);
        lemma_decimal(MAGMA[0][2], 119, 0xe56042, 140, 0x40000000);
    }
    if i == 1 {
        lemma_decimal(MAGMA[1][0], 122, 0x9fbe77, 780, 0x8000000);
        lemma_decimal(MAGMA[1][1], 121, 0xdd2f1b, 540, 0x10000000);
        lemma_decimal(MAGMA[1][2], 123, 0xd81062, 2110, 0x4000000);
    }
    if i == 2 {
        lemma_decimal(MAGMA[2][0], 123, 0xed9168, 2320, 0x4000000);
        lemma_decimal(MAGMA[2][1], 121, 0xf1a9fc, 590, 0x10000000);
        lemma_decimal(MAGMA[2][2], 124, 0xe04189, 4380, 0x2000000);
    }
    if i == 3 {
        lemma_decimal(MAGMA[3][0], 124, 0xd1eb85, 4100, 0x2000000);
        lemma_decimal(MAGMA[3][1], 122, 0xba5e35, 910, 0x8000000);
        lemma_decimal(MAGMA[3][2], 124, 0xddb22d, 4330, 0x2000000);
    }
    if i == 4 {
        lemma_decimal(MAGMA[4][0], 125, 0x96872b, 5880, 0x1000000);
        lemma_decimal(MAGMA[4][1], 123, 0x989375, 1490, 0x4000000);
        lemma_decimal(MAGMA[4][2], 124, 0xced917, 4040, 0x2000000);
    }
    if i == 5 {
        lemma_decimal(MAGMA[5][0], 125, 0xc51eb8, 7700, 0x1000000);
        lemma_decimal(MAGMA[5][1], 123, 0xdc28f6, 2150, 0x4000000);
        lemma_decimal(MAGMA[5][2], 124, 0xa8f5c3, 3300, 0x2000000);
    }
    if i == 6 {
        lemma_decimal(MAGMA[6][0], 125, 0xedd2f2, 9290, 0x1000000);
        lemma_decimal(MAGMA[6][1], 124, 0xd2f1aa, 4120, 0x2000000);
        lemma_decimal(MAGMA[6][2], 123, 0x947ae1, 1450, 0x4000000);
    }
    if i == 7 {
        lemma_decimal(MAGMA[7][0], 125, 0xfcac08, 9870, 0x1000000);
        lemma_decimal(MAGMA[7][1], 125, 0xfdb22d, 9910, 0x1000000);
        lemma_decimal(MAGMA[7][2], 125, 0xbfbe77, 7490, 0x1000000);
    }
}

proof fn lemma_viridis(i: int, c: int)
    requires
        0 <= i < 8,
        0 <= c < 3,
    ensures
        0x100_0000 * abs(
            10_000 * (Single { bits: VIRIDIS[i][c] }).value() - published(Colormap::Viridis)[i][c]
                * pow2(149),
        ) <= published(Colormap::Viridis)[i][c] * pow2(149),
{
    lemma2_to64();
    lemma2_to64_rest();
    rounding::lemma_units(0, 0);
    if i == 0 {
        lemma_decimal(VIRIDIS[0][0], 124, 0x88b439, 2670, 0x2000000);
        lemma_decimal(VIRIDIS[0][1], 118, 0xa3d70a, 50, 0x80000000);
        lemma_decimal(VIRIDIS[0][2], 124, 0xa872b0, 3290, 0x2000000);
    }
    if i == 1 {
        lemma_decimal(VIRIDIS[1][0], 124, 0x90e560, 2830, 0x2000000);
        lemma_decimal(VIRIDIS[1][1], 123, 0x8624dd, 1310, 0x4000000);
        lemma_decimal(VIRIDIS[1][2], 124, 0xe5e354, 4490, 0x2000000);
    }
    if i == 2 {
        lemma_decimal(VIRIDIS[2][0], 124, 0x820c4a, 2540, 0x2000000);
        lemma_decimal(VIRIDIS[2][1], 124, 0x87ae14, 2650, 0x2000000);
        lemma_decimal(VIRIDIS[2][2], 125, 0x87ae14, 5300, 0x1000000);
    }
    if i == 3 {
        lemma_decimal(VIRIDIS[3][0], 123, 0xd3f7cf, 2070, 0x4000000);
        lemma_decimal(VIRIDIS[3][1], 124, 0xbe76c9, 3720, 0x2000000);
        lemma_decimal(VIRIDIS[3][2], 125, 0x8d9168, 5530, 0x1000000);
    }
    if i == 4 {
        lemma_decimal(VIRIDIS[4][0], 123, 0xa7ef9e, 1640, 0x4000000);
        lemma_decimal(VIRIDIS[4][1], 124, 0xf126e9, 4710, 0x2000000);
        lemma_decimal(VIRIDIS[4][2], 125, 0x8ed917, 5580, 0x1000000);
    }
    if i == 5 {
        lemma_decimal(VIRIDIS[5][0], 123, 0x83126f, 1280, 0x4000000);
        lemma_decimal(VIRIDIS[5][1], 125, 0x9126e9, 5670, 0x1000000);
        lemma_decimal(VIRIDIS[5][2], 125, 0x8d0e56, 5510, 0x1000000);
    }
    if i == 6 {
        lemma_decimal(VIRIDIS[6][0], 124, 0x88b439, 2670, 0x2000000);
        lemma_decimal(VIRIDIS[6][1], 125, 0xbfbe77, 7490, 0x1000000);
        lemma_decimal(VIRIDIS[6][2], 124, 0xe1cac1, 4410, 0x2000000);
    }
    if i == 7 {
        lemma_decimal(VIRIDIS[7][0], 125, 0xfe353f, 9930, 0x1000000);
        lemma_decimal(VIRIDIS[7][1], 125, 0xe7ef9e, 9060, 0x1000000);
        lemma_decimal(VIRIDIS[7][2], 123, 0x9374bc, 1440, 0x4000000);
    }
}

/// The anchors are the published colors, each up to its 2^24th part.
pub proof fn anchors_are_the_published_colors(cm: Colormap, i: int, c: int)
    requires
        cm != Colormap::Gray,
        0 <= i < 8,
        0 <= c < 3,
    ensures
        anchors(cm) is Some,
        0x100_0000 * abs(
            10_000 * (Single { bits: anchors(cm)->0[i][c] }).value() - published(cm)[i][c] * pow2(
                149,
            ),
        ) <= published(cm)[i][c] * pow2(149),
{
    match cm {
        Colormap::Inferno => lemma_inferno(i, c),
        Colormap::Magma => lemma_magma(i, c),
        Colormap::Viridis => lemma_viridis(i, c),
        Colormap::Gray => {},
    }
}

/// How the errors of an interpolation add up.
proof fn lemma_blend_errors(
    u: int,
    a: int,
    b: int,
    t: int,
    iu: int,
    s: int,
    f: int,
    d: int,
    x: int,
    r: int,
)
    requires
        u >= 0x100_0000,
        0 <= a <= u,
        0 <= b <= u,
        0 <= s - iu <= u,
        0 <= f <= u,
        0x100_0000 * abs(s - 7 * t) <= 7 * u,
        0x100_0000 * abs(f - (s - iu)) <= u,
        0x100_0000 * abs(d - (b - a)) <= u,
        2 * abs(x * u - d * f) <= u || 0x100_0000 * abs(x * u - d * f) <= abs(d * f),
        abs(x) <= abs(d),
        0x100_0000 * abs(r - (a + x)) <= abs(a + x),
    ensures
        0x10_0000 * abs(r * u - (a * u + (b - a) * (7 * t - iu))) <= u * u,
{
    let uu = u * u;
    let g = b - a;
    assert(-(2 * u) <= d <= 2 * u);
    let df = d * f;
    assert(-(2 * uu) <= df <= 2 * uu && 0x80_0000 * u <= uu) by (nonlinear_arith)
        requires
            df == d * f,
            -(2 * u) <= d <= 2 * u,
            0 <= f <= u,
            uu == u * u,
            u >= 0x100_0000,
    ;
    let e1 = x * u - df;
    assert(-(2 * uu) <= 0x100_0000 * e1 <= 2 * uu);
    let e2 = r - (a + x);
    let e2u = e2 * u;
    assert(-(3 * u) <= 0x100_0000 * e2 <= 3 * u);
    assert(-(3 * uu) <= 0x100_0000 * e2u <= 3 * uu) by (nonlinear_arith)
        requires
            e2u == e2 * u,
            -(3 * u) <= 0x100_0000 * e2 <= 3 * u,
            uu == u * u,
            u > 0,
    ;
    let e3 = d - g;
    let e3f = e3 * f;
    assert(-uu <= 0x100_0000 * e3f <= uu) by (nonlinear_arith)
        requires
            e3f == e3 * f,
            -u <= 0x100_0000 * e3 <= u,
            0 <= f <= u,
            uu == u * u,
    ;
    let e4 = f - (7 * t - iu);
    let ge4 = g * e4;
    assert(-(8 * u) <= 0x100_0000 * e4 <= 8 * u);
    assert(-(8 * uu) <= 0x100_0000 * ge4 <= 8 * uu) by (nonlinear_arith)
        requires
            ge4 == g * e4,
            -u <= g <= u,
            -(8 * u) <= 0x100_0000 * e4 <= 8 * u,
            uu == u * u,
    ;
    let z = r * u - (a * u + g * (7 * t - iu));
    assert(z == e2u + e1 + e3f + ge4) by (nonlinear_arith)
        requires
            z == r * u - (a * u + g * (7 * t - iu)),
            e2u == e2 * u,
            e2 == r - (a + x),
            e1 == x * u - df,
            df == d * f,
            e3f == e3 * f,
            e3 == d - g,
            ge4 == g * e4,
            e4 == f - (7 * t - iu),
    ;
    assert(-uu <= 0x10_0000 * z <= uu);
}

/// Between two anchors, a color is interpolated linearly: in segment `i` (which is
/// returned) of the seven, with `i <= 7 t <= i + 1`, channel `c` is
/// `A + (B - A) * (7 t - i)` for the anchors `A` and `B` at its ends. This up to
/// rounding, with values in units of `2^-149`.
pub proof fn colors_lie_on_the_line_between_anchors(
    cm: Colormap,
    t: Single,
    rgb: [Single; 3],
    c: int,
) -> (i: int)
    requires
        call_ensures(sample, (cm, t), rgb),
        t.finite(),
        0 <= t.rank() <= ONE,
        0 <= c < 3,
    ensures
        cm == Colormap::Gray ==> rgb[c] == t,
        cm != Colormap::Gray ==> {
            let u = pow2(149);
            let a = (Single { bits: anchors(cm)->0[i][c] }).value();
            let b = (Single { bits: anchors(cm)->0[i + 1][c] }).value();
            &&& 0 <= i <= 6
            &&& 0x10_0000 * (i * u - 7 * t.value()) <= u
            &&& 0x10_0000 * (7 * t.value() - (i + 1) * u) <= u
            &&& rgb[c].finite()
            &&& 0x10_0000 * abs(
                rgb[c].value() * u - (a * u + (b - a) * (7 * t.value() - i * u)),
            ) <= u * u
        },
{
    let u = pow2(149) as int;
    assert(rgb[c] == channel(cm, t, c));
    if cm == Colormap::Gray {
        0
    } else {
        let i = segment(t);
        let s = scaled(t);
        let a = Single { bits: anchors(cm)->0[i][c] };
        let b = Single { bits: anchors(cm)->0[i + 1][c] };
        let f = s.difference(Single::of_integer(i));
        lemma_scaled(t);
        lemma_fraction(t);
        lemma_anchors(cm, i, c);
        lemma_anchors(cm, i + 1, c);
        colors_stay_in_unit_range(cm, t, c);
        lemma_blend(a, b, f);
        assert((i + 1) * u == i * u + u) by (nonlinear_arith);
        let d = b.difference(a);
        lemma_blend_errors(
            u,
            a.value(),
            b.value(),
            t.value(),
            i * u,
            s.value(),
            f.value(),
            d.value(),
            d.product(f).value(),
            rgb[c].value(),
        );
        i
    }
}

/// A position in segments is seven times the position, and the place within the segment is
/// what is left of it.
proof fn lemma_scaled(t: Single)
    requires
        t.finite(),
        0 <= t.rank() <= ONE,
    ensures
        pow2(149) >= 0x100_0000,
        0x100_0000 * abs(scaled(t).value() - 7 * t.value()) <= 7 * pow2(149),
        0x100_0000 * abs(
            scaled(t).difference(Single::of_integer(segment(t))).value() - (scaled(t).value()
                - segment(t) * pow2(149)),
        ) <= pow2(149),
{
    let u = pow2(149) as int;
    let zero = Single { bits: 0 };
    let one = Single { bits: ONE };
    let seven = Single { bits: SEVEN };
    let i = segment(t);
    let s = scaled(t);
    lemma_pow2_pos(149);
    lemma2_to64();
    lemma_pow2_strictly_increases(24, 149);
    order::lemma_one();
    rounding::lemma_units(0, 0);
    lemma_fraction(t);
    single::order_is_by_value(zero, t);
    single::order_is_by_value(t, one);
    rounding::lemma_units(128, 0xe0_0000);
    lemma_pow2_adds(21, 128);
    let tv = t.value();
    order::operations_are_near(t, seven);
    assert(tv * (7 * u) == (7 * tv) * u) by (nonlinear_arith);
    order::lemma_near_scaled(s, tv * seven.value(), 7 * tv, u);
    order::whole_numbers_are_exact(i);
    order::operations_are_near(s, Single::of_integer(i));
}

/// The steps of an interpolation, each up to rounding.
proof fn lemma_blend(a: Single, b: Single, f: Single)
    requires
        0 <= a.rank() <= ONE,
        0 <= b.rank() <= ONE,
        0 <= f.rank() <= ONE,
        blend(a, b, f).finite(),
    ensures
        ({
            let u = pow2(149) as int;
            let d = b.difference(a);
            let x = d.product(f);
            let r = blend(a, b, f);
            &&& 0 <= a.value() <= u && 0 <= b.value() <= u && 0 <= f.value() <= u
            &&& 0x100_0000 * abs(d.value() - (b.value() - a.value())) <= u
            &&& {
                ||| 2 * abs(x.value() * u - d.value() * f.value()) <= u
                ||| 0x100_0000 * abs(x.value() * u - d.value() * f.value()) <= abs(
                    d.value() * f.value(),
                )
            }
            &&& abs(x.value()) <= abs(d.value())
            &&& 0x100_0000 * abs(r.value() - (a.value() + x.value())) <= abs(
                a.value() + x.value(),
            )
        }),
{
    let zero = Single { bits: 0 };
    let one = Single { bits: ONE };
    let d = b.difference(a);
    let x = d.product(f);
    lemma_pow2_pos(149);
    order::lemma_one();
    rounding::lemma_units(0, 0);
    single::order_is_by_value(zero, a);
    single::order_is_by_value(a, one);
    single::order_is_by_value(zero, b);
    single::order_is_by_value(b, one);
    single::order_is_by_value(zero, f);
    single::order_is_by_value(f, one);
    order::lemma_unit_difference(a, b);
    order::operations_are_near(b, a);
    order::product_within(d, f);
    order::operations_are_near(d, f);
    order::lemma_sum_error(a, x);
}

/// Entry `i` of a table is the color at `i / 255` (the position is returned), in bytes:
/// each is 255 times the channel, rounded to the nearest whole number (with values in
/// units of `2^-149`), and the alpha is full.
pub proof fn tables_hold_the_colors_in_bytes(cm: Colormap, lut: Vec<u8>, i: int, c: int) -> (t:
    Single)
    requires
        call_ensures(lut_rgba8, (cm,), lut),
        0 <= i < 256,
        0 <= c < 3,
    ensures
        lut.len() == 1024,
        lut[4 * i + 3] == 255,
        order::near(t, i * pow2(149), 255),
        channel(cm, t, c).finite(),
        0x2000 * abs(2 * (255 * channel(cm, t, c).value()) - 2 * (lut[4 * i + c] * pow2(149)))
            <= 0x2001 * pow2(149),
{
    let u = pow2(149) as int;
    let t = entry_position(i);
    let full = Single { bits: FULL };
    let half = Single { bits: HALF };
    let zero = Single { bits: 0 };
    let one = Single { bits: ONE };
    lemma_pow2_pos(149);
    lemma2_to64();
    lemma_pow2_strictly_increases(24, 149);
    lemma_pow2_strictly_increases(158, 276);
    lemma_pow2_adds(9, 149);
    order::lemma_one();
    order::lemma_half();
    rounding::lemma_units(0, 0);
    rounding::lemma_units(133, 0xff_0000);
    lemma_pow2_adds(16, 133);
    let number = Single::of_integer(i);
    order::whole_numbers_are_exact(i);
    order::operations_are_near(number, full);
    order::lemma_quotient(number, full);
    order::lemma_near_reduced(t, i * u, 255, u, number.value() * u, full.value());
    colors_stay_in_unit_range(cm, t, c);
    let ch = channel(cm, t, c);
    single::order_is_by_value(zero, ch);
    single::order_is_by_value(ch, one);
    let v = ch.value();
    let y = ch.product(full);
    order::operations_are_near(ch, full);
    assert(v * (255 * u) == (255 * v) * u) by (nonlinear_arith);
    order::lemma_near_scaled(y, v * full.value(), 255 * v, u);
    let z = y.sum(half);
    order::operations_are_near(y, half);
    let w = z.value() / u;
    vstd::arithmetic::div_mod::lemma_fundamental_div_mod(z.value(), u);
    assert(u * w <= z.value() < u * w + u);
    assert(lut[4 * i + c] == byte_of(ch));
    assert(z.value() > 0 && z.value() < 256 * u);
    assert(0 <= w <= 255) by (nonlinear_arith)
        requires
            u * w <= z.value() < u * w + u,
            0 < z.value() < 256 * u,
            u > 0,
    ;
    assert(lut[4 * i + c] == w);
    assert(w * u == u * w) by (nonlinear_arith);
    t
}

/// Every color lies in `[0, 1]`.
pub proof fn colors_stay_in_unit_range(cm: Colormap, t: Single, c: int)
    requires
        !t.nan(),
        0 <= c < 3,
    ensures
        (Single { bits: 0 }).at_most(channel(cm, t, c)),
        channel(cm, t, c).at_most(Single { bits: ONE }),
{
    if anchors(cm) is Some {
        let zero = Single { bits: 0 };
        let one = Single { bits: ONE };
        let i = segment(t);
        lemma_fraction(t);
        lemma_anchors(cm, i, c);
        lemma_anchors(cm, i + 1, c);
        let a = Single { bits: anchors(cm)->0[i][c] };
        let b = Single { bits: anchors(cm)->0[i + 1][c] };
        let f = scaled(t).difference(Single::of_integer(i));
        let d = b.difference(a);
        let p = d.product(f);
        order::lemma_one();
        order::lemma_unit_difference(a, b);
        order::product_with_fraction(d, f);
        // The greatest anchor keeps a distance of 2^-9 from 1.
        let top = Single { bits: 0x3f7f_8000 };
        rounding::lemma_units(125, 0xff_8000);
        lemma2_to64();
        lemma_pow2_adds(24, 125);
        lemma_pow2_pos(125);
        single::order_is_by_value(zero, a);
        single::order_is_by_value(zero, b);
        single::order_is_by_value(a, top);
        single::order_is_by_value(b, top);
        single::order_is_by_value(d, p);
        single::order_is_by_value(p, d);
        single::order_is_by_value(zero, p);
        single::order_is_by_value(p, zero);
        single::order_is_by_value(zero, d);
        single::order_is_by_value(d, zero);
        assert(0 <= a.value() + p.value() <= one.value());
        order::lemma_sum(a, p);
        order::lemma_rank_exact(zero, 1);
        order::lemma_rank_exact(one, 1);
        order::lemma_rank_monotone(zero.value() * 1, 1, a.value() + p.value(), 1);
        order::lemma_rank_monotone(a.value() + p.value(), 1, one.value() * 1, 1);
    }
}

/// The dark end of a perceptual colormap is its first anchor.
pub proof fn dark_end_is_the_first_anchor(cm: Colormap, c: int)
    requires
        anchors(cm) is Some,
        0 <= c < 3,
    ensures
        channel(cm, Single { bits: 0 }, c) == (Single { bits: anchors(cm)->0[0][c] }),
{
    let zero = Single { bits: 0 };
    let seven = Single { bits: SEVEN };
    let u = pow2(149) as int;
    lemma_pow2_pos(149);
    lemma_anchors(cm, 0, c);
    lemma_anchors(cm, 1, c);
    let a = Single { bits: anchors(cm)->0[0][c] };
    let b = Single { bits: anchors(cm)->0[1][c] };
    assert(zero.product(seven) == zero) by {
        order::lemma_product(zero, seven);
        order::lemma_rank_exact(zero, u);
        assert(zero.value() * seven.value() == zero.value() * u) by (nonlinear_arith)
            requires
                zero.value() == 0,
        ;
    }
    assert(segment(zero) == 0) by (nonlinear_arith)
        requires
            segment(zero) == zero.whole_part(6),
            zero.value() == 0,
            u == pow2(149),
            u > 0,
            zero.whole_part(6) == 0int / u,
    ;
    order::whole_numbers_are_exact(0);
    let whole = Single::of_integer(0);
    if whole.magnitude() > 0 {
        rounding::lemma_units_increase(0, whole.magnitude());
    }
    order::self_difference_is_zero(zero);
    order::lemma_unit_difference(a, b);
    let d = b.difference(a);
    let p = d.product(zero);
    assert(p.rank() == 0) by {
        order::lemma_product(d, zero);
        order::lemma_rank_exact(zero, u);
        assert(d.value() * zero.value() == zero.value() * u) by (nonlinear_arith)
            requires
                zero.value() == 0,
        ;
    }
    if a.magnitude() > 0 {
        rounding::lemma_units_increase(0, a.magnitude());
        order::exact_sum(a, p, a);
    }
}

/// Going from `a` to `b` by their rounded difference ends at `b` or next to it, when
/// the difference is off by no more than the gap below `b`.
proof fn lemma_rejoined(a: Single, b: Single)
    requires
        0 <= a.rank() <= ONE,
        1 <= b.rank() < ONE,
        ({
            let m = b.rank();
            let d = b.difference(a);
            &&& d.finite()
            &&& abs(d.value() - (b.value() - a.value())) <= rounding::units(m) - rounding::units(
                m - 1,
            )
        }),
    ensures
        b.rank() - 1 <= a.sum(b.difference(a)).rank() <= b.rank() + 1,
{
    let m = b.rank();
    let d = b.difference(a);
    let lower = Single::signed(false, m - 1);
    let upper = Single::signed(false, m + 1);
    rounding::lemma_gaps_grow(m);
    order::lemma_sum(a, d);
    order::lemma_rank_exact(lower, 1);
    order::lemma_rank_exact(upper, 1);
    order::lemma_rank_monotone(lower.value() * 1, 1, a.value() + d.value(), 1);
    order::lemma_rank_monotone(a.value() + d.value(), 1, upper.value() * 1, 1);
}

/// The difference to a lesser number is off by no more than the gap below the greater.
proof fn lemma_rising_difference(a: Single, b: Single)
    requires
        0 <= a.rank() <= b.rank(),
        1 <= b.rank() < ONE,
    ensures
        b.difference(a).finite(),
        abs(b.difference(a).value() - (b.value() - a.value())) <= rounding::units(b.rank())
            - rounding::units(b.rank() - 1),
{
    order::lemma_unit_difference(a, b);
    order::lemma_opposite(a);
    order::lemma_sum_error(b, a.opposite());
    single::order_is_by_value(a, b);
    single::order_is_by_value(Single { bits: 0 }, a);
    rounding::lemma_gap_below(b.rank());
}

/// The light end of a perceptual colormap is its last anchor, or a neighbour of it:
/// no channel is off by more than one unit in the last place.
pub proof fn light_end_is_the_last_anchor(cm: Colormap, c: int)
    requires
        anchors(cm) is Some,
        0 <= c < 3,
    ensures
        ({
            let last = anchors(cm)->0[7][c] as int;
            last - 1 <= channel(cm, Single { bits: ONE }, c).rank() <= last + 1
        }),
{
    let zero = Single { bits: 0 };
    let one = Single { bits: ONE };
    let seven = Single { bits: SEVEN };
    let six = Single::of_integer(6);
    let u = pow2(149) as int;
    lemma_pow2_pos(149);
    lemma2_to64();
    order::lemma_one();
    lemma_anchors(cm, 6, c);
    lemma_anchors(cm, 7, c);
    let a = Single { bits: anchors(cm)->0[6][c] };
    let b = Single { bits: anchors(cm)->0[7][c] };
    // The last segment, at its end.
    order::product_commutes(one, seven);
    order::product_with_one(seven);
    rounding::lemma_units(128, 0xe0_0000);
    lemma_pow2_adds(21, 128);
    assert(seven.value() == 7 * u);
    assert(seven.value() / u == 7) by (nonlinear_arith)
        requires
            seven.value() == 7 * u,
            u > 0,
    ;
    assert(segment(one) == 6);
    order::whole_numbers_are_exact(6);
    order::lemma_opposite(six);
    order::exact_sum(seven, six.opposite(), one);
    let d = b.difference(a);
    order::lemma_unit_difference(a, b);
    order::product_with_one(d);
    assert(channel(cm, one, c) == a.sum(d));
    if a.rank() <= b.rank() {
        lemma_rising_difference(a, b);
    } else {
        // The blue of viridis falls, by less than one half.
        assert(a.bits == 0x3ee1_cac1 && b.bits == 0x3e13_74bc);
        let exact = b.value() - a.value();
        rounding::lemma_units(123, 0x93_74bc);
        rounding::lemma_units(123, 0x93_74bb);
        assert(0x93_74bc * pow2(123) - 0x93_74bb * pow2(123) == pow2(123)) by (nonlinear_arith);
        lemma_pow2_unfold(124);
        single::order_is_by_value(b, a);
        order::lemma_opposite(a);
        order::lemma_sum(b, a.opposite());
        order::lemma_rank_exact(a.opposite(), 1);
        single::order_is_by_value(zero, b);
        order::lemma_rank_monotone(a.opposite().value() * 1, 1, exact, 1);
        rounding::lemma_rounded(-exact, 1);
        rounding::lemma_error_below_binade(-exact, 124);
    }
    lemma_rejoined(a, b);
}

} // verus!
