//! Configuration, defaults and validation.
use vstd::arithmetic::power2::*;
use vstd::math::*;
use vstd::prelude::*;

use crate::order;
use crate::rounding;
use crate::single;
use crate::single::{Single, TWO};

verus! {

/// Window function applied to each analysis frame before the FFT.
#[derive(Copy, Clone, Debug, PartialEq, Eq, Structural)]
pub enum WindowKind {
    Hann,
    Hamming,
    BlackmanHarris,
}

/// Source of audio samples.
#[derive(Copy, Clone, Debug, PartialEq, Eq, Structural)]
pub enum InputKind {
    /// Live capture device.
    Live,
    /// Decoded file.
    File,
}

/// Colormap applied to normalized dB.
#[derive(Copy, Clone, Debug, PartialEq, Eq, Structural)]
pub enum Colormap {
    Inferno,
    Magma,
    Viridis,
    Gray,
}

impl Colormap {
    /// The colormap after this one in the cycle.
    pub open spec fn successor(self) -> Colormap {
        match self {
            Colormap::Inferno => Colormap::Magma,
            Colormap::Magma => Colormap::Viridis,
            Colormap::Viridis => Colormap::Gray,
            Colormap::Gray => Colormap::Inferno,
        }
    }

    /// Cycle order for the `C` keyboard control.
    pub fn next(self) -> (r: Colormap)
        ensures
            r == self.successor(),
    {
        match self {
            Colormap::Inferno => Colormap::Magma,
            Colormap::Magma => Colormap::Viridis,
            Colormap::Viridis => Colormap::Gray,
            Colormap::Gray => Colormap::Inferno,
        }
    }
}

/// From every colormap, four steps of the cycle visit each of the four once and
/// end where they began.
pub proof fn colormap_cycle_visits_all(c: Colormap, d: Colormap)
    ensures
        c.successor().successor().successor().successor() == c,
        d == c || d == c.successor() || d == c.successor().successor() || d
            == c.successor().successor().successor(),
{
}

/// Four steps in a row visit four different colormaps and lead back.
pub proof fn cycling_visits_all_and_returns(
    a: Colormap,
    b: Colormap,
    c: Colormap,
    d: Colormap,
    e: Colormap,
)
    requires
        call_ensures(Colormap::next, (a,), b),
        call_ensures(Colormap::next, (b,), c),
        call_ensures(Colormap::next, (c,), d),
        call_ensures(Colormap::next, (d,), e),
    ensures
        e == a,
        a != b && a != c && a != d && b != c && b != d && c != d,
        a == Colormap::Inferno ==> b == Colormap::Magma && c == Colormap::Viridis && d
            == Colormap::Gray,
{
}

/// Configuration of the visualizer.
#[derive(Clone, Debug)]
pub struct Config {
    /// Source type.
    pub input: InputKind,
    /// Audio file path; needed for file input.
    pub file: Option<String>,
    /// Capture device for live input, by list index or a name substring
    /// (default: system default).
    pub device: Option<String>,
    /// List input devices and exit.
    pub list_devices: bool,
    /// File mode: visualize without playing audio.
    pub no_audio_out: bool,
    /// FFT size (power of two).
    pub fft_size: usize,
    /// Hop size in samples (default: half of the FFT size).
    pub hop: Option<usize>,
    /// Analysis window function.
    pub window: WindowKind,
    /// Lower dB bound mapped to the bottom of the colormap.
    pub db_floor: Single,
    /// Upper dB bound mapped to the top of the colormap.
    pub db_ceiling: Single,
    /// Lowest displayed frequency (Hz).
    pub freq_min: Single,
    /// Highest displayed frequency (Hz); default is Nyquist.
    pub freq_max: Option<Single>,
    /// Colormap.
    pub colormap: Colormap,
    /// Start in borderless fullscreen.
    pub fullscreen: bool,
    /// Output to target for fullscreen, by monitor name or index.
    pub monitor: Option<String>,
}

/// Errors surfaced while validating a [`Config`].
#[derive(Debug, PartialEq)]
pub enum ConfigError {
    FftSizeNotPow2(usize),
    HopOutOfRange { hop: usize, fft_size: usize },
    MissingFile,
    DbRange { floor: Single, ceiling: Single },
    FreqMinNonPositive(Single),
}

/// The bits of -100.
pub const MINUS_HUNDRED: u32 = 0xc2c8_0000;

/// The bits of 20.
pub const TWENTY: u32 = 0x41a0_0000;

impl Config {
    /// The configuration of an invocation without options.
    pub open spec fn is_default(self) -> bool {
        &&& self.input == InputKind::Live
        &&& self.file is None
        &&& self.device is None
        &&& !self.list_devices
        &&& !self.no_audio_out
        &&& self.fft_size == 2048
        &&& self.hop is None
        &&& self.window == WindowKind::Hann
        &&& self.db_floor.bits == MINUS_HUNDRED
        &&& self.db_ceiling.bits == 0
        &&& self.freq_min.bits == TWENTY
        &&& self.freq_max is None
        &&& self.colormap == Colormap::Inferno
        &&& !self.fullscreen
        &&& self.monitor is None
    }
}

impl Default for Config {
    /// Live input, 2048-point Hann frames with half overlap, -100 to 0 dB,
    /// from 20 Hz to Nyquist, inferno, windowed.
    fn default() -> (c: Config)
        ensures
            c.is_default(),
    {
        Config {
            input: InputKind::Live,
            file: None,
            device: None,
            list_devices: false,
            no_audio_out: false,
            fft_size: 2048,
            hop: None,
            window: WindowKind::Hann,
            db_floor: Single { bits: MINUS_HUNDRED },
            db_ceiling: Single { bits: 0 },
            freq_min: Single { bits: TWENTY },
            freq_max: None,
            colormap: Colormap::Inferno,
            fullscreen: false,
            monitor: None,
        }
    }
}

/// `n` is a power of two.
fn is_power_of_two(n: usize) -> (r: bool)
    ensures
        r == is_pow2(n as int),
{
    proof {
        reveal(is_pow2);
    }
    if n == 0 {
        return false;
    }
    let mut m: usize = n;
    while m % 2 == 0
        invariant
            m > 0,
            is_pow2(n as int) == is_pow2(m as int),
        decreases m,
    {
        proof {
            reveal(is_pow2);
        }
        m = m / 2;
    }
    m == 1
}

impl Config {
    /// The effective hop: the given one, or half of the FFT size.
    pub open spec fn hop_samples(self) -> int {
        match self.hop {
            Some(hop) => hop as int,
            None => (self.fft_size / 2) as int,
        }
    }

    /// What validation says: the first violated constraint, in the order of the
    /// options, or success.
    pub open spec fn verdict(self) -> Result<(), ConfigError> {
        if self.fft_size < 2 || !is_pow2(self.fft_size as int) {
            Err(ConfigError::FftSizeNotPow2(self.fft_size))
        } else if self.hop_samples() == 0 || self.hop_samples() > self.fft_size {
            Err(
                ConfigError::HopOutOfRange {
                    hop: self.hop_samples() as usize,
                    fft_size: self.fft_size,
                },
            )
        } else if self.input == InputKind::File && self.file is None && !self.list_devices {
            Err(ConfigError::MissingFile)
        } else if !self.db_floor.less(self.db_ceiling) {
            Err(ConfigError::DbRange { floor: self.db_floor, ceiling: self.db_ceiling })
        } else if !(Single { bits: 0 }).less(self.freq_min) {
            Err(ConfigError::FreqMinNonPositive(self.freq_min))
        } else {
            Ok(())
        }
    }

    /// Effective hop size, applying the `fft_size / 2` default.
    pub fn hop_size(&self) -> (r: usize)
        ensures
            r == self.hop_samples(),
    {
        match self.hop {
            Some(hop) => hop,
            None => self.fft_size / 2,
        }
    }

    /// Number of frequency bins produced by a real FFT of `fft_size`.
    pub fn num_bins(&self) -> (r: usize)
        ensures
            r == self.fft_size / 2 + 1,
    {
        self.fft_size / 2 + 1
    }

    /// The displayed maximum frequency: the given one, or Nyquist.
    pub open spec fn top_frequency(self, sample_rate: u32) -> Single {
        match self.freq_max {
            Some(f) => f,
            None => Single::of_integer(sample_rate as int).quotient(Single { bits: TWO }),
        }
    }

    /// Resolve the displayed max frequency, defaulting to Nyquist.
    pub fn effective_freq_max(&self, sample_rate: u32) -> (r: Single)
        ensures
            r == self.top_frequency(sample_rate),
    {
        match self.freq_max {
            Some(f) => f,
            None => Single::from_u64(sample_rate as u64).over(Single { bits: TWO }),
        }
    }

    /// Validate the constraints between fields.
    pub fn validate(&self) -> (r: Result<(), ConfigError>)
        ensures
            r == self.verdict(),
    {
        if self.fft_size < 2 || !is_power_of_two(self.fft_size) {
            return Err(ConfigError::FftSizeNotPow2(self.fft_size));
        }
        let hop = self.hop_size();
        if hop == 0 || hop > self.fft_size {
            return Err(ConfigError::HopOutOfRange { hop, fft_size: self.fft_size });
        }
        // Listing devices exits before a source is opened, so it needs no file.
        if self.input == InputKind::File && self.file.is_none() && !self.list_devices {
            return Err(ConfigError::MissingFile);
        }
        // An undefined bound is below nothing, so it is refused as well.
        if !self.db_floor.lt(self.db_ceiling) {
            return Err(
                ConfigError::DbRange { floor: self.db_floor, ceiling: self.db_ceiling },
            );
        }
        if !(Single { bits: 0 }).lt(self.freq_min) {
            return Err(ConfigError::FreqMinNonPositive(self.freq_min));
        }
        Ok(())
    }
}

/// What a valid configuration promises to the stages built from it: frames of at
/// least two samples, a hop that advances and skips nothing, a file where one is
/// to be opened, a floor below the ceiling, and a lowest frequency above zero.
pub proof fn valid_config_is_usable(c: Config)
    requires
        c.verdict() is Ok,
    ensures
        c.fft_size >= 2,
        is_pow2(c.fft_size as int),
        1 <= c.hop_samples() <= c.fft_size,
        c.input == InputKind::File && !c.list_devices ==> c.file is Some,
        c.db_floor.less(c.db_ceiling),
        (Single { bits: 0 }).less(c.freq_min),
{
}

/// Validation succeeds for the configurations that keep every rule, and otherwise
/// names the first rule that is broken, with the values that break it.
pub proof fn validation_names_the_first_broken_rule(c: Config, r: Result<(), ConfigError>)
    requires
        call_ensures(Config::validate, (&c,), r),
    ensures
        ({
            let size = c.fft_size as int;
            let hop = if c.hop is Some {
                c.hop->0 as int
            } else {
                size / 2
            };
            let size_kept = size >= 2 && is_pow2(size);
            let hop_kept = 1 <= hop <= size;
            let file_kept = c.input == InputKind::File ==> c.file is Some || c.list_devices;
            let window_kept = c.db_floor.less(c.db_ceiling);
            let axis_kept = !c.freq_min.nan() && c.freq_min.rank() > 0;
            match r {
                Ok(()) => size_kept && hop_kept && file_kept && window_kept && axis_kept,
                Err(ConfigError::FftSizeNotPow2(n)) => !size_kept && n == size,
                Err(ConfigError::HopOutOfRange { hop: h, fft_size }) => {
                    size_kept && !hop_kept && h == hop && fft_size == size
                },
                Err(ConfigError::MissingFile) => size_kept && hop_kept && !file_kept,
                Err(ConfigError::DbRange { floor, ceiling }) => {
                    &&& size_kept && hop_kept && file_kept && !window_kept
                    &&& floor == c.db_floor && ceiling == c.db_ceiling
                },
                Err(ConfigError::FreqMinNonPositive(f)) => {
                    &&& size_kept && hop_kept && file_kept && window_kept && !axis_kept
                    &&& f == c.freq_min
                },
            }
        }),
{
}

/// Half of a sample rate.
pub proof fn lemma_top_frequency(c: Config, sample_rate: u32)
    ensures
        c.freq_max is None ==> {
            let top = c.top_frequency(sample_rate);
            &&& top.finite()
            &&& sample_rate <= 0x100_0000 ==> 2 * top.value() == sample_rate * pow2(149)
            &&& 0x40_0000 * abs(2 * top.value() - sample_rate * pow2(149)) <= sample_rate
                * pow2(149)
        },
{
    if c.freq_max is None {
        let top = c.top_frequency(sample_rate);
        let u = pow2(149) as int;
        let rate = Single::of_integer(sample_rate as int);
        let two = Single { bits: TWO };
        lemma_pow2_pos(149);
        lemma2_to64();
        order::lemma_two();
        order::lemma_conversion_error(sample_rate as int);
        order::lemma_conversion(sample_rate as int);
        order::lemma_quotient(rate, two);
        let a = rate.value();
        let e = sample_rate * u;
        assert(e == 0 || e >= u) by (nonlinear_arith)
            requires
                e == sample_rate * u,
                u > 0,
        ;
        lemma_pow2_adds(24, 125);
        lemma_pow2_pos(125);
        // Half of a number does not exceed it.
        rounding::lemma_units_step(rate.magnitude());
        assert(a * u <= (a * 1) * (2 * u)) by (nonlinear_arith)
            requires
                a >= 0,
                u > 0,
        ;
        order::lemma_rank_exact(rate, 1);
        order::lemma_rank_exact(Single { bits: 0 }, 1);
        order::lemma_rank_monotone(a * u, 2 * u, a * 1, 1);
        assert(a * u >= 0) by (nonlinear_arith)
            requires
                a >= 0,
                u > 0,
        ;
        assert(0 * (2 * u) == 0 && (a * u) * 1 == a * u) by (nonlinear_arith);
        order::lemma_rank_monotone(0, 1, a * u, 2 * u);
        order::lemma_quotient_error(rate, two);
        let t = top.value();
        assert(t * (2 * u) - a * u == (2 * t - a) * u) by (nonlinear_arith);
        let d = 2 * t - a;
        assert(0x100_0000 * d <= a && -0x100_0000 * d <= a || -1 <= d <= 1) by (nonlinear_arith)
            requires
                2 * (d * u) <= 2 * u && -2 * (d * u) <= 2 * u || 0x100_0000 * (d * u) <= a * u
                    && -0x100_0000 * (d * u) <= a * u,
                u > 0,
        ;
        if sample_rate <= 0x100_0000 {
            let h = pow2(148) as int;
            order::whole_numbers_are_exact(sample_rate as int);
            lemma_pow2_unfold(149);
            let m = rounding::lemma_whole(sample_rate as int, 148);
            let half = Single::signed(false, m);
            order::lemma_rank_exact(half, 2 * u);
            assert(half.value() * (2 * u) == a * u && 2 * half.value() == a) by (nonlinear_arith)
                requires
                    half.value() == sample_rate * h,
                    a == sample_rate * u,
                    u == 2 * h,
            ;
            single::order_is_by_value(top, half);
            single::order_is_by_value(half, top);
        }
    }
}

/// Without a given maximum, the displayed maximum is half of the sample rate: exactly
/// for rates of up to 24 bits, and up to its 2^22nd part for the others. A given
/// maximum is displayed as it is.
pub proof fn displayed_maximum_is_half_the_rate(c: Config, sample_rate: u32, top: Single)
    requires
        call_ensures(Config::effective_freq_max, (&c, sample_rate), top),
    ensures
        c.freq_max is Some ==> top == c.freq_max->0,
        c.freq_max is None ==> {
            &&& top.finite()
            &&& sample_rate <= 0x100_0000 ==> 2 * top.value() == sample_rate * pow2(149)
            &&& 0x40_0000 * abs(2 * top.value() - sample_rate * pow2(149)) <= sample_rate
                * pow2(149)
        },
{
    lemma_top_frequency(c, sample_rate);
}

/// The hop is the given one or half of the FFT size (to the whole sample), and there is one
/// bin for each whole half of the FFT size and one more.
pub proof fn hops_and_bins_follow_the_size(c: Config, hop: usize, bins: usize)
    requires
        call_ensures(Config::hop_size, (&c,), hop),
        call_ensures(Config::num_bins, (&c,), bins),
    ensures
        c.hop is Some ==> hop == c.hop->0,
        c.hop is None ==> 2 * hop <= c.fft_size <= 2 * hop + 1,
        2 * (bins - 1) <= c.fft_size <= 2 * (bins - 1) + 1,
{
}

/// The bits of the default bounds stand for -100 and 0 dB and for 20 Hz.
pub proof fn default_bounds_have_their_values(c: Config)
    requires
        c.is_default(),
    ensures
        c.db_floor.finite() && c.db_floor.value() == -100 * pow2(149),
        c.db_ceiling.finite() && c.db_ceiling.value() == 0,
        c.freq_min.finite() && c.freq_min.value() == 20 * pow2(149),
{
    lemma2_to64();
    rounding::lemma_units(0, 0);
    rounding::lemma_units(132, 0xc8_0000);
    lemma_pow2_adds(17, 132);
    rounding::lemma_units(130, 0xa0_0000);
    lemma_pow2_adds(19, 130);
}

/// Halving a valid FFT size is itself a valid hop, so a configuration without an
/// explicit hop is never refused for its hop.
pub proof fn default_hop_is_in_range(c: Config)
    requires
        c.hop is None,
        c.fft_size >= 2,
    ensures
        1 <= c.hop_samples() <= c.fft_size,
{
}

/// The default configuration passes validation.
pub proof fn default_config_is_valid(c: Config)
    requires
        c.is_default(),
    ensures
        c.verdict() is Ok,
{
    reveal_with_fuel(is_pow2, 12);
}

} // verus!
