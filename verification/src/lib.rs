//! The core of N-Trancerator, a real-time audio spectrogram visualizer.
//!
//! Everything that can be decided or computed without a device, a display or a
//! clock lives here, with its contract: configuration, analysis windows and
//! sliding frames, downmixing, the analysis ring, decoding and playback state,
//! colormaps and axes, the history cursor and the display's events, monitor, device
//! and port selection, MIDI messages, and the projection into a generator's latent
//! space.
//!
//! Single-precision numbers are held as bit patterns ([`single::Single`]), with the
//! basic operations computed and proved here. What they do not cover (cosines,
//! logarithms, powers, the Fourier transform) is passed in by the caller as a
//! function, and contracts speak of the values which that function gives.

pub mod audio;
pub mod config;
pub mod dsp;
pub mod explorer;
pub mod gan;
pub mod greeting;
pub mod midi;
pub mod order;
pub mod render;
pub mod rounding;
pub mod single;
pub mod text;

pub use config::Config;
