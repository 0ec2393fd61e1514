//! Fourier series drawn as chains of rotating vectors.
//!
//! A signal, or a closed curve in the plane, is taken apart into its
//! frequencies and put together again from a band of them. Played back, every
//! frequency is a vector that turns at its own rate, and the chain of these
//! vectors traces the curve.
//!
//! - [`math`] is the transform: the coefficients of a signal, the signal
//!   rebuilt from a band, the power spectrum, single frequencies.
//! - [`animation`] is the playback: a position that advances with time, and
//!   what is drawn at each tick.
//! - [`terms`] is the arithmetic on indices behind both, and [`exact`] the
//!   numbers that they compute with.
//! - [`laws`] and [`inversion`] state what holds of every signal.
//! - [`residue`], [`complex7`] and [`gaussian`] are numbers without rounding.
pub mod animation;
pub mod complex7;
pub mod exact;
pub mod gaussian;
pub mod inversion;
pub mod laws;
pub mod math;
pub mod residue;
pub mod terms;

pub use crate::animation::{
    decrease_animation_speed, increase_animation_speed, play_pause_animation, stop_animation,
};
