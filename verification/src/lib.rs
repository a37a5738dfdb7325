//! Spectral peak ranking for interval detection.
//!
//! A block of audio samples is turned into a power spectrum elsewhere; this
//! library takes that spectrum, keeps its lower half as the energy sequence,
//! finds the local maxima that clear a height threshold and keep a minimum
//! distance from each other, restricts them to the lower half of the energy
//! sequence and ranks them from the tallest down.
//!
//! Energies and thresholds are carried as IEEE-754 single-precision bit
//! patterns. The module `level` gives every pattern an integer that orders
//! the patterns as their numbers are ordered, and all contracts are stated
//! over those integers.

pub mod detect;
pub mod energy;
pub mod error;
pub mod length;
pub mod level;
pub mod peaks;
pub mod rank;
