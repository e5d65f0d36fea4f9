//! Playback-and-judgment core of a rhythm game.
//!
//! Given a precompiled chart (timed notes, hit-areas, visual shapes, effect
//! templates) and a stream of pointer input, the library advances a virtual
//! playback clock, decides which notes are hit or missed and how well,
//! maintains score, combo and accuracy, and produces a time-ordered queue of
//! visual shapes for rendering.
//!
//! All durations and instants are integer milliseconds, coordinates are
//! integer canvas units, and dimensionless ratios (scale factors, closeness
//! values, angular deviations) are fixed-point parts-per-million, so every
//! computation is exact and fully specified. The host is expected to read
//! the wall clock, drive audio and perform file I/O itself; it hands this
//! library plain values and receives plain values back.

pub mod chart;
pub mod effects;
pub mod error;
pub mod judge;
pub mod play;
pub mod score;
pub mod session;
pub mod timer;
