//! Blue-noise point sets on a wrapping rectangle.
//!
//! The sampler places points on an integer lattice so that no two of them lie
//! closer than a configured minimum distance, measured on the torus obtained
//! by gluing opposite edges of the rectangle. All geometry is exact integer
//! arithmetic, which makes the separation guarantee a theorem rather than a
//! tolerance.
//!
//! `noise` holds the sequence that callers pull points from, `sampler` the
//! state machine behind it, `replay` the outcome of a pull as a function of
//! the words it draws, `grid` and `domain` the acceleration structure,
//! `geometry` the distances on the torus, `candidate` the way from random
//! words to points, `dither` the use of threshold tiles, and `laws` what is
//! proved of all of them together.
pub mod candidate;
pub mod dither;
pub mod domain;
pub mod geometry;
pub mod grid;
pub mod laws;
pub mod noise;
pub mod random;
pub mod replay;
pub mod sampler;

pub use crate::domain::{ConfigError, Domain};
pub use crate::geometry::Point;
pub use crate::noise::WrappingBlueNoise;
pub use crate::sampler::{Phase, Sampler};
