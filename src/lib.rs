//! Multi-resolution height field with a max-height pyramid laid out in
//! Morton order, and a hierarchical ray march over it.
//!
//! All quantities are fixed point with sixteen fractional bits: a height
//! sample, the height scale, a sampling coordinate and the ray parameter.
use vstd::prelude::*;

pub mod morton;
pub mod pyramid;
pub mod heights;
pub mod raymarch;

verus! {

} // verus!

pub use heights::{Heights, HeightsError, MAX_DIMENSION, ONE};
pub use morton::{morton_decode, morton_encode};
pub use raymarch::{Vec3, MAX_DIRECTION, MAX_ORIGIN, MAX_SAMPLE_COORD, MAX_STEP, MAX_TRAVEL};
