//! Building blocks for sampling a spiral whose heading follows a curvature
//! function of arc length.
//!
//! Sample points are whole ticks on a fixed grid of arc length: a sample
//! point is `from + i * step` for an index `i`, which keeps the points free
//! of accumulated drift. The integration state is a type parameter that the
//! library only carries; the single-step rule that advances it is supplied
//! by the caller.
pub mod arith;
pub mod progression;
pub mod integration;
pub mod spiral;
