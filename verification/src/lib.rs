//! A thin-lens camera for ray tracing, in fixed-point arithmetic.
//!
//! Every quantity is an integer, and contracts are stated over mathematical
//! integers, so each result is pinned down exactly, rounding included.
//! Callers hand in Q16.16 numbers; the axes of the camera have 30 fraction
//! bits, and the viewport and the rays 40, so that rounding stays below two
//! parts in 10^8.
//!
//! - `fixed`: truncating division and integer square roots.
//! - `vector`: three-component vectors and their normalization.
//! - `disk`: points of the unit disk and the sampler that draws them.
//! - `frame`: the axes of the camera, and the proof that they are
//!   orthonormal, right-handed and square to the line of sight.
//! - `camera`: the camera, its construction and its rays.

pub mod camera;
pub mod disk;
pub mod fixed;
pub mod frame;
pub mod vector;
