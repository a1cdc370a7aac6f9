//! Discrete core of a two-dimensional PIC/FLIP fluid solver on a staggered MAC grid:
//! cell classification, the spatial lookup that buckets particles by cell, particle
//! handles, neighbourhoods, solid masks, extrapolation wavefronts and the step driver's
//! decisions. Floating-point kernels run on top of these structures.
pub mod error;
pub mod grid;
pub mod particles;
pub mod extrapolation;
pub mod driver;
pub mod tools;
