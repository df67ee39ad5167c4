//! Sliced optimal-transport color transfer on RGB rasters, in fixed-point
//! arithmetic.
//!
//! Each outer iteration projects the colors of the source and of the target
//! onto a batch of unit directions, couples the two projections rank by rank
//! (a stable sort of the pixel indices), averages the resulting per-pixel
//! displacements over the batch and adds them to the source, clamped to the
//! byte range. Directions are in units of `1 / DIR_ONE`, the step factor in
//! units of `1 / STEP_ONE`, displacements in units of `1 / DIR_ONE` of a color
//! level.

pub mod raster;
pub mod step;
pub mod direction;
pub mod projection;
pub mod coupling;
pub mod advection;
pub mod controller;
