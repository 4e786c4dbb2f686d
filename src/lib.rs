//! Verified building blocks of a pen-plotter renderer for parametric
//! surfaces: rasters and fields, contour chaining, the visibility split of
//! projected polylines, and the sign-change search that brackets a ray's
//! hit on a surface.

pub mod buffer;
pub mod duration_extras;
pub mod eq;
pub mod field;
pub mod geometries;
pub mod marching_squares;
pub mod paper;
pub mod resolution;
pub mod uv2xy;
