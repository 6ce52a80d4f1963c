//! A freehand gesture modelled as an ordered polyline of 2-D points, with a
//! verified geometric normalization pipeline (bounding box, scale, translate,
//! reflect, rotate), Ramer–Douglas–Peucker simplification, and an
//! anti-aliased rasterization onto a fixed 28-by-28 intensity grid.
//!
//! Coordinates and intensities are decimal fixed-point integers (`geom::SCALE`
//! units per coordinate unit), so every operation is exact integer arithmetic
//! and carries a proved contract.

pub mod codec;
pub mod drawing;
pub mod transform;
pub mod geom;
pub mod raster;
pub mod simplify;
