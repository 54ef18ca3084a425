//! Rasterises simple shapes (fills, stripes, checkerboards, disks and
//! circle outlines) into a row-major buffer of packed 24-bit colors, and
//! encodes such a buffer as a raw pixel-map file.

pub mod circle;
pub mod pattern;
pub mod ppm;
