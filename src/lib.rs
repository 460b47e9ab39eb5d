//! The integer core of a small path tracer: texture images addressed by
//! pixel, the checker pattern's cell parity, the shape of a bounding volume
//! hierarchy built over primitives ordered by their box minima, and the
//! plain-text raster that a render is written as.

pub mod bvh;
pub mod ppm;
pub mod rtw_image;
pub mod rtweekend;
pub mod texture;
