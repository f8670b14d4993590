//! A software rasterizer's integer core: segment clipping, Bresenham line
//! stepping, a frame buffer with viewport addressing and a depth test, and the
//! pixel-level helpers around them.

use vstd::prelude::*;

pub mod line;
pub mod renderer;
pub mod rgb_image;
pub mod texture;
pub mod util;

verus! {

} // verus!
