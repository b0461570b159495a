//! A scratch-card mask painter: a square single-channel raster whose samples are
//! revealed (set to 255) by filled-circle brush strokes driven by pointer input.
use vstd::prelude::*;

pub mod model;
pub mod mask;
pub mod input;
pub mod laws;







pub use input::{PointerInput, UvPoint, BRUSH_RADIUS, UV_ONE};
pub use mask::{DirtyRegion, MaskBuffer, MAX_SIZE};
