//! Julia-set rendering: a wavelength colour gradient, the escape-count
//! policy, per-row pixel rendering and an assembler that fills the raster.

pub mod color;
pub mod escape;
pub mod render;
pub mod raster;
pub mod frame;
