//! Photo-booth image effects on RGBA byte buffers.
pub mod binary32;
pub mod filters;
pub mod compositor;
pub mod window;
pub mod skin_mask;
pub mod text;
pub mod background;
pub mod hsl;
pub mod lut3d;
pub mod lut_laws;
