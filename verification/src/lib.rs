//! Page images and page structure.
pub mod raster;
pub mod recon;
pub mod render;
