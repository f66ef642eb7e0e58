//! Text-to-layout library: bitmaps of grid cells, dummy fill, and the
//! geometry of GDSII boundaries built from them.

pub mod bitmap;
pub mod config;
pub mod fill;
pub mod gds_out;
pub mod layout;
pub mod raster;
pub mod png_out;
pub mod canvas;
pub mod fonts;
pub mod text_render;
