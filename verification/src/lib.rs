//! The core of a small raster paint program: a fixed-size canvas, drawing
//! tools, flood fill, crop, and an undo history of rectangular pre-images.
//!
//! Everything here works on whole pixels. Screen coordinates, the window and
//! the sampling of curves belong to the program around this library.

pub mod bbox;
pub mod canvas;
pub mod color;
pub mod crop;
pub mod disc;
pub mod effects;
pub mod fill;
pub mod input;
pub mod laws;
pub mod line;
pub mod paint;
pub mod patch;
pub mod state;
pub mod stroke;
pub mod terms;
