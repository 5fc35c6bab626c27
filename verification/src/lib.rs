//! MagiFrame: the image logic behind a picture frame that redraws itself.
//!
//! The library holds the pixel logic of the frame's server: tracing the
//! connected lines of an edge mask, ordering them, planning the frames of the
//! drawing animation, and the steps that turn a generated picture into the
//! dithered bitmap the e-paper shows.

pub mod ai;
pub mod animation;
pub mod config;
pub mod image_service;
pub mod imaging;
pub mod lines;
pub mod lines_laws;
pub mod raster;
pub mod state;
