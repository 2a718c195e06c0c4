//! Content-aware image resizing by seam carving.
//!
//! An image is a flat, row-major, channel-interleaved RGB byte buffer with
//! its dimensions. Each resize step finds the connected vertical path of
//! pixels ("seam") with the least accumulated energy by dynamic programming
//! and removes it in place, shrinking the image one column at a time.

pub mod energy_function;
pub mod image;
pub mod seam;

pub use crate::image::Image;
