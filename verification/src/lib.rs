//! Block-size detection and lossless downsampling for upscaled pixel art.
//!
//! Pixel art saved at a higher resolution shows each of its pixels as a
//! square block. [`detect_block_size`] finds the side of that block from the
//! lengths of the runs of equal colours in every row and column, and
//! [`downsample_image`] keeps one pixel of each block.

pub mod detect;
pub mod downsample;
pub mod gcd;
pub mod grid;
pub mod laws;
pub mod raster;
pub mod runs;

pub use detect::detect_block_size;
pub use downsample::{downsample_image, try_downsample_image};
pub use gcd::gcd;
