//! Pixel sorting: runs of pixels whose chosen colour metric lies in a range
//! are collected along a directional walk over the image, sorted by that
//! metric, and written back along the same walk.

pub mod ratio;
pub mod color;
pub mod error;
pub mod grid;
pub mod filter;
pub mod buffer;
pub mod spans;
pub mod sorter;
pub mod writer;
pub mod pipeline;
