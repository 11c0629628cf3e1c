//! Monochrome frames: quantising RGB pixels to one bit each, a byte-exact
//! record for one frame, containers of many frames, and the scan that hands
//! the pixels of a frame to a renderer.
pub mod image;
pub mod convert;
pub mod codec;
pub mod compress;
pub mod container;
pub mod scan;
pub mod video;
