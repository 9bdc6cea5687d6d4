//! Pixel-sorting effects: ranking criteria that reduce a pixel to a key,
//! strategies that reorder a pixel buffer by such a key, and the plan of
//! outputs that a batch run produces for each image.

pub mod pixel;
pub mod buffer;
pub mod sort;
pub mod job;
