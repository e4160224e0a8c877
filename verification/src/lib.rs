//! Error-diffusion dithering of 16-bit-per-channel raster images against a
//! small fixed palette.
//!
//! The pipeline decodes a `farbfeld` byte stream, loads a palette (from a
//! hex-encoded text or a built-in default), quantizes every pixel to its
//! perceptually nearest palette entry while diffusing the quantization error
//! to not-yet-visited neighbors (Floyd-Steinberg), and encodes the result
//! back into the same byte format.

pub mod codec;
pub mod color;
pub mod engine;
pub mod matcher;
pub mod palette;
pub mod pipeline;
