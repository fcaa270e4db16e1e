//! Image pixelation: replaces uniformly spaced square regions of a raster
//! image with their averaged color, producing a blocky mosaic while keeping
//! the image dimensions.

pub mod algorhytm;
pub mod cli;
pub mod error;
pub mod image_buf;

pub use algorhytm::BoxBlur;
pub use error::RunError;
pub use error::ScaleIssue;
pub use image_buf::ImageBuf;
