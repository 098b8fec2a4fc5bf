//! Face detection around a fixed-shape neural detector: preparing the input
//! tensor, decoding the detector's score and box tensors into pixel
//! rectangles, and outlining them on the image.
//!
//! The detector works in IEEE 754 single precision. Here such numbers are
//! carried as their bit patterns and every operation on them is defined and
//! proved over exact integers, so that the rectangles are the ones that
//! single-precision arithmetic gives.

pub mod decode;
pub mod error;
pub mod pipeline;
pub mod prepare;
pub mod raster;
pub mod rounding;
pub mod single;
pub mod value;
