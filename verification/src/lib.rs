//! The integer side of a ray-casting renderer: where each pixel of the
//! raster lies in the output, and the plain-text image that the pixel values
//! are written as.
//!
//! Every function here is proved against its contract. Shading works on
//! real-valued vectors and hands this library whole numbers only.

pub mod decimal;
pub mod lines;
pub mod ppm;
pub mod raster;
