//! An in-memory RGB pixel buffer and a codec for the plain-text PPM ("P3")
//! image format.
//!
//! [`pixels::Pixels`] is the buffer; its content is modelled by
//! [`grid::Grid`]. [`ppm`] says what the text of an image is and what a byte
//! string decodes to; `Pixels::encode` and `Pixels::decode` compute both.
//! [`laws`] holds what is proved of them for every image.

pub mod color;
pub mod decode;
pub mod encode;
pub mod grid;
pub mod laws;
pub mod pixels;
pub mod ppm;
pub mod text;

pub use color::Color;
pub use pixels::{Iter, OutOfBounds, Pixels};
pub use ppm::DecodeError;
