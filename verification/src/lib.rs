//! The verified core of a Mandelbrot renderer.
//!
//! The library decides everything about the picture that is a matter of
//! whole numbers, and proves it with Verus:
//!
//! - [`pair`] reads arguments such as `640x480` or `-1.2,0.35`;
//! - [`escape`] runs the escape-time iteration;
//! - [`shade`] turns an escape time into a grey level;
//! - [`render`] fills a band of the image, pixel by pixel;
//! - [`bands`] cuts the image into bands for workers to render in parallel;
//! - [`cover`] proves that the bands share the image out exactly;
//! - [`assemble`] proves that rendering band by band gives the image that
//!   rendering in one piece gives.
//!
//! The arithmetic on complex numbers is the caller's: the functions here
//! take it as closures and state what they return in terms of what those
//! closures answer.

pub mod assemble;
pub mod bands;
pub mod cover;
pub mod escape;
pub mod pair;
pub mod render;
pub mod shade;
