//! Converts the paths of a vector-graphics document into evenly spaced
//! 2-D points and writes them out as decimal text, one `X Y` pair per line.
//!
//! This crate holds the verified part of the converter: the buffered point
//! sink that assembles and batches the output text, and the option scanner
//! that turns raw command-line words into a configuration. The geometric
//! passes (curve flattening, distance resampling, arc-length estimation)
//! work in double-precision arithmetic, which this library cannot hold;
//! they live in the surrounding application.

pub mod args;
pub mod sink;
