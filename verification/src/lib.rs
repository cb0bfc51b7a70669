//! A verified core for a small numeric compute service.
//!
//! The service hands out LU factorizations of square matrices kept as text
//! files in a corpus directory.  Matrix entries are IEEE 754 binary64 values;
//! inside this library every entry is carried as its 64-bit pattern, and the
//! floating-point operations themselves are requested from the caller one at
//! a time, so that everything the library decides -- framing, shapes, the
//! factorization schedule, selection, and response assembly -- is verified.

pub mod codec;
pub mod config;
pub mod errors;
pub mod generator;
pub mod lu;
pub mod matrix;
pub mod numbers;
pub mod response;
pub mod select;
