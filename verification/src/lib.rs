//! Data-parallel kernels for bulk byte and pixel processing: byte-frequency
//! histogramming (with an optional multi-worker variant), byte-pattern
//! search, RGBA-to-luminance color reduction, and word counting over text.
//!
//! Each kernel processes its input in fixed-width chunks, with a scalar
//! fallback for any remainder that does not fill a chunk, and carries a
//! contract stating exactly what it computes.

use vstd::prelude::*;

pub mod histogram;
pub mod luminance;
pub mod search;
pub mod words;

verus! {

/// Number of elements processed per conceptual vector operation, chosen once
/// per build target. Kernels only rely on it being a positive integer.
pub const LOGICAL_LANES: usize = 4;

/// Number of bytes that fit in one conceptual vector register.
pub const BYTE_LANES: usize = LOGICAL_LANES * 4;

} // verus!
