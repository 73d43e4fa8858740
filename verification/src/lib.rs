//! Packed secret sharing over small binary fields: arithmetic in GF(2^w),
//! Lagrange and Reed-Solomon coefficient matrices, boolean circuits in the
//! Bristol-Fashion layout with block packing, and the sharing layer with
//! malicious-behavior detection on reconstruction.

pub mod circuit;
pub mod galois;
pub mod math;
pub mod matrix;
pub mod protocol;
pub mod sharing;
