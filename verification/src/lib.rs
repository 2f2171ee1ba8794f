//! Verified core of a stochastic Gross–Pitaevskii (SGPE) simulation of an
//! atomtronic quantum interference device.
//!
//! The numerical field evolution works on complex floating-point grids; this
//! crate holds the discrete logic around it: trap selection, the FFT mode
//! ordering of the wave-vector grid, the standard (row-major) layout used to
//! move columns in and out of a 2D transform, the classical-field projector
//! mask, the stopping rule of the time evolution, and the text layout of the
//! output files.

pub mod evolution;
pub mod k_space;
pub mod layout;
pub mod output;
pub mod projector;
pub mod trap;
