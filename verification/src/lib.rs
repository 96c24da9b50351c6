//! Passive electrical components as typed physical quantities, and the
//! equivalent capacitance of components wired in series.
//!
//! Magnitudes are IEEE 754 binary64 numbers held by their 64-bit encodings;
//! the arithmetic on them is carried out on the encodings and proved to round
//! to nearest, ties to even.
pub mod binary64;
pub mod units;
pub mod circuits;
