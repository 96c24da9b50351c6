//! IEEE 754 binary64 numbers, handled through their 64-bit encodings.
pub mod format;
pub mod rounding;
pub mod encode;
pub mod arithmetic;
pub mod laws;
pub mod nearest;
