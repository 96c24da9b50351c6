//! One type for each physical quantity, so that no two quantities can be
//! mixed up or combined.
pub mod farad;
pub mod henry;
pub mod ohm;
pub mod volt;
