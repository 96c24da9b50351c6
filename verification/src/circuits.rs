//! Components and their arrangement in series.
pub mod components;
pub mod series;
pub mod laws;
