//! Utilities shared by the sketches.

pub mod random;
