//! What holds of the codec and of the relay for every input.

pub mod compression;
pub mod fan_in;
pub mod round_trip;
pub mod truncation;
