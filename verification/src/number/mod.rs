//! Binary64 numbers and their arithmetic, by the bit.

pub mod arithmetic;
pub mod error;
pub mod exact;
pub mod laws;
pub mod rounding;
pub mod scalar;

mod roots;
mod significand;
mod whole;
