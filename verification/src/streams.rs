//! Stream abstractions and their implementations.
pub mod dummy;
pub mod spans;
pub mod traits;
pub mod utils;
