//! Error types of the library.

pub mod zaptec;
