//! Validation of reference and tag names, byte by byte.

pub mod reference;
pub mod tag;
