//! Builds sequential-access tape images: fixed-size records bracketed by
//! little-endian length markers, one end-of-file marker per input and one
//! end-of-tape marker at the end.

pub mod frame;
pub mod result;
pub mod args;
pub mod mktape;
