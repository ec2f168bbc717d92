//! Save-file container and dynamic-value codec for a game's persisted state.
//!
//! The crate decodes and re-encodes a versioned, checksummed save container
//! whose payload is an LZ4-compressed stream of dynamically typed values
//! (nil, booleans, numbers, byte strings and tables), and proves that the
//! encodings round-trip.

pub mod error;
pub mod hadesfile;
pub mod luabins;
pub mod number;
pub mod read;
pub mod save;
pub mod value;
pub mod write;
