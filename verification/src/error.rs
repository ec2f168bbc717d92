//! The error kinds that decoding and encoding can report.

use vstd::prelude::*;

verus! {

/// Why a decode or encode call failed.
///
/// Every failure is fatal and reported to the caller; the codec never retries
/// and never returns a partial result.
#[derive(Debug)]
pub enum SaveError {
    /// The bytes do not form the expected format: a bad signature, an
    /// unsupported container version, or an unknown value tag.
    Format { what: &'static str },
    /// Fewer bytes were available than the field named here requires.
    Truncation { field: &'static str, needed: usize, available: usize },
    /// A text field of the container did not hold valid UTF-8.
    Encoding { field: &'static str },
    /// The compressed state blob was malformed or did not fit the fixed
    /// decompression capacity.
    Compression,
    /// The caller handed the encoder a value it cannot represent, such as
    /// more than 255 top-level values.
    Caller { what: &'static str },
}

impl SaveError {
    /// A short, fixed description of the error kind, for diagnostics.
    pub fn kind(&self) -> (r: &'static str) {
        match self {
            SaveError::Format { .. } => "format error",
            SaveError::Truncation { .. } => "not enough data",
            SaveError::Encoding { .. } => "invalid utf-8",
            SaveError::Compression => "compression error",
            SaveError::Caller { .. } => "caller error",
        }
    }
}

} // verus!
