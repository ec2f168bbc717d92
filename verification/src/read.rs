//! Cursor-based extraction of fixed-width values from a byte buffer.
//!
//! Every reader takes the buffer, the current cursor position and a
//! caller-supplied field label; it either returns the value together with the
//! advanced cursor, or a truncation error carrying the label and the byte
//! counts involved. Multi-byte integers are read in the format's byte order
//! (little-endian).

use vstd::prelude::*;
use vstd::bytes::{spec_u32_from_le_bytes, spec_u64_from_le_bytes, u32_from_le_bytes, u64_from_le_bytes};
use vstd::slice::slice_subrange;

use crate::error::SaveError;

verus! {

/// Reads a single byte.
pub fn byte(data: &[u8], pos: usize, field: &'static str) -> (r: Result<(u8, usize), SaveError>)
    requires
        pos <= data@.len(),
    ensures
        pos + 1 <= data@.len() ==> (r matches Ok((v, p)) && v == data@[pos as int] && p == pos + 1),
        pos + 1 > data@.len() ==> (r matches Err(SaveError::Truncation { field: f, needed, available })
            && f == field && needed == 1 && available == data@.len() - pos),
{
    if pos < data.len() {
        Ok((*vstd::slice::slice_index_get(data, pos), pos + 1))
    } else {
        Err(SaveError::Truncation { field, needed: 1, available: data.len() - pos })
    }
}

/// Reads a 4-byte signed integer.
pub fn i32(data: &[u8], pos: usize, field: &'static str) -> (r: Result<(i32, usize), SaveError>)
    requires
        pos <= data@.len(),
    ensures
        pos + 4 <= data@.len() ==> (r matches Ok((v, p))
            && v == spec_u32_from_le_bytes(data@.subrange(pos as int, pos + 4)) as i32
            && p == pos + 4),
        pos + 4 > data@.len() ==> (r matches Err(SaveError::Truncation { field: f, needed, available })
            && f == field && needed == 4 && available == data@.len() - pos),
{
    match u32(data, pos, field) {
        Ok((v, p)) => Ok((v as i32, p)),
        Err(e) => Err(e),
    }
}

/// Reads a 4-byte unsigned integer.
pub fn u32(data: &[u8], pos: usize, field: &'static str) -> (r: Result<(u32, usize), SaveError>)
    requires
        pos <= data@.len(),
    ensures
        pos + 4 <= data@.len() ==> (r matches Ok((v, p))
            && v == spec_u32_from_le_bytes(data@.subrange(pos as int, pos + 4))
            && p == pos + 4),
        pos + 4 > data@.len() ==> (r matches Err(SaveError::Truncation { field: f, needed, available })
            && f == field && needed == 4 && available == data@.len() - pos),
{
    if data.len() - pos >= 4 {
        let chunk = slice_subrange(data, pos, pos + 4);
        Ok((u32_from_le_bytes(chunk), pos + 4))
    } else {
        Err(SaveError::Truncation { field, needed: 4, available: data.len() - pos })
    }
}

/// Reads an 8-byte unsigned integer.
pub fn u64(data: &[u8], pos: usize, field: &'static str) -> (r: Result<(u64, usize), SaveError>)
    requires
        pos <= data@.len(),
    ensures
        pos + 8 <= data@.len() ==> (r matches Ok((v, p))
            && v == spec_u64_from_le_bytes(data@.subrange(pos as int, pos + 8))
            && p == pos + 8),
        pos + 8 > data@.len() ==> (r matches Err(SaveError::Truncation { field: f, needed, available })
            && f == field && needed == 8 && available == data@.len() - pos),
{
    if data.len() - pos >= 8 {
        let chunk = slice_subrange(data, pos, pos + 8);
        Ok((u64_from_le_bytes(chunk), pos + 8))
    } else {
        Err(SaveError::Truncation { field, needed: 8, available: data.len() - pos })
    }
}

/// Reads an 8-byte IEEE-754 floating number as its raw bit pattern.
///
/// The codec never computes with the number itself; all classification is
/// done on the bits, so the value is returned as the bits read.
pub fn float_bits(data: &[u8], pos: usize, field: &'static str) -> (r: Result<(u64, usize), SaveError>)
    requires
        pos <= data@.len(),
    ensures
        pos + 8 <= data@.len() ==> (r matches Ok((v, p))
            && v == spec_u64_from_le_bytes(data@.subrange(pos as int, pos + 8))
            && p == pos + 8),
        pos + 8 > data@.len() ==> (r matches Err(SaveError::Truncation { field: f, needed, available })
            && f == field && needed == 8 && available == data@.len() - pos),
{
    u64(data, pos, field)
}

/// Reads a run of exactly `len` raw bytes.
pub fn bytes<'a>(data: &'a [u8], pos: usize, len: usize, field: &'static str) -> (r: Result<(&'a [u8], usize), SaveError>)
    requires
        pos <= data@.len(),
    ensures
        pos + len <= data@.len() ==> (r matches Ok((v, p))
            && v@ == data@.subrange(pos as int, pos + len)
            && p == pos + len),
        pos + len > data@.len() ==> (r matches Err(SaveError::Truncation { field: f, needed, available })
            && f == field && needed == len && available == data@.len() - pos),
{
    if data.len() - pos >= len {
        Ok((slice_subrange(data, pos, pos + len), pos + len))
    } else {
        Err(SaveError::Truncation { field, needed: len, available: data.len() - pos })
    }
}

} // verus!
