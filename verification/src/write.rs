//! Appending fixed-width values to a growing byte buffer.
//!
//! Write operations never fail; each appends the encoding of its value to the
//! end of the buffer. Multi-byte integers are written in the format's byte
//! order (little-endian), matching the readers in [`crate::read`].

use vstd::prelude::*;
use vstd::bytes::{spec_u32_to_le_bytes, spec_u64_to_le_bytes, u32_to_le_bytes, u64_to_le_bytes};

verus! {

/// Appends a single byte.
pub fn byte(contents: &mut Vec<u8>, v: u8)
    ensures
        final(contents)@ == old(contents)@.push(v),
{
    contents.push(v);
}

/// Appends a 4-byte signed integer.
pub fn i32(contents: &mut Vec<u8>, v: i32)
    ensures
        final(contents)@ == old(contents)@ + spec_u32_to_le_bytes(v as u32),
{
    u32(contents, v as u32);
}

/// Appends a 4-byte unsigned integer.
pub fn u32(contents: &mut Vec<u8>, v: u32)
    ensures
        final(contents)@ == old(contents)@ + spec_u32_to_le_bytes(v),
{
    let encoded = u32_to_le_bytes(v);
    append_vec(contents, &encoded);
}

/// Appends an 8-byte unsigned integer.
pub fn u64(contents: &mut Vec<u8>, v: u64)
    ensures
        final(contents)@ == old(contents)@ + spec_u64_to_le_bytes(v),
{
    let encoded = u64_to_le_bytes(v);
    append_vec(contents, &encoded);
}

/// Appends an 8-byte IEEE-754 floating number given as its raw bit pattern.
pub fn float_bits(contents: &mut Vec<u8>, bits: u64)
    ensures
        final(contents)@ == old(contents)@ + spec_u64_to_le_bytes(bits),
{
    u64(contents, bits);
}

/// Appends a run of raw bytes.
pub fn bytes(contents: &mut Vec<u8>, data: &[u8])
    ensures
        final(contents)@ == old(contents)@ + data@,
{
    let mut i: usize = 0;
    while i < data.len()
        invariant
            i <= data@.len(),
            contents@ == old(contents)@ + data@.subrange(0, i as int),
        decreases data@.len() - i,
    {
        contents.push(*vstd::slice::slice_index_get(data, i));
        i = i + 1;
        proof {
            assert(contents@ =~= old(contents)@ + data@.subrange(0, i as int));
        }
    }
    proof {
        assert(contents@ =~= old(contents)@ + data@);
    }
}

/// Appends every byte of `data`.
fn append_vec(contents: &mut Vec<u8>, data: &Vec<u8>)
    ensures
        final(contents)@ == old(contents)@ + data@,
{
    bytes(contents, data.as_slice());
}

} // verus!
