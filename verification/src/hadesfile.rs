//! The save container codec: signature, checksum, version dispatch, the
//! versioned fixed fields, and the LZ4-compressed state blob.
//!
//! A container starts with the 4-byte signature `SGB1`, a 4-byte Adler-32
//! checksum of everything after the 8-byte header, and a 4-byte version.
//! Exactly two versions are recognized. Decoding reads the version's fixed
//! fields and decompresses the state blob to a fixed per-version capacity;
//! the newer version then trims the buffer to the true payload length found
//! by the state codec's dry-run probe, while the older one hands the full
//! buffer through unchanged. Decoding never verifies the stored checksum;
//! encoding always recomputes it.

use vstd::prelude::*;
use vstd::bytes::{spec_u32_from_le_bytes, spec_u32_to_le_bytes, spec_u64_from_le_bytes, spec_u64_to_le_bytes};
use vstd::utf8::{decode_utf8, encode_utf8, valid_utf8};

use crate::error::SaveError;
use crate::luabins;
use crate::read;

verus! {

/// The fixed decompression capacity a container version allows its state
/// blob, in bytes.
pub trait UncompressedSize {
    /// The capacity, fixed per version; the format carries no end-of-stream
    /// marker, so decompression must know it in advance.
    const UNCOMPRESSED_SIZE: i32;
}

/// The largest input the LZ4 block compressor accepts.
pub const LZ4_MAX_INPUT: usize = 2113929216;

/// What the LZ4 block compressor produces for a byte run, with its default
/// mode and no size prefix.
pub uninterp spec fn lz4_block_compress(data: Seq<u8>) -> Seq<u8>;

/// What LZ4 block decompression with the given capacity yields for a byte
/// run: the decompressed bytes, or nothing when the run is not a complete
/// block that fits the capacity.
pub uninterp spec fn lz4_block_decompress(data: Seq<u8>, capacity: int) -> Option<Seq<u8>>;

/// The Adler-32 checksum of a byte run.
pub uninterp spec fn adler32_of(data: Seq<u8>) -> u32;

/// Relies on lz4::block::compress with the default mode and no prepended
/// size: it accepts inputs up to the LZ4 bound, its output is a function of
/// the input alone and at most `compressBound` bytes, and decompressing the
/// output at any sufficient capacity within the bound returns the input.
#[verifier::external_body]
fn lz4_compress(data: &Vec<u8>) -> (r: Vec<u8>)
    requires
        data@.len() <= LZ4_MAX_INPUT,
    ensures
        r@ == lz4_block_compress(data@),
        r@.len() <= data@.len() + data@.len() / 255 + 16,
        forall|m: int| data@.len() <= m <= LZ4_MAX_INPUT as int
            ==> lz4_block_decompress(r@, m) == Some(data@),
{
    lz4::block::compress(data.as_slice(), None, false).unwrap()
}

/// Relies on lz4::block::decompress with an explicit capacity: it either
/// returns the block's decompressed bytes, which fit the capacity, or fails
/// on a malformed or oversized block; the outcome is a function of the input
/// and the capacity.
#[verifier::external_body]
fn lz4_decompress(data: &Vec<u8>, capacity: i32) -> (r: Option<Vec<u8>>)
    requires
        0 <= capacity,
    ensures
        (r matches Some(out) ==> lz4_block_decompress(data@, capacity as int) == Some(out@)
            && out@.len() <= capacity),
        r is None ==> lz4_block_decompress(data@, capacity as int) is None,
{
    lz4::block::decompress(data.as_slice(), Some(capacity)).ok()
}

/// Relies on adler32::adler32 reading from an in-memory byte slice, which
/// consumes the whole slice and cannot fail.
#[verifier::external_body]
fn adler32_from(data: &Vec<u8>, start: usize) -> (r: u32)
    requires
        start <= data@.len(),
    ensures
        r == adler32_of(data@.skip(start as int)),
{
    adler32::adler32(&data[start..]).unwrap()
}

/// Relies on String::from_utf8: it succeeds exactly on valid UTF-8 and
/// yields the characters the bytes encode.
#[verifier::external_body]
fn utf8_to_string(bytes: Vec<u8>) -> (r: Option<String>)
    ensures
        (r matches Some(s) ==> valid_utf8(bytes@) && s@ == decode_utf8(bytes@)),
        r is None ==> !valid_utf8(bytes@),
{
    String::from_utf8(bytes).ok()
}

/// A decoded save container: one of the two recognized versions.
#[derive(Clone)]
pub enum HadesSave {
    V16(HadesSaveV16),
    V17(HadesSaveV17),
}

/// The fixed fields and decompressed state of a version-16 container.
#[derive(Clone)]
pub struct HadesSaveV16 {
    pub timestamp: u64,
    pub location: String,
    pub runs: u32,
    pub active_meta_points: u32,
    pub active_shrine_points: u32,
    pub god_mode_enabled: bool,
    pub hell_mode_enabled: bool,
    pub lua_keys: Vec<String>,
    pub current_map_name: String,
    pub start_next_map: String,
    pub lua_state: Vec<u8>,
}

impl UncompressedSize for HadesSaveV16 {
    const UNCOMPRESSED_SIZE: i32 = 9388032;
}

/// The fixed fields and decompressed, trimmed state of a version-17
/// container.
#[derive(Clone)]
pub struct HadesSaveV17 {
    pub timestamp: u64,
    pub location: String,
    /// Twelve opaque bytes the format carries after the location.
    pub padding1: Vec<u8>,
    pub runs: u32,
    pub god_mode_enabled: bool,
    pub hell_mode_enabled: bool,
    pub lua_keys: Vec<String>,
    pub current_map_name: String,
    pub start_next_map: String,
    pub lua_state: Vec<u8>,
}

impl UncompressedSize for HadesSaveV17 {
    const UNCOMPRESSED_SIZE: i32 = 9388032;
}

/// The model of a version-16 container.
pub struct SaveModelV16 {
    pub timestamp: u64,
    pub location: Seq<char>,
    pub runs: u32,
    pub active_meta_points: u32,
    pub active_shrine_points: u32,
    pub god_mode_enabled: bool,
    pub hell_mode_enabled: bool,
    pub lua_keys: Seq<Seq<char>>,
    pub current_map_name: Seq<char>,
    pub start_next_map: Seq<char>,
    pub lua_state: Seq<u8>,
}

/// The model of a version-17 container.
pub struct SaveModelV17 {
    pub timestamp: u64,
    pub location: Seq<char>,
    pub padding1: Seq<u8>,
    pub runs: u32,
    pub god_mode_enabled: bool,
    pub hell_mode_enabled: bool,
    pub lua_keys: Seq<Seq<char>>,
    pub current_map_name: Seq<char>,
    pub start_next_map: Seq<char>,
    pub lua_state: Seq<u8>,
}

/// The model of a decoded container.
pub enum SaveModel {
    V16(SaveModelV16),
    V17(SaveModelV17),
}

/// The models of a sequence of strings.
pub open spec fn strings_view(keys: Seq<String>) -> Seq<Seq<char>> {
    Seq::new(keys.len(), |i: int| keys[i]@)
}

impl View for HadesSaveV16 {
    type V = SaveModelV16;

    open spec fn view(&self) -> SaveModelV16 {
        SaveModelV16 {
            timestamp: self.timestamp,
            location: self.location@,
            runs: self.runs,
            active_meta_points: self.active_meta_points,
            active_shrine_points: self.active_shrine_points,
            god_mode_enabled: self.god_mode_enabled,
            hell_mode_enabled: self.hell_mode_enabled,
            lua_keys: strings_view(self.lua_keys@),
            current_map_name: self.current_map_name@,
            start_next_map: self.start_next_map@,
            lua_state: self.lua_state@,
        }
    }
}

impl View for HadesSaveV17 {
    type V = SaveModelV17;

    open spec fn view(&self) -> SaveModelV17 {
        SaveModelV17 {
            timestamp: self.timestamp,
            location: self.location@,
            padding1: self.padding1@,
            runs: self.runs,
            god_mode_enabled: self.god_mode_enabled,
            hell_mode_enabled: self.hell_mode_enabled,
            lua_keys: strings_view(self.lua_keys@),
            current_map_name: self.current_map_name@,
            start_next_map: self.start_next_map@,
            lua_state: self.lua_state@,
        }
    }
}

impl View for HadesSave {
    type V = SaveModel;

    open spec fn view(&self) -> SaveModel {
        match self {
            HadesSave::V16(s) => SaveModel::V16(s@),
            HadesSave::V17(s) => SaveModel::V17(s@),
        }
    }
}

/// The 4-byte container signature, `SGB1` in ASCII.
pub open spec fn spec_signature() -> Seq<u8> {
    seq![0x53u8, 0x47u8, 0x42u8, 0x31u8]
}

/// The wire form of a text field: a 4-byte length prefix, then the UTF-8
/// bytes.
pub open spec fn spec_string_block(s: Seq<char>) -> Seq<u8> {
    spec_u32_to_le_bytes(encode_utf8(s).len() as u32) + encode_utf8(s)
}

/// The wire form of the key-name list, one length-prefixed string after
/// another.
pub open spec fn spec_keys_blocks(keys: Seq<Seq<char>>) -> Seq<u8>
    decreases keys,
{
    if keys.len() == 0 {
        Seq::empty()
    } else {
        spec_string_block(keys[0]) + spec_keys_blocks(keys.subrange(1, keys.len() as int))
    }
}

/// The wire form of a boolean flag.
pub open spec fn spec_bool_byte(b: bool) -> u8 {
    if b {
        1u8
    } else {
        0u8
    }
}

/// Everything a version-16 container stores after its 8-byte header: the
/// version word, then the fields in order.
pub open spec fn spec_write_v16_body(s: SaveModelV16) -> Seq<u8> {
    spec_u32_to_le_bytes(16u32)
        + spec_u64_to_le_bytes(s.timestamp)
        + spec_string_block(s.location)
        + spec_u32_to_le_bytes(s.runs)
        + spec_u32_to_le_bytes(s.active_meta_points)
        + spec_u32_to_le_bytes(s.active_shrine_points)
        + seq![spec_bool_byte(s.god_mode_enabled)]
        + seq![spec_bool_byte(s.hell_mode_enabled)]
        + spec_u32_to_le_bytes(s.lua_keys.len() as u32)
        + spec_keys_blocks(s.lua_keys)
        + spec_string_block(s.current_map_name)
        + spec_string_block(s.start_next_map)
        + spec_u32_to_le_bytes(lz4_block_compress(s.lua_state).len() as u32)
        + lz4_block_compress(s.lua_state)
}

/// Everything a version-17 container stores after its 8-byte header: the
/// version word, then the fields in order.
pub open spec fn spec_write_v17_body(s: SaveModelV17) -> Seq<u8> {
    spec_u32_to_le_bytes(17u32)
        + spec_u64_to_le_bytes(s.timestamp)
        + spec_string_block(s.location)
        + s.padding1
        + spec_u32_to_le_bytes(s.runs)
        + seq![spec_bool_byte(s.god_mode_enabled)]
        + seq![spec_bool_byte(s.hell_mode_enabled)]
        + spec_u32_to_le_bytes(s.lua_keys.len() as u32)
        + spec_keys_blocks(s.lua_keys)
        + spec_string_block(s.current_map_name)
        + spec_string_block(s.start_next_map)
        + spec_u32_to_le_bytes(lz4_block_compress(s.lua_state).len() as u32)
        + lz4_block_compress(s.lua_state)
}

/// A whole container: signature, the Adler-32 checksum of every byte after
/// the 8-byte header, then the body.
pub open spec fn spec_container(body: Seq<u8>) -> Seq<u8> {
    spec_signature() + spec_u32_to_le_bytes(adler32_of(body)) + body
}

/// The encoding of a version-16 container.
pub open spec fn spec_write_v16(s: SaveModelV16) -> Seq<u8> {
    spec_container(spec_write_v16_body(s))
}

/// The encoding of a version-17 container.
pub open spec fn spec_write_v17(s: SaveModelV17) -> Seq<u8> {
    spec_container(spec_write_v17_body(s))
}

/// When a version-16 container can be encoded: every text field and the key
/// list fit their 4-byte length prefixes, and the state blob fits the LZ4
/// compressor's input bound.
pub open spec fn v16_encodable(s: SaveModelV16) -> bool {
    &&& encode_utf8(s.location).len() <= u32::MAX
    &&& s.lua_keys.len() <= u32::MAX
    &&& forall|i: int| 0 <= i < s.lua_keys.len() ==> encode_utf8(#[trigger] s.lua_keys[i]).len() <= u32::MAX
    &&& encode_utf8(s.current_map_name).len() <= u32::MAX
    &&& encode_utf8(s.start_next_map).len() <= u32::MAX
    &&& s.lua_state.len() <= LZ4_MAX_INPUT
}

/// When a version-17 container can be encoded: as for version 16, plus the
/// opaque padding being exactly its 12 wire bytes.
pub open spec fn v17_encodable(s: SaveModelV17) -> bool {
    &&& encode_utf8(s.location).len() <= u32::MAX
    &&& s.padding1.len() == 12
    &&& s.lua_keys.len() <= u32::MAX
    &&& forall|i: int| 0 <= i < s.lua_keys.len() ==> encode_utf8(#[trigger] s.lua_keys[i]).len() <= u32::MAX
    &&& encode_utf8(s.current_map_name).len() <= u32::MAX
    &&& encode_utf8(s.start_next_map).len() <= u32::MAX
    &&& s.lua_state.len() <= LZ4_MAX_INPUT
}

/// Decoding a text field at `pos`: a 4-byte length, then that many bytes,
/// which must be valid UTF-8.
pub open spec fn spec_read_string(b: Seq<u8>, pos: int) -> Option<(Seq<char>, int)> {
    if pos + 4 > b.len() {
        None
    } else {
        let len = spec_u32_from_le_bytes(b.subrange(pos, pos + 4)) as int;
        if pos + 4 + len > b.len() {
            None
        } else if valid_utf8(b.subrange(pos + 4, pos + 4 + len)) {
            Some((decode_utf8(b.subrange(pos + 4, pos + 4 + len)), pos + 4 + len))
        } else {
            None
        }
    }
}

/// Decoding `count` consecutive text fields at `pos`.
pub open spec fn spec_read_keys(b: Seq<u8>, pos: int, count: int, acc: Seq<Seq<char>>) -> Option<(Seq<Seq<char>>, int)>
    decreases (if count > 0 { count } else { 0 }),
{
    if count <= 0 {
        Some((acc, pos))
    } else {
        match spec_read_string(b, pos) {
            None => None,
            Some((s, p)) => spec_read_keys(b, p, count - 1, acc.push(s)),
        }
    }
}

/// Decoding the fields of a version-16 container from `pos` (just after the
/// version): the fixed fields, then the compressed blob, which must
/// decompress within the fixed capacity. The decompressed buffer is handed
/// through whole, padding included.
pub open spec fn spec_read_v16(b: Seq<u8>, pos: int) -> Option<SaveModelV16> {
    if pos + 8 > b.len() {
        None
    } else {
        let timestamp = spec_u64_from_le_bytes(b.subrange(pos, pos + 8));
        match spec_read_string(b, pos + 8) {
            None => None,
            Some((location, p1)) => if p1 + 14 > b.len() {
                None
            } else {
                let runs = spec_u32_from_le_bytes(b.subrange(p1, p1 + 4));
                let amp = spec_u32_from_le_bytes(b.subrange(p1 + 4, p1 + 8));
                let asp = spec_u32_from_le_bytes(b.subrange(p1 + 8, p1 + 12));
                let god = b[p1 + 12] != 0;
                let hell = b[p1 + 13] != 0;
                let nkeys = spec_u32_from_le_bytes(b.subrange(p1 + 14, p1 + 18)) as int;
                if p1 + 18 > b.len() {
                    None
                } else {
                    match spec_read_keys(b, p1 + 18, nkeys, Seq::empty()) {
                        None => None,
                        Some((keys, p2)) => match spec_read_string(b, p2) {
                            None => None,
                            Some((current_map, p3)) => match spec_read_string(b, p3) {
                                None => None,
                                Some((next_map, p4)) => if p4 + 4 > b.len() {
                                    None
                                } else {
                                    let bloblen = spec_u32_from_le_bytes(b.subrange(p4, p4 + 4)) as int;
                                    if p4 + 4 + bloblen > b.len() {
                                        None
                                    } else {
                                        let blob = b.subrange(p4 + 4, p4 + 4 + bloblen);
                                        match lz4_block_decompress(blob, 9388032) {
                                            None => None,
                                            Some(state) => Some(SaveModelV16 {
                                                timestamp,
                                                location,
                                                runs,
                                                active_meta_points: amp,
                                                active_shrine_points: asp,
                                                god_mode_enabled: god,
                                                hell_mode_enabled: hell,
                                                lua_keys: keys,
                                                current_map_name: current_map,
                                                start_next_map: next_map,
                                                lua_state: state,
                                            }),
                                        }
                                    }
                                },
                            },
                        },
                    }
                }
            },
        }
    }
}

/// Decoding the fields of a version-17 container from `pos`: as for version
/// 16 but with the opaque padding instead of the two counters, and with the
/// decompressed buffer trimmed to the payload length found by the state
/// codec's dry-run probe.
pub open spec fn spec_read_v17(b: Seq<u8>, pos: int) -> Option<SaveModelV17> {
    if pos + 8 > b.len() {
        None
    } else {
        let timestamp = spec_u64_from_le_bytes(b.subrange(pos, pos + 8));
        match spec_read_string(b, pos + 8) {
            None => None,
            Some((location, p1)) => if p1 + 18 > b.len() {
                None
            } else {
                let padding1 = b.subrange(p1, p1 + 12);
                let runs = spec_u32_from_le_bytes(b.subrange(p1 + 12, p1 + 16));
                let god = b[p1 + 16] != 0;
                let hell = b[p1 + 17] != 0;
                if p1 + 22 > b.len() {
                    None
                } else {
                    let nkeys = spec_u32_from_le_bytes(b.subrange(p1 + 18, p1 + 22)) as int;
                    match spec_read_keys(b, p1 + 22, nkeys, Seq::empty()) {
                        None => None,
                        Some((keys, p2)) => match spec_read_string(b, p2) {
                            None => None,
                            Some((current_map, p3)) => match spec_read_string(b, p3) {
                                None => None,
                                Some((next_map, p4)) => if p4 + 4 > b.len() {
                                    None
                                } else {
                                    let bloblen = spec_u32_from_le_bytes(b.subrange(p4, p4 + 4)) as int;
                                    if p4 + 4 + bloblen > b.len() {
                                        None
                                    } else {
                                        let blob = b.subrange(p4 + 4, p4 + 4 + bloblen);
                                        match lz4_block_decompress(blob, 9388032) {
                                            None => None,
                                            Some(full) => match luabins::spec_load(full) {
                                                None => None,
                                                Some((_, n)) => Some(SaveModelV17 {
                                                    timestamp,
                                                    location,
                                                    padding1,
                                                    runs,
                                                    god_mode_enabled: god,
                                                    hell_mode_enabled: hell,
                                                    lua_keys: keys,
                                                    current_map_name: current_map,
                                                    start_next_map: next_map,
                                                    lua_state: full.take(n),
                                                }),
                                            },
                                        }
                                    }
                                },
                            },
                        },
                    }
                }
            },
        }
    }
}

/// Decoding a whole container: the signature must match, the stored checksum
/// is carried over without verification, and only versions 16 and 17 are
/// recognized.
pub open spec fn spec_read(b: Seq<u8>) -> Option<SaveModel> {
    if b.len() < 12 {
        None
    } else if b.subrange(0, 4) != spec_signature() {
        None
    } else {
        let version = spec_u32_from_le_bytes(b.subrange(8, 12));
        if version == 16 {
            match spec_read_v16(b, 12) {
                None => None,
                Some(s) => Some(SaveModel::V16(s)),
            }
        } else if version == 17 {
            match spec_read_v17(b, 12) {
                None => None,
                Some(s) => Some(SaveModel::V17(s)),
            }
        } else {
            None
        }
    }
}

/// Reads one length-prefixed UTF-8 text field.
pub(crate) fn read_string(data: &[u8], pos: usize, field: &'static str) -> (r: Result<(String, usize), SaveError>)
    requires
        pos <= data@.len(),
    ensures
        (r matches Ok((s, p)) ==> spec_read_string(data@, pos as int) == Some((s@, p as int))
            && pos <= p <= data@.len() && encode_utf8(s@).len() <= u32::MAX),
        r is Err ==> spec_read_string(data@, pos as int) is None,
        (r matches Err(e) ==> fault_matches(e, spec_read_string_fault(data@, pos as int))),
{
    let (len, p1) = match read::u32(data, pos, field) {
        Ok(x) => x,
        Err(e) => {
            return Err(e);
        },
    };
    let (chunk, p2) = match read::bytes(data, p1, len as usize, field) {
        Ok(x) => x,
        Err(e) => {
            return Err(e);
        },
    };
    match utf8_to_string(vstd::slice::slice_to_vec(chunk)) {
        Some(s) => {
            proof {
                vstd::utf8::decode_utf8_encode_utf8(chunk@);
            }
            Ok((s, p2))
        },
        None => Err(SaveError::Encoding { field }),
    }
}

/// Reads `count` consecutive length-prefixed UTF-8 text fields.
pub(crate) fn read_keys(data: &[u8], pos: usize, count: u32) -> (r: Result<(Vec<String>, usize), SaveError>)
    requires
        pos <= data@.len(),
    ensures
        (r matches Ok((ks, p)) ==> spec_read_keys(data@, pos as int, count as int, Seq::empty())
            == Some((strings_view(ks@), p as int)) && pos <= p <= data@.len()
            && ks@.len() == count as int
            && (forall|i: int| 0 <= i < ks@.len()
                ==> encode_utf8(#[trigger] strings_view(ks@)[i]).len() <= u32::MAX)),
        r is Err ==> spec_read_keys(data@, pos as int, count as int, Seq::empty()) is None,
        (r matches Err(e) ==> fault_matches(e, spec_read_keys_fault(data@, pos as int, count as int))),
{
    let mut keys: Vec<String> = Vec::new();
    let mut cur: usize = pos;
    let mut remaining: u32 = count;
    proof {
        assert(strings_view(keys@) =~= Seq::<Seq<char>>::empty());
    }
    while remaining > 0
        invariant
            pos <= cur <= data@.len(),
            keys@.len() + remaining == count,
            spec_read_keys(data@, pos as int, count as int, Seq::empty())
                == spec_read_keys(data@, cur as int, remaining as int, strings_view(keys@)),
            forall|i: int| 0 <= i < keys@.len()
                ==> encode_utf8(#[trigger] strings_view(keys@)[i]).len() <= u32::MAX,
            spec_read_keys(data@, pos as int, count as int, Seq::empty()) is None
                ==> spec_read_keys_fault(data@, pos as int, count as int)
                    == spec_read_keys_fault(data@, cur as int, remaining as int),
        decreases remaining,
    {
        let ghost acc0 = strings_view(keys@);
        let (k, p) = match read_string(data, cur, "lua_key") {
            Ok(x) => x,
            Err(e) => {
                return Err(e);
            },
        };
        keys.push(k);
        proof {
            assert(strings_view(keys@) =~= acc0.push(k@));
        }
        cur = p;
        remaining = remaining - 1;
    }
    Ok((keys, cur))
}

/// Reads the version-16 fields that follow the version word, decompressing
/// the state blob to the fixed capacity and handing the whole buffer
/// through, padding included.
pub fn read_v16(data: &[u8], pos: usize) -> (r: Result<HadesSaveV16, SaveError>)
    requires
        pos <= data@.len(),
    ensures
        (r matches Ok(s) ==> spec_read_v16(data@, pos as int) == Some(s@)
            && v16_encodable(s@) && s@.lua_state.len() <= 9388032),
        r is Err ==> spec_read_v16(data@, pos as int) is None,
        (r matches Err(e) ==> fault_matches(e, spec_read_v16_fault(data@, pos as int))),
{
    let (timestamp, p0) = match read::u64(data, pos, "timestamp") {
        Ok(x) => x,
        Err(e) => {
            return Err(e);
        },
    };
    let (location, p1) = match read_string(data, p0, "location") {
        Ok(x) => x,
        Err(e) => {
            return Err(e);
        },
    };
    let (runs, p2) = match read::u32(data, p1, "runs") {
        Ok(x) => x,
        Err(e) => {
            return Err(e);
        },
    };
    let (active_meta_points, p3) = match read::u32(data, p2, "active_meta_points") {
        Ok(x) => x,
        Err(e) => {
            return Err(e);
        },
    };
    let (active_shrine_points, p4) = match read::u32(data, p3, "active_shrine_points") {
        Ok(x) => x,
        Err(e) => {
            return Err(e);
        },
    };
    let (godb, p5) = match read::byte(data, p4, "god_mode_enabled") {
        Ok(x) => x,
        Err(e) => {
            return Err(e);
        },
    };
    let (hellb, p6) = match read::byte(data, p5, "hell_mode_enabled") {
        Ok(x) => x,
        Err(e) => {
            return Err(e);
        },
    };
    let (nkeys, p7) = match read::u32(data, p6, "lua_keys size") {
        Ok(x) => x,
        Err(e) => {
            return Err(e);
        },
    };
    let (lua_keys, p8) = match read_keys(data, p7, nkeys) {
        Ok(x) => x,
        Err(e) => {
            return Err(e);
        },
    };
    let (current_map_name, p9) = match read_string(data, p8, "current_map_name") {
        Ok(x) => x,
        Err(e) => {
            return Err(e);
        },
    };
    let (start_next_map, p10) = match read_string(data, p9, "start_next_map") {
        Ok(x) => x,
        Err(e) => {
            return Err(e);
        },
    };
    let (bloblen, p11) = match read::u32(data, p10, "lua_state size") {
        Ok(x) => x,
        Err(e) => {
            return Err(e);
        },
    };
    let (blob, _p12) = match read::bytes(data, p11, bloblen as usize, "lua_state bytes") {
        Ok(x) => x,
        Err(e) => {
            return Err(e);
        },
    };
    let blob_vec = vstd::slice::slice_to_vec(blob);
    match lz4_decompress(&blob_vec, 9388032) {
        Some(lua_state) => Ok(HadesSaveV16 {
            timestamp,
            location,
            runs,
            active_meta_points,
            active_shrine_points,
            god_mode_enabled: godb != 0,
            hell_mode_enabled: hellb != 0,
            lua_keys,
            current_map_name,
            start_next_map,
            lua_state,
        }),
        None => Err(SaveError::Compression),
    }
}

/// Reads the version-17 fields that follow the version word, decompressing
/// the state blob to the fixed capacity and trimming it to the payload
/// length found by the state codec's dry-run probe.
pub fn read_v17(data: &[u8], pos: usize) -> (r: Result<HadesSaveV17, SaveError>)
    requires
        pos <= data@.len(),
    ensures
        (r matches Ok(s) ==> spec_read_v17(data@, pos as int) == Some(s@)
            && v17_encodable(s@) && s@.lua_state.len() <= 9388032 && probe_exact(s@.lua_state)),
        r is Err ==> spec_read_v17(data@, pos as int) is None,
        (r matches Err(e) ==> fault_matches(e, spec_read_v17_fault(data@, pos as int))),
{
    let (timestamp, p0) = match read::u64(data, pos, "timestamp") {
        Ok(x) => x,
        Err(e) => {
            return Err(e);
        },
    };
    let (location, p1) = match read_string(data, p0, "location") {
        Ok(x) => x,
        Err(e) => {
            return Err(e);
        },
    };
    let (padding, p2) = match read::bytes(data, p1, 12, "padding1") {
        Ok(x) => x,
        Err(e) => {
            return Err(e);
        },
    };
    let (runs, p3) = match read::u32(data, p2, "runs") {
        Ok(x) => x,
        Err(e) => {
            return Err(e);
        },
    };
    let (godb, p4) = match read::byte(data, p3, "god_mode_enabled") {
        Ok(x) => x,
        Err(e) => {
            return Err(e);
        },
    };
    let (hellb, p5) = match read::byte(data, p4, "hell_mode_enabled") {
        Ok(x) => x,
        Err(e) => {
            return Err(e);
        },
    };
    let (nkeys, p6) = match read::u32(data, p5, "lua_keys size") {
        Ok(x) => x,
        Err(e) => {
            return Err(e);
        },
    };
    let (lua_keys, p7) = match read_keys(data, p6, nkeys) {
        Ok(x) => x,
        Err(e) => {
            return Err(e);
        },
    };
    let (current_map_name, p8) = match read_string(data, p7, "current_map_name") {
        Ok(x) => x,
        Err(e) => {
            return Err(e);
        },
    };
    let (start_next_map, p9) = match read_string(data, p8, "start_next_map") {
        Ok(x) => x,
        Err(e) => {
            return Err(e);
        },
    };
    let (bloblen, p10) = match read::u32(data, p9, "lua_state size") {
        Ok(x) => x,
        Err(e) => {
            return Err(e);
        },
    };
    let (blob, _p11) = match read::bytes(data, p10, bloblen as usize, "lua_state bytes") {
        Ok(x) => x,
        Err(e) => {
            return Err(e);
        },
    };
    let blob_vec = vstd::slice::slice_to_vec(blob);
    let mut full = match lz4_decompress(&blob_vec, 9388032) {
        Some(out) => out,
        None => {
            return Err(SaveError::Compression);
        },
    };
    let n = match luabins::size(full.as_slice()) {
        Ok(n) => n,
        Err(e) => {
            return Err(e);
        },
    };
    proof {
        luabins::lemma_probe_trim(full@);
    }
    full.truncate(n);
    proof {
        assert(full@ =~= lz4_block_decompress(blob_vec@, 9388032)->Some_0.take(
            luabins::spec_load(lz4_block_decompress(blob_vec@, 9388032)->Some_0)->Some_0.1));
    }
    Ok(HadesSaveV17 {
        timestamp,
        location,
        padding1: vstd::slice::slice_to_vec(padding),
        runs,
        god_mode_enabled: godb != 0,
        hell_mode_enabled: hellb != 0,
        lua_keys,
        current_map_name,
        start_next_map,
        lua_state: full,
    })
}

/// Decodes a save container: checks the signature, skips the stored
/// checksum, and dispatches on the version, of which exactly 16 and 17 are
/// recognized. Succeeds exactly when the bytes form a well-formed container.
pub fn read(data: &[u8]) -> (r: Result<HadesSave, SaveError>)
    ensures
        (r matches Ok(s) ==> spec_read(data@) == Some(s@)),
        r is Err ==> spec_read(data@) is None,
        (data@.len() >= 4 && data@.subrange(0, 4) != spec_signature()
            ==> (r matches Err(SaveError::Format { .. }))),
        (data@.len() >= 12 && data@.subrange(0, 4) == spec_signature()
            && spec_u32_from_le_bytes(data@.subrange(8, 12)) != 16
            && spec_u32_from_le_bytes(data@.subrange(8, 12)) != 17
            ==> (r matches Err(SaveError::Format { .. }))),
        (r matches Err(e) ==> fault_matches(e, spec_read_fault(data@))),
{
    let (sig, p0) = match read::bytes(data, 0, 4, "signature") {
        Ok(x) => x,
        Err(e) => {
            return Err(e);
        },
    };
    let sig_ok = *vstd::slice::slice_index_get(sig, 0) == 0x53
        && *vstd::slice::slice_index_get(sig, 1) == 0x47
        && *vstd::slice::slice_index_get(sig, 2) == 0x42
        && *vstd::slice::slice_index_get(sig, 3) == 0x31;
    if !sig_ok {
        proof {
            assert(data@.subrange(0, 4) != spec_signature()) by {
                if data@.subrange(0, 4) == spec_signature() {
                    assert(sig@[0] == 0x53u8 && sig@[1] == 0x47u8 && sig@[2] == 0x42u8
                        && sig@[3] == 0x31u8);
                }
            }
        }
        return Err(SaveError::Format { what: "not a recognized save file" });
    }
    proof {
        assert(data@.subrange(0, 4) =~= spec_signature());
    }
    let (_checksum, p1) = match read::bytes(data, p0, 4, "checksum") {
        Ok(x) => x,
        Err(e) => {
            return Err(e);
        },
    };
    let (version, p2) = match read::u32(data, p1, "version") {
        Ok(x) => x,
        Err(e) => {
            return Err(e);
        },
    };
    if version == 16 {
        match read_v16(data, p2) {
            Ok(s) => Ok(HadesSave::V16(s)),
            Err(e) => Err(e),
        }
    } else if version == 17 {
        match read_v17(data, p2) {
            Ok(s) => Ok(HadesSave::V17(s)),
            Err(e) => Err(e),
        }
    } else {
        Err(SaveError::Format { what: "unknown version" })
    }
}

/// Splitting the wire form of a key-list prefix at its last key.
proof fn lemma_keys_blocks_snoc(keys: Seq<Seq<char>>, i: int)
    requires
        0 <= i < keys.len(),
    ensures
        spec_keys_blocks(keys.take(i + 1)) == spec_keys_blocks(keys.take(i)) + spec_string_block(keys[i]),
    decreases i,
{
    if i == 0 {
        assert(keys.take(1)[0] == keys[0]);
        assert(keys.take(1).subrange(1, 1) =~= Seq::<Seq<char>>::empty());
        assert(keys.take(0) =~= Seq::<Seq<char>>::empty());
        assert(spec_keys_blocks(keys.take(1))
            =~= spec_keys_blocks(keys.take(0)) + spec_string_block(keys[0]));
    } else {
        let tail = keys.subrange(1, keys.len() as int);
        lemma_keys_blocks_snoc(tail, i - 1);
        assert(keys.take(i + 1)[0] == keys[0]);
        assert(keys.take(i)[0] == keys[0]);
        assert(keys.take(i + 1).subrange(1, i + 1) =~= tail.take(i));
        assert(keys.take(i).subrange(1, i) =~= tail.take(i - 1));
        assert(tail[i - 1] == keys[i]);
        assert(spec_keys_blocks(keys.take(i + 1))
            =~= spec_keys_blocks(keys.take(i)) + spec_string_block(keys[i]));
    }
}

/// Appends the wire form of one text field; an encoding longer than the
/// 4-byte length prefix can carry is a caller error, leaving the buffer
/// unchanged.
fn write_string(contents: &mut Vec<u8>, s: &String) -> (r: Result<(), SaveError>)
    ensures
        encode_utf8(s@).len() <= u32::MAX ==> (r is Ok
            && final(contents)@ == old(contents)@ + spec_string_block(s@)),
        encode_utf8(s@).len() > u32::MAX ==> (r matches Err(SaveError::Caller { .. })
            && final(contents)@ == old(contents)@),
{
    let bytes = s.as_str().as_bytes();
    if bytes.len() > (u32::MAX as usize) {
        return Err(SaveError::Caller { what: "text field longer than its length prefix allows" });
    }
    crate::write::u32(contents, bytes.len() as u32);
    crate::write::bytes(contents, bytes);
    Ok(())
}

/// Appends the wire form of the key-name list, without its count prefix.
fn write_keys(contents: &mut Vec<u8>, keys: &Vec<String>) -> (r: Result<(), SaveError>)
    ensures
        (forall|i: int| 0 <= i < keys@.len()
            ==> encode_utf8(#[trigger] strings_view(keys@)[i]).len() <= u32::MAX)
            ==> (r is Ok && final(contents)@ == old(contents)@ + spec_keys_blocks(strings_view(keys@))),
        !(forall|i: int| 0 <= i < keys@.len()
            ==> encode_utf8(#[trigger] strings_view(keys@)[i]).len() <= u32::MAX)
            ==> (r matches Err(SaveError::Caller { .. }) && final(contents)@ == old(contents)@),
{
    let ghost kv = strings_view(keys@);
    let ghost base = contents@;
    let mut i: usize = 0;
    while i < keys.len()
        invariant
            i <= keys@.len(),
            kv == strings_view(keys@),
            contents@ == base,
            forall|j: int| 0 <= j < i ==> encode_utf8(#[trigger] kv[j]).len() <= u32::MAX,
        decreases keys@.len() - i,
    {
        let k = vstd::std_specs::vec::vec_index(keys, i);
        if k.as_str().as_bytes().len() > (u32::MAX as usize) {
            proof {
                assert(encode_utf8(kv[i as int]).len() > u32::MAX);
            }
            return Err(SaveError::Caller { what: "text field longer than its length prefix allows" });
        }
        i = i + 1;
    }
    i = 0;
    proof {
        assert(kv.take(0) =~= Seq::<Seq<char>>::empty());
    }
    while i < keys.len()
        invariant
            i <= keys@.len(),
            kv == strings_view(keys@),
            contents@ == base + spec_keys_blocks(kv.take(i as int)),
            forall|j: int| 0 <= j < keys@.len() ==> encode_utf8(#[trigger] kv[j]).len() <= u32::MAX,
        decreases keys@.len() - i,
    {
        let k = vstd::std_specs::vec::vec_index(keys, i);
        proof {
            assert(kv[i as int] == keys@[i as int]@);
            assert(encode_utf8(kv[i as int]).len() <= u32::MAX);
        }
        match write_string(contents, k) {
            Ok(()) => {},
            Err(e) => {
                proof {
                    assert(false);
                }
                return Err(e);
            },
        }
        proof {
            lemma_keys_blocks_snoc(kv, i as int);
            assert(contents@ =~= base + spec_keys_blocks(kv.take(i as int + 1)));
        }
        i = i + 1;
    }
    proof {
        assert(kv.take(keys@.len() as int) =~= kv);
    }
    Ok(())
}

/// Encodes a version-16 container: the fields in order, the state blob
/// compressed, and the checksum of everything after the 8-byte header
/// computed over the finished body. Succeeds exactly on encodable saves;
/// anything else is a caller error.
#[verifier::rlimit(100)]
pub fn write_v16(save: &HadesSaveV16) -> (r: Result<Vec<u8>, SaveError>)
    ensures
        r is Ok <==> v16_encodable(save@),
        (r matches Ok(out) ==> out@ == spec_write_v16(save@)
            && out@.subrange(4, 8) == spec_u32_to_le_bytes(adler32_of(out@.skip(8)))
            && (save@.lua_state.len() <= 9388032
                ==> spec_read(out@) == Some(SaveModel::V16(save@)))),
        (r matches Err(e) ==> e matches SaveError::Caller { .. }),
{
    if save.lua_keys.len() > (u32::MAX as usize) {
        return Err(SaveError::Caller { what: "more key names than the count prefix allows" });
    }
    if save.lua_state.len() > LZ4_MAX_INPUT {
        return Err(SaveError::Caller { what: "state blob longer than the compressor accepts" });
    }
    let mut body: Vec<u8> = Vec::new();
    crate::write::u32(&mut body, 16);
    proof {
        assert(body@ =~= spec_u32_to_le_bytes(16u32));
    }
    crate::write::u64(&mut body, save.timestamp);
    match write_string(&mut body, &save.location) {
        Ok(()) => {},
        Err(e) => {
            return Err(e);
        },
    }
    crate::write::u32(&mut body, save.runs);
    crate::write::u32(&mut body, save.active_meta_points);
    crate::write::u32(&mut body, save.active_shrine_points);
    crate::write::byte(&mut body, if save.god_mode_enabled { 1 } else { 0 });
    crate::write::byte(&mut body, if save.hell_mode_enabled { 1 } else { 0 });
    crate::write::u32(&mut body, save.lua_keys.len() as u32);
    match write_keys(&mut body, &save.lua_keys) {
        Ok(()) => {},
        Err(e) => {
            return Err(e);
        },
    }
    match write_string(&mut body, &save.current_map_name) {
        Ok(()) => {},
        Err(e) => {
            return Err(e);
        },
    }
    match write_string(&mut body, &save.start_next_map) {
        Ok(()) => {},
        Err(e) => {
            return Err(e);
        },
    }
    let blob = lz4_compress(&save.lua_state);
    proof {
        lemma_compressed_fits(save@.lua_state);
    }
    crate::write::u32(&mut body, blob.len() as u32);
    crate::write::bytes(&mut body, blob.as_slice());
    proof {
        assert(body@ == spec_write_v16_body(save@));
    }
    let ghost spec_body = spec_write_v16_body(save@);
    let checksum = adler32_from(&body, 0);
    let mut contents: Vec<u8> = Vec::new();
    crate::write::byte(&mut contents, 0x53);
    crate::write::byte(&mut contents, 0x47);
    crate::write::byte(&mut contents, 0x42);
    crate::write::byte(&mut contents, 0x31);
    crate::write::u32(&mut contents, checksum);
    crate::write::bytes(&mut contents, body.as_slice());
    proof {
        vstd::bytes::lemma_auto_spec_u32_to_from_le_bytes();
        assert(body@.skip(0) =~= body@);
        assert(checksum == adler32_of(spec_body));
        assert(contents@ =~= spec_signature() + spec_u32_to_le_bytes(checksum) + body@);
        assert(spec_write_v16(save@)
            == spec_signature() + spec_u32_to_le_bytes(checksum) + body@);
        assert(contents@.subrange(4, 8) =~= spec_u32_to_le_bytes(checksum));
        assert(contents@.skip(8) =~= body@);
        if save@.lua_state.len() <= 9388032 {
            lemma_compressed_fits(save@.lua_state);
            lemma_reparse_v16(save@);
        }
    }
    Ok(contents)
}

/// Encodes a version-17 container, as [`write_v16`] but with the opaque
/// padding, which must be exactly its 12 wire bytes.
#[verifier::rlimit(100)]
pub fn write_v17(save: &HadesSaveV17) -> (r: Result<Vec<u8>, SaveError>)
    ensures
        r is Ok <==> v17_encodable(save@),
        (r matches Ok(out) ==> out@ == spec_write_v17(save@)
            && out@.subrange(4, 8) == spec_u32_to_le_bytes(adler32_of(out@.skip(8)))
            && (save@.lua_state.len() <= 9388032 && probe_exact(save@.lua_state)
                ==> spec_read(out@) == Some(SaveModel::V17(save@)))),
        (r matches Err(e) ==> e matches SaveError::Caller { .. }),
{
    if save.padding1.len() != 12 {
        return Err(SaveError::Caller { what: "padding must be exactly 12 bytes" });
    }
    if save.lua_keys.len() > (u32::MAX as usize) {
        return Err(SaveError::Caller { what: "more key names than the count prefix allows" });
    }
    if save.lua_state.len() > LZ4_MAX_INPUT {
        return Err(SaveError::Caller { what: "state blob longer than the compressor accepts" });
    }
    let mut body: Vec<u8> = Vec::new();
    crate::write::u32(&mut body, 17);
    proof {
        assert(body@ =~= spec_u32_to_le_bytes(17u32));
    }
    crate::write::u64(&mut body, save.timestamp);
    match write_string(&mut body, &save.location) {
        Ok(()) => {},
        Err(e) => {
            return Err(e);
        },
    }
    crate::write::bytes(&mut body, save.padding1.as_slice());
    crate::write::u32(&mut body, save.runs);
    crate::write::byte(&mut body, if save.god_mode_enabled { 1 } else { 0 });
    crate::write::byte(&mut body, if save.hell_mode_enabled { 1 } else { 0 });
    crate::write::u32(&mut body, save.lua_keys.len() as u32);
    match write_keys(&mut body, &save.lua_keys) {
        Ok(()) => {},
        Err(e) => {
            return Err(e);
        },
    }
    match write_string(&mut body, &save.current_map_name) {
        Ok(()) => {},
        Err(e) => {
            return Err(e);
        },
    }
    match write_string(&mut body, &save.start_next_map) {
        Ok(()) => {},
        Err(e) => {
            return Err(e);
        },
    }
    let blob = lz4_compress(&save.lua_state);
    proof {
        lemma_compressed_fits(save@.lua_state);
    }
    crate::write::u32(&mut body, blob.len() as u32);
    crate::write::bytes(&mut body, blob.as_slice());
    proof {
        assert(body@ == spec_write_v17_body(save@));
    }
    let ghost spec_body = spec_write_v17_body(save@);
    let checksum = adler32_from(&body, 0);
    let mut contents: Vec<u8> = Vec::new();
    crate::write::byte(&mut contents, 0x53);
    crate::write::byte(&mut contents, 0x47);
    crate::write::byte(&mut contents, 0x42);
    crate::write::byte(&mut contents, 0x31);
    crate::write::u32(&mut contents, checksum);
    crate::write::bytes(&mut contents, body.as_slice());
    proof {
        vstd::bytes::lemma_auto_spec_u32_to_from_le_bytes();
        assert(body@.skip(0) =~= body@);
        assert(checksum == adler32_of(spec_body));
        assert(contents@ =~= spec_signature() + spec_u32_to_le_bytes(checksum) + body@);
        assert(spec_write_v17(save@)
            == spec_signature() + spec_u32_to_le_bytes(checksum) + body@);
        assert(contents@.subrange(4, 8) =~= spec_u32_to_le_bytes(checksum));
        assert(contents@.skip(8) =~= body@);
        if save@.lua_state.len() <= 9388032 && probe_exact(save@.lua_state) {
            lemma_compressed_fits(save@.lua_state);
            lemma_reparse_v17(save@);
        }
    }
    Ok(contents)
}

/// The compressed form of an acceptable input fits a 4-byte length prefix.
proof fn lemma_compressed_fits(data: Seq<u8>)
    requires
        data.len() <= LZ4_MAX_INPUT,
        lz4_block_compress(data).len() <= data.len() + data.len() / 255 + 16,
    ensures
        lz4_block_compress(data).len() <= u32::MAX,
{
    assert(data.len() / 255 <= LZ4_MAX_INPUT as int / 255) by {
        vstd::arithmetic::div_mod::lemma_div_is_ordered(
            data.len() as int, LZ4_MAX_INPUT as int, 255);
    }
}

/// What a container encodes as, by version.
pub open spec fn spec_write_save(m: SaveModel) -> Seq<u8> {
    match m {
        SaveModel::V16(s) => spec_write_v16(s),
        SaveModel::V17(s) => spec_write_v17(s),
    }
}

/// When a container can be encoded, by version.
pub open spec fn save_encodable(m: SaveModel) -> bool {
    match m {
        SaveModel::V16(s) => v16_encodable(s),
        SaveModel::V17(s) => v17_encodable(s),
    }
}

/// Encodes a save container, dispatching on its version.
pub fn write(save: &HadesSave) -> (r: Result<Vec<u8>, SaveError>)
    ensures
        r is Ok <==> save_encodable(save@),
        (r matches Ok(out) ==> out@ == spec_write_save(save@)
            && out@.subrange(4, 8) == spec_u32_to_le_bytes(adler32_of(out@.skip(8)))
            && (match save@ {
                SaveModel::V16(s) => s.lua_state.len() <= 9388032
                    ==> spec_read(out@) == Some(SaveModel::V16(s)),
                SaveModel::V17(s) => s.lua_state.len() <= 9388032 && probe_exact(s.lua_state)
                    ==> spec_read(out@) == Some(SaveModel::V17(s)),
            })),
        (r matches Err(e) ==> e matches SaveError::Caller { .. }),
{
    match save {
        HadesSave::V16(s) => write_v16(s),
        HadesSave::V17(s) => write_v17(s),
    }
}

/// A window of a sequence equal to a known block has the block's windows.
proof fn lemma_subrange_of_eq(b: Seq<u8>, pos: int, block: Seq<u8>, a: int, c: int)
    requires
        0 <= pos,
        pos + block.len() <= b.len(),
        b.subrange(pos, pos + block.len()) == block,
        0 <= a <= c <= block.len(),
    ensures
        b.subrange(pos + a, pos + c) == block.subrange(a, c),
{
    assert forall|i: int| 0 <= i < c - a implies b.subrange(pos + a, pos + c)[i]
        == block.subrange(a, c)[i] by {
        assert(b.subrange(pos, pos + block.len())[a + i] == block[a + i]);
    }
    assert(b.subrange(pos + a, pos + c) =~= block.subrange(a, c));
}

/// A text field written at `pos` reads back as the same characters.
proof fn lemma_read_string_block(b: Seq<u8>, pos: int, s: Seq<char>)
    requires
        0 <= pos,
        encode_utf8(s).len() <= u32::MAX,
        pos + spec_string_block(s).len() <= b.len(),
        b.subrange(pos, pos + spec_string_block(s).len()) == spec_string_block(s),
    ensures
        spec_read_string(b, pos) == Some((s, pos + spec_string_block(s).len())),
{
    vstd::bytes::lemma_auto_spec_u32_to_from_le_bytes();
    let enc = encode_utf8(s);
    let blk = spec_string_block(s);
    lemma_subrange_of_eq(b, pos, blk, 0, 4);
    assert(blk.subrange(0, 4) =~= spec_u32_to_le_bytes(enc.len() as u32));
    assert(spec_u32_from_le_bytes(b.subrange(pos, pos + 4)) == enc.len());
    lemma_subrange_of_eq(b, pos, blk, 4, blk.len() as int);
    assert(blk.subrange(4, blk.len() as int) =~= enc);
    vstd::utf8::encode_utf8_valid_utf8(s);
    vstd::utf8::encode_utf8_decode_utf8(s);
}

/// A key-name list written at `pos` reads back as the same names.
proof fn lemma_read_keys_blocks(b: Seq<u8>, pos: int, keys: Seq<Seq<char>>, acc: Seq<Seq<char>>)
    requires
        0 <= pos,
        pos + spec_keys_blocks(keys).len() <= b.len(),
        b.subrange(pos, pos + spec_keys_blocks(keys).len()) == spec_keys_blocks(keys),
        forall|i: int| 0 <= i < keys.len() ==> encode_utf8(#[trigger] keys[i]).len() <= u32::MAX,
    ensures
        spec_read_keys(b, pos, keys.len() as int, acc)
            == Some((acc + keys, pos + spec_keys_blocks(keys).len())),
    decreases keys.len(),
{
    if keys.len() == 0 {
        assert(acc + keys =~= acc);
    } else {
        let blk = spec_string_block(keys[0]);
        let restk = keys.subrange(1, keys.len() as int);
        let whole = spec_keys_blocks(keys);
        assert(whole == blk + spec_keys_blocks(restk));
        lemma_subrange_of_eq(b, pos, whole, 0, blk.len() as int);
        assert(whole.subrange(0, blk.len() as int) =~= blk);
        lemma_read_string_block(b, pos, keys[0]);
        lemma_subrange_of_eq(b, pos, whole, blk.len() as int, whole.len() as int);
        assert(whole.subrange(blk.len() as int, whole.len() as int) =~= spec_keys_blocks(restk));
        assert(forall|i: int| 0 <= i < restk.len() ==> restk[i] == keys[i + 1]);
        lemma_read_keys_blocks(b, pos + blk.len(), restk, acc.push(keys[0]));
        assert(acc.push(keys[0]) + restk =~= acc + keys);
    }
}

/// Whether the state codec's dry-run probe over these exact bytes reports
/// their whole length: the stream carries no trailing padding.
pub open spec fn probe_exact(state: Seq<u8>) -> bool {
    match luabins::spec_load(state) {
        Some((_, n)) => n == state.len(),
        None => false,
    }
}

/// Re-decoding an encoded version-16 container yields the same fields,
/// given the compressed blob decompresses back at the version's capacity.
#[verifier::rlimit(100)]
proof fn lemma_reparse_v16(s: SaveModelV16)
    requires
        v16_encodable(s),
        lz4_block_compress(s.lua_state).len() <= u32::MAX,
        lz4_block_decompress(lz4_block_compress(s.lua_state), 9388032) == Some(s.lua_state),
    ensures
        spec_read(spec_write_v16(s)) == Some(SaveModel::V16(s)),
{
    vstd::bytes::lemma_auto_spec_u32_to_from_le_bytes();
    vstd::bytes::lemma_auto_spec_u64_to_from_le_bytes();
    let out = spec_write_v16(s);
    let lb = spec_string_block(s.location);
    let kb = spec_keys_blocks(s.lua_keys);
    let cb = spec_string_block(s.current_map_name);
    let nb = spec_string_block(s.start_next_map);
    let blob = lz4_block_compress(s.lua_state);
    let p1 = 20 + lb.len() as int;
    let p2 = p1 + 18 + kb.len() as int;
    let p3 = p2 + cb.len() as int;
    let p4 = p3 + nb.len() as int;
    assert(out.len() == p4 + 4 + blob.len());
    assert(out.subrange(0, 4) =~= spec_signature());
    assert(out.subrange(8, 12) =~= spec_u32_to_le_bytes(16u32));
    assert(out.subrange(12, 20) =~= spec_u64_to_le_bytes(s.timestamp));
    assert(out.subrange(20, p1) =~= lb);
    lemma_read_string_block(out, 20, s.location);
    assert(out.subrange(p1, p1 + 4) =~= spec_u32_to_le_bytes(s.runs));
    assert(out.subrange(p1 + 4, p1 + 8) =~= spec_u32_to_le_bytes(s.active_meta_points));
    assert(out.subrange(p1 + 8, p1 + 12) =~= spec_u32_to_le_bytes(s.active_shrine_points));
    assert(out[p1 + 12] == spec_bool_byte(s.god_mode_enabled));
    assert(out[p1 + 13] == spec_bool_byte(s.hell_mode_enabled));
    assert((out[p1 + 12] != 0) == s.god_mode_enabled);
    assert((out[p1 + 13] != 0) == s.hell_mode_enabled);
    assert(out.subrange(p1 + 14, p1 + 18) =~= spec_u32_to_le_bytes(s.lua_keys.len() as u32));
    assert(out.subrange(p1 + 18, p2) =~= kb);
    lemma_read_keys_blocks(out, p1 + 18, s.lua_keys, Seq::empty());
    assert(Seq::<Seq<char>>::empty() + s.lua_keys =~= s.lua_keys);
    assert(out.subrange(p2, p3) =~= cb);
    lemma_read_string_block(out, p2, s.current_map_name);
    assert(out.subrange(p3, p4) =~= nb);
    lemma_read_string_block(out, p3, s.start_next_map);
    assert(out.subrange(p4, p4 + 4) =~= spec_u32_to_le_bytes(blob.len() as u32));
    assert(out.subrange(p4 + 4, p4 + 4 + blob.len() as int) =~= blob);
    let parsed = spec_read_v16(out, 12);
    assert(parsed == Some(SaveModelV16 {
        timestamp: s.timestamp,
        location: s.location,
        runs: s.runs,
        active_meta_points: s.active_meta_points,
        active_shrine_points: s.active_shrine_points,
        god_mode_enabled: s.god_mode_enabled,
        hell_mode_enabled: s.hell_mode_enabled,
        lua_keys: s.lua_keys,
        current_map_name: s.current_map_name,
        start_next_map: s.start_next_map,
        lua_state: s.lua_state,
    }));
}

/// Re-decoding an encoded version-17 container yields the same fields,
/// given the blob decompresses back and the state carries no padding the
/// probe would trim.
#[verifier::rlimit(100)]
proof fn lemma_reparse_v17(s: SaveModelV17)
    requires
        v17_encodable(s),
        lz4_block_compress(s.lua_state).len() <= u32::MAX,
        lz4_block_decompress(lz4_block_compress(s.lua_state), 9388032) == Some(s.lua_state),
        probe_exact(s.lua_state),
    ensures
        spec_read(spec_write_v17(s)) == Some(SaveModel::V17(s)),
{
    vstd::bytes::lemma_auto_spec_u32_to_from_le_bytes();
    vstd::bytes::lemma_auto_spec_u64_to_from_le_bytes();
    let out = spec_write_v17(s);
    let lb = spec_string_block(s.location);
    let kb = spec_keys_blocks(s.lua_keys);
    let cb = spec_string_block(s.current_map_name);
    let nb = spec_string_block(s.start_next_map);
    let blob = lz4_block_compress(s.lua_state);
    let p1 = 20 + lb.len() as int;
    let p2 = p1 + 22 + kb.len() as int;
    let p3 = p2 + cb.len() as int;
    let p4 = p3 + nb.len() as int;
    assert(out.len() == p4 + 4 + blob.len());
    assert(out.subrange(0, 4) =~= spec_signature());
    assert(out.subrange(8, 12) =~= spec_u32_to_le_bytes(17u32));
    assert(out.subrange(12, 20) =~= spec_u64_to_le_bytes(s.timestamp));
    assert(out.subrange(20, p1) =~= lb);
    lemma_read_string_block(out, 20, s.location);
    assert(out.subrange(p1, p1 + 12) =~= s.padding1);
    assert(out.subrange(p1 + 12, p1 + 16) =~= spec_u32_to_le_bytes(s.runs));
    assert(out[p1 + 16] == spec_bool_byte(s.god_mode_enabled));
    assert(out[p1 + 17] == spec_bool_byte(s.hell_mode_enabled));
    assert((out[p1 + 16] != 0) == s.god_mode_enabled);
    assert((out[p1 + 17] != 0) == s.hell_mode_enabled);
    assert(out.subrange(p1 + 18, p1 + 22) =~= spec_u32_to_le_bytes(s.lua_keys.len() as u32));
    assert(out.subrange(p1 + 22, p2) =~= kb);
    lemma_read_keys_blocks(out, p1 + 22, s.lua_keys, Seq::empty());
    assert(Seq::<Seq<char>>::empty() + s.lua_keys =~= s.lua_keys);
    assert(out.subrange(p2, p3) =~= cb);
    lemma_read_string_block(out, p2, s.current_map_name);
    assert(out.subrange(p3, p4) =~= nb);
    lemma_read_string_block(out, p3, s.start_next_map);
    assert(out.subrange(p4, p4 + 4) =~= spec_u32_to_le_bytes(blob.len() as u32));
    assert(out.subrange(p4 + 4, p4 + 4 + blob.len() as int) =~= blob);
    let n = luabins::spec_load(s.lua_state)->Some_0.1;
    assert(s.lua_state.take(n) =~= s.lua_state);
    let parsed = spec_read_v17(out, 12);
    assert(parsed == Some(SaveModelV17 {
        timestamp: s.timestamp,
        location: s.location,
        padding1: s.padding1,
        runs: s.runs,
        god_mode_enabled: s.god_mode_enabled,
        hell_mode_enabled: s.hell_mode_enabled,
        lua_keys: s.lua_keys,
        current_map_name: s.current_map_name,
        start_next_map: s.start_next_map,
        lua_state: s.lua_state,
    }));
}

/// Which kind of error a failing container decode reports.
pub enum FaultKind {
    /// Bytes ran out mid-field.
    Truncation,
    /// A text field held invalid UTF-8.
    Encoding,
    /// The compressed blob was malformed or oversized.
    Compression,
    /// A bad signature, an unsupported version, or — while probing the
    /// decompressed state — an unrecognized value tag.
    Format,
}

/// Whether an error value is of the given kind.
pub open spec fn fault_matches(e: SaveError, k: FaultKind) -> bool {
    match k {
        FaultKind::Truncation => e matches SaveError::Truncation { .. },
        FaultKind::Encoding => e matches SaveError::Encoding { .. },
        FaultKind::Compression => e matches SaveError::Compression,
        FaultKind::Format => e matches SaveError::Format { .. },
    }
}

/// Why a failing text-field decode fails: missing bytes, or invalid UTF-8.
pub open spec fn spec_read_string_fault(b: Seq<u8>, pos: int) -> FaultKind {
    if pos + 4 > b.len() {
        FaultKind::Truncation
    } else {
        let len = spec_u32_from_le_bytes(b.subrange(pos, pos + 4)) as int;
        if pos + 4 + len > b.len() {
            FaultKind::Truncation
        } else {
            FaultKind::Encoding
        }
    }
}

/// Why a failing key-list decode fails: the first failing text field's kind.
pub open spec fn spec_read_keys_fault(b: Seq<u8>, pos: int, count: int) -> FaultKind
    decreases (if count > 0 { count } else { 0 }),
{
    if count <= 0 {
        FaultKind::Truncation
    } else {
        match spec_read_string(b, pos) {
            None => spec_read_string_fault(b, pos),
            Some((_, p)) => spec_read_keys_fault(b, p, count - 1),
        }
    }
}

/// Why a failing version-16 field decode fails, walking the fields in order.
pub open spec fn spec_read_v16_fault(b: Seq<u8>, pos: int) -> FaultKind {
    if pos + 8 > b.len() {
        FaultKind::Truncation
    } else {
        match spec_read_string(b, pos + 8) {
            None => spec_read_string_fault(b, pos + 8),
            Some((_, p1)) => if p1 + 18 > b.len() {
                FaultKind::Truncation
            } else {
                let nkeys = spec_u32_from_le_bytes(b.subrange(p1 + 14, p1 + 18)) as int;
                match spec_read_keys(b, p1 + 18, nkeys, Seq::empty()) {
                    None => spec_read_keys_fault(b, p1 + 18, nkeys),
                    Some((_, p2)) => match spec_read_string(b, p2) {
                        None => spec_read_string_fault(b, p2),
                        Some((_, p3)) => match spec_read_string(b, p3) {
                            None => spec_read_string_fault(b, p3),
                            Some((_, p4)) => if p4 + 4 > b.len() {
                                FaultKind::Truncation
                            } else {
                                let bloblen = spec_u32_from_le_bytes(b.subrange(p4, p4 + 4)) as int;
                                if p4 + 4 + bloblen > b.len() {
                                    FaultKind::Truncation
                                } else {
                                    FaultKind::Compression
                                }
                            },
                        },
                    },
                }
            },
        }
    }
}

/// Why a failing version-17 field decode fails, walking the fields in order;
/// a failing dry-run probe of the decompressed state reports the state
/// codec's own kind.
pub open spec fn spec_read_v17_fault(b: Seq<u8>, pos: int) -> FaultKind {
    if pos + 8 > b.len() {
        FaultKind::Truncation
    } else {
        match spec_read_string(b, pos + 8) {
            None => spec_read_string_fault(b, pos + 8),
            Some((_, p1)) => if p1 + 22 > b.len() {
                FaultKind::Truncation
            } else {
                let nkeys = spec_u32_from_le_bytes(b.subrange(p1 + 18, p1 + 22)) as int;
                match spec_read_keys(b, p1 + 22, nkeys, Seq::empty()) {
                    None => spec_read_keys_fault(b, p1 + 22, nkeys),
                    Some((_, p2)) => match spec_read_string(b, p2) {
                        None => spec_read_string_fault(b, p2),
                        Some((_, p3)) => match spec_read_string(b, p3) {
                            None => spec_read_string_fault(b, p3),
                            Some((_, p4)) => if p4 + 4 > b.len() {
                                FaultKind::Truncation
                            } else {
                                let bloblen = spec_u32_from_le_bytes(b.subrange(p4, p4 + 4)) as int;
                                if p4 + 4 + bloblen > b.len() {
                                    FaultKind::Truncation
                                } else {
                                    let blob = b.subrange(p4 + 4, p4 + 4 + bloblen);
                                    match lz4_block_decompress(blob, 9388032) {
                                        None => FaultKind::Compression,
                                        Some(full) => if luabins::spec_load_tag_fault(full) {
                                            FaultKind::Format
                                        } else {
                                            FaultKind::Truncation
                                        },
                                    }
                                }
                            },
                        },
                    },
                }
            },
        }
    }
}

/// Why a failing container decode fails.
pub open spec fn spec_read_fault(b: Seq<u8>) -> FaultKind {
    if b.len() < 4 {
        FaultKind::Truncation
    } else if b.subrange(0, 4) != spec_signature() {
        FaultKind::Format
    } else if b.len() < 12 {
        FaultKind::Truncation
    } else {
        let version = spec_u32_from_le_bytes(b.subrange(8, 12));
        if version == 16 {
            spec_read_v16_fault(b, 12)
        } else if version == 17 {
            spec_read_v17_fault(b, 12)
        } else {
            FaultKind::Format
        }
    }
}

} // verus!
