//! An earlier revision of the container reader that only recognizes
//! version 16 and keeps the state blob compressed: it extracts the fixed
//! fields and the raw blob without decompressing it, and records the version
//! it read.

use vstd::prelude::*;
use vstd::bytes::{spec_u32_from_le_bytes, spec_u64_from_le_bytes};
use vstd::utf8::encode_utf8;

use crate::error::SaveError;
use crate::hadesfile::{fault_matches, spec_read_keys, spec_read_keys_fault, spec_read_string, spec_read_string_fault, spec_signature, strings_view, FaultKind};
use crate::read;

verus! {

/// The fixed decompression capacity the version allows its state blob; this
/// reader leaves the blob compressed, so the capacity is only recorded for
/// whoever decompresses later.
pub trait UncompressedSize {
    /// The capacity, fixed per version.
    const UNCOMPRESSED_SIZE: i32;
}

/// The fixed fields of a version-16 container with its state blob still
/// compressed.
pub struct HadesSaveV16 {
    pub version: u32,
    pub timestamp: u64,
    pub location: String,
    pub runs: u32,
    pub active_meta_points: u32,
    pub active_shrine_points: u32,
    pub god_mode_enabled: bool,
    pub hell_mode_enabled: bool,
    pub lua_keys: Vec<String>,
    pub current_map_name: String,
    pub start_next_map: String,
    pub lua_state_lz4: Vec<u8>,
}

impl UncompressedSize for HadesSaveV16 {
    const UNCOMPRESSED_SIZE: i32 = 9388032;
}

/// The model of the raw version-16 container.
pub struct RawSaveModelV16 {
    pub version: u32,
    pub timestamp: u64,
    pub location: Seq<char>,
    pub runs: u32,
    pub active_meta_points: u32,
    pub active_shrine_points: u32,
    pub god_mode_enabled: bool,
    pub hell_mode_enabled: bool,
    pub lua_keys: Seq<Seq<char>>,
    pub current_map_name: Seq<char>,
    pub start_next_map: Seq<char>,
    pub lua_state_lz4: Seq<u8>,
}

impl View for HadesSaveV16 {
    type V = RawSaveModelV16;

    open spec fn view(&self) -> RawSaveModelV16 {
        RawSaveModelV16 {
            version: self.version,
            timestamp: self.timestamp,
            location: self.location@,
            runs: self.runs,
            active_meta_points: self.active_meta_points,
            active_shrine_points: self.active_shrine_points,
            god_mode_enabled: self.god_mode_enabled,
            hell_mode_enabled: self.hell_mode_enabled,
            lua_keys: strings_view(self.lua_keys@),
            current_map_name: self.current_map_name@,
            start_next_map: self.start_next_map@,
            lua_state_lz4: self.lua_state_lz4@,
        }
    }
}

/// Decoding a raw version-16 container: the signature must match, the
/// checksum is skipped, the version must be exactly 16, and the state blob
/// is taken as its raw compressed bytes.
pub open spec fn spec_read_raw_v16(b: Seq<u8>) -> Option<RawSaveModelV16> {
    if b.len() < 12 {
        None
    } else if b.subrange(0, 4) != spec_signature() {
        None
    } else if spec_u32_from_le_bytes(b.subrange(8, 12)) != 16 {
        None
    } else if b.len() < 20 {
        None
    } else {
        let timestamp = spec_u64_from_le_bytes(b.subrange(12, 20));
        match spec_read_string(b, 20) {
            None => None,
            Some((location, p1)) => if p1 + 18 > b.len() {
                None
            } else {
                let runs = spec_u32_from_le_bytes(b.subrange(p1, p1 + 4));
                let amp = spec_u32_from_le_bytes(b.subrange(p1 + 4, p1 + 8));
                let asp = spec_u32_from_le_bytes(b.subrange(p1 + 8, p1 + 12));
                let god = b[p1 + 12] != 0;
                let hell = b[p1 + 13] != 0;
                let nkeys = spec_u32_from_le_bytes(b.subrange(p1 + 14, p1 + 18)) as int;
                match spec_read_keys(b, p1 + 18, nkeys, Seq::empty()) {
                    None => None,
                    Some((keys, p2)) => match spec_read_string(b, p2) {
                        None => None,
                        Some((current_map, p3)) => match spec_read_string(b, p3) {
                            None => None,
                            Some((next_map, p4)) => if p4 + 4 > b.len() {
                                None
                            } else {
                                let bloblen = spec_u32_from_le_bytes(b.subrange(p4, p4 + 4)) as int;
                                if p4 + 4 + bloblen > b.len() {
                                    None
                                } else {
                                    Some(RawSaveModelV16 {
                                        version: 16,
                                        timestamp,
                                        location,
                                        runs,
                                        active_meta_points: amp,
                                        active_shrine_points: asp,
                                        god_mode_enabled: god,
                                        hell_mode_enabled: hell,
                                        lua_keys: keys,
                                        current_map_name: current_map,
                                        start_next_map: next_map,
                                        lua_state_lz4: b.subrange(p4 + 4, p4 + 4 + bloblen),
                                    })
                                }
                            },
                        },
                    },
                }
            },
        }
    }
}

/// Why a failing raw container decode fails.
pub open spec fn spec_read_raw_v16_fault(b: Seq<u8>) -> FaultKind {
    if b.len() < 4 {
        FaultKind::Truncation
    } else if b.subrange(0, 4) != spec_signature() {
        FaultKind::Format
    } else if b.len() < 12 {
        FaultKind::Truncation
    } else if spec_u32_from_le_bytes(b.subrange(8, 12)) != 16 {
        FaultKind::Format
    } else if b.len() < 20 {
        FaultKind::Truncation
    } else {
        match spec_read_string(b, 20) {
            None => spec_read_string_fault(b, 20),
            Some((_, p1)) => if p1 + 18 > b.len() {
                FaultKind::Truncation
            } else {
                let nkeys = spec_u32_from_le_bytes(b.subrange(p1 + 14, p1 + 18)) as int;
                match spec_read_keys(b, p1 + 18, nkeys, Seq::empty()) {
                    None => spec_read_keys_fault(b, p1 + 18, nkeys),
                    Some((_, p2)) => match spec_read_string(b, p2) {
                        None => spec_read_string_fault(b, p2),
                        Some((_, p3)) => match spec_read_string(b, p3) {
                            None => spec_read_string_fault(b, p3),
                            Some((_, p4)) => FaultKind::Truncation,
                        },
                    },
                }
            },
        }
    }
}

/// Decodes a raw version-16 container, leaving the state blob compressed.
/// Fails with a format error on a bad signature or any version other
/// than 16; succeeds exactly when the bytes form such a container.
pub fn read(data: &[u8]) -> (r: Result<HadesSaveV16, SaveError>)
    ensures
        (r matches Ok(s) ==> spec_read_raw_v16(data@) == Some(s@)),
        r is Err ==> spec_read_raw_v16(data@) is None,
        (data@.len() >= 4 && data@.subrange(0, 4) != spec_signature()
            ==> (r matches Err(SaveError::Format { .. }))),
        (data@.len() >= 12 && data@.subrange(0, 4) == spec_signature()
            && spec_u32_from_le_bytes(data@.subrange(8, 12)) != 16
            ==> (r matches Err(SaveError::Format { .. }))),
        (r matches Err(e) ==> fault_matches(e, spec_read_raw_v16_fault(data@))),
{
    let (sig, p0) = match read::bytes(data, 0, 4, "signature") {
        Ok(x) => x,
        Err(e) => {
            return Err(e);
        },
    };
    let sig_ok = *vstd::slice::slice_index_get(sig, 0) == 0x53
        && *vstd::slice::slice_index_get(sig, 1) == 0x47
        && *vstd::slice::slice_index_get(sig, 2) == 0x42
        && *vstd::slice::slice_index_get(sig, 3) == 0x31;
    if !sig_ok {
        proof {
            assert(data@.subrange(0, 4) != spec_signature()) by {
                if data@.subrange(0, 4) == spec_signature() {
                    assert(sig@[0] == 0x53u8 && sig@[1] == 0x47u8 && sig@[2] == 0x42u8
                        && sig@[3] == 0x31u8);
                }
            }
        }
        return Err(SaveError::Format { what: "not a recognized save file" });
    }
    proof {
        assert(data@.subrange(0, 4) =~= spec_signature());
    }
    let (_checksum, p1) = match read::bytes(data, p0, 4, "checksum") {
        Ok(x) => x,
        Err(e) => {
            return Err(e);
        },
    };
    let (version, p2) = match read::u32(data, p1, "version") {
        Ok(x) => x,
        Err(e) => {
            return Err(e);
        },
    };
    if version != 16 {
        return Err(SaveError::Format { what: "unknown version" });
    }
    let (timestamp, p3) = match read::u64(data, p2, "timestamp") {
        Ok(x) => x,
        Err(e) => {
            return Err(e);
        },
    };
    let (location, p4) = match crate::hadesfile::read_string(data, p3, "location") {
        Ok(x) => x,
        Err(e) => {
            return Err(e);
        },
    };
    let (runs, p5) = match read::u32(data, p4, "runs") {
        Ok(x) => x,
        Err(e) => {
            return Err(e);
        },
    };
    let (active_meta_points, p6) = match read::u32(data, p5, "active_meta_points") {
        Ok(x) => x,
        Err(e) => {
            return Err(e);
        },
    };
    let (active_shrine_points, p7) = match read::u32(data, p6, "active_shrine_points") {
        Ok(x) => x,
        Err(e) => {
            return Err(e);
        },
    };
    let (godb, p8) = match read::byte(data, p7, "god_mode_enabled") {
        Ok(x) => x,
        Err(e) => {
            return Err(e);
        },
    };
    let (hellb, p9) = match read::byte(data, p8, "hell_mode_enabled") {
        Ok(x) => x,
        Err(e) => {
            return Err(e);
        },
    };
    let (nkeys, p10) = match read::u32(data, p9, "lua_keys size") {
        Ok(x) => x,
        Err(e) => {
            return Err(e);
        },
    };
    let (lua_keys, p11) = match crate::hadesfile::read_keys(data, p10, nkeys) {
        Ok(x) => x,
        Err(e) => {
            return Err(e);
        },
    };
    let (current_map_name, p12) = match crate::hadesfile::read_string(data, p11, "current_map_name") {
        Ok(x) => x,
        Err(e) => {
            return Err(e);
        },
    };
    let (start_next_map, p13) = match crate::hadesfile::read_string(data, p12, "start_next_map") {
        Ok(x) => x,
        Err(e) => {
            return Err(e);
        },
    };
    let (bloblen, p14) = match read::u32(data, p13, "lua_state size") {
        Ok(x) => x,
        Err(e) => {
            return Err(e);
        },
    };
    let (blob, _p15) = match read::bytes(data, p14, bloblen as usize, "lua_state bytes") {
        Ok(x) => x,
        Err(e) => {
            return Err(e);
        },
    };
    Ok(HadesSaveV16 {
        version,
        timestamp,
        location,
        runs,
        active_meta_points,
        active_shrine_points,
        god_mode_enabled: godb != 0,
        hell_mode_enabled: hellb != 0,
        lua_keys,
        current_map_name,
        start_next_map,
        lua_state_lz4: vstd::slice::slice_to_vec(blob),
    })
}

} // verus!
