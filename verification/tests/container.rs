use hadessaveeditor::error::SaveError;
use hadessaveeditor::hadesfile::{self, HadesSave, HadesSaveV16, HadesSaveV17};
use hadessaveeditor::luabins;
use hadessaveeditor::save;
use hadessaveeditor::value::LuaValue;

fn sample_state() -> Vec<u8> {
    let values = vec![
        LuaValue::Table(vec![
            (LuaValue::Str(b"GameState".to_vec()), LuaValue::Table(vec![
                (LuaValue::Str(b"Gold".to_vec()), LuaValue::Integer(120)),
                (LuaValue::Str(b"Ratio".to_vec()), LuaValue::Number(0.75f64.to_bits())),
            ])),
        ]),
    ];
    let mut bytes: Vec<u8> = Vec::new();
    luabins::save(&mut bytes, &values).expect("encode state");
    bytes
}

fn sample_v16() -> HadesSaveV16 {
    HadesSaveV16 {
        timestamp: 1234567890,
        location: String::from("Tartarus"),
        runs: 42,
        active_meta_points: 777,
        active_shrine_points: 3,
        god_mode_enabled: true,
        hell_mode_enabled: false,
        lua_keys: vec![String::from("GameState"), String::from("CurrentRun")],
        current_map_name: String::from("RoomOpening"),
        start_next_map: String::from("RoomSimple01"),
        lua_state: sample_state(),
    }
}

fn sample_v17() -> HadesSaveV17 {
    HadesSaveV17 {
        timestamp: 9876543210,
        location: String::from("Erebus-Ω"),
        padding1: vec![0xab; 12],
        runs: 7,
        god_mode_enabled: false,
        hell_mode_enabled: true,
        lua_keys: vec![String::from("GameState")],
        current_map_name: String::from("Hub_Main"),
        start_next_map: String::from("F_Opening01"),
        lua_state: sample_state(),
    }
}

#[test]
fn v16_container_roundtrips() {
    let save = sample_v16();
    let out = hadesfile::write_v16(&save).expect("encode");
    let back = hadesfile::read_v16(&out[12..], 0).expect("decode fields");
    assert_eq!(back.timestamp, save.timestamp);
    assert_eq!(back.location, save.location);
    assert_eq!(back.runs, save.runs);
    assert_eq!(back.active_meta_points, save.active_meta_points);
    assert_eq!(back.active_shrine_points, save.active_shrine_points);
    assert_eq!(back.god_mode_enabled, save.god_mode_enabled);
    assert_eq!(back.hell_mode_enabled, save.hell_mode_enabled);
    assert_eq!(back.lua_keys, save.lua_keys);
    assert_eq!(back.current_map_name, save.current_map_name);
    assert_eq!(back.start_next_map, save.start_next_map);
    assert_eq!(back.lua_state, save.lua_state);
}

#[test]
fn container_roundtrips_through_the_top_level_entry_points() {
    let save = sample_v16();
    let out = hadesfile::write(&HadesSave::V16(save)).expect("encode");
    assert_eq!(&out[0..4], b"SGB1");
    assert_eq!(&out[8..12], &16u32.to_le_bytes());
    match hadesfile::read(&out).expect("decode") {
        HadesSave::V16(back) => {
            let again = sample_v16();
            assert_eq!(back.timestamp, again.timestamp);
            assert_eq!(back.location, again.location);
            assert_eq!(back.lua_state, again.lua_state);
        },
        HadesSave::V17(_) => panic!("wrong version decoded"),
    }
}

#[test]
fn reencoded_checksum_is_internally_consistent() {
    let save = sample_v16();
    let out = hadesfile::write_v16(&save).expect("encode");
    let stored = u32::from_le_bytes([out[4], out[5], out[6], out[7]]);
    let independent = adler32::adler32(&out[8..]).expect("checksum");
    assert_eq!(stored, independent);
    // The checksum is not a constant of the encoder: another save differs.
    let mut other = sample_v16();
    other.runs = 43;
    let out2 = hadesfile::write_v16(&other).expect("encode");
    let stored2 = u32::from_le_bytes([out2[4], out2[5], out2[6], out2[7]]);
    assert_ne!(stored, stored2);
}

#[test]
fn v17_container_roundtrips() {
    let save = sample_v17();
    let out = hadesfile::write_v17(&save).expect("encode");
    assert_eq!(&out[8..12], &17u32.to_le_bytes());
    match hadesfile::read(&out).expect("decode") {
        HadesSave::V17(back) => {
            assert_eq!(back.timestamp, save.timestamp);
            assert_eq!(back.location, save.location);
            assert_eq!(back.padding1, save.padding1);
            assert_eq!(back.runs, save.runs);
            assert_eq!(back.god_mode_enabled, save.god_mode_enabled);
            assert_eq!(back.hell_mode_enabled, save.hell_mode_enabled);
            assert_eq!(back.lua_keys, save.lua_keys);
            assert_eq!(back.current_map_name, save.current_map_name);
            assert_eq!(back.start_next_map, save.start_next_map);
            assert_eq!(back.lua_state, save.lua_state);
        },
        HadesSave::V16(_) => panic!("wrong version decoded"),
    }
}

#[test]
fn v17_decode_trims_decompression_padding() {
    // The game pads the decompressed buffer; the true payload length comes
    // from walking the grammar. Pad the state, compress by hand, and check
    // the decoder trims exactly.
    let payload = sample_state();
    let mut padded = payload.clone();
    padded.extend_from_slice(&vec![0u8; 4096]);
    let mut save = sample_v17();
    save.lua_state = padded;
    let out = hadesfile::write_v17(&save).expect("encode");
    match hadesfile::read(&out).expect("decode") {
        HadesSave::V17(back) => assert_eq!(back.lua_state, payload),
        HadesSave::V16(_) => panic!("wrong version decoded"),
    }
}

#[test]
fn v16_decode_keeps_decompression_padding() {
    // The older version hands the whole decompressed buffer through; the
    // trailing padding stays. An inherited quirk, kept deliberately.
    let payload = sample_state();
    let mut padded = payload.clone();
    padded.extend_from_slice(&vec![0u8; 4096]);
    let mut save = sample_v16();
    save.lua_state = padded.clone();
    let out = hadesfile::write_v16(&save).expect("encode");
    let back = match hadesfile::read(&out).expect("decode") {
        HadesSave::V16(b) => b,
        HadesSave::V17(_) => panic!("wrong version decoded"),
    };
    assert_eq!(back.lua_state, padded);
}

#[test]
fn bad_signature_is_a_format_error() {
    let mut out = hadesfile::write_v16(&sample_v16()).expect("encode");
    out[0] = b'X';
    assert!(matches!(hadesfile::read(&out), Err(SaveError::Format { .. })));
}

#[test]
fn unsupported_version_is_a_format_error() {
    // Version 99 fails decode before any field past the version is touched.
    let mut bytes: Vec<u8> = Vec::new();
    bytes.extend_from_slice(b"SGB1");
    bytes.extend_from_slice(&0u32.to_le_bytes());
    bytes.extend_from_slice(&99u32.to_le_bytes());
    assert!(matches!(hadesfile::read(&bytes), Err(SaveError::Format { .. })));
}

#[test]
fn stored_checksum_is_not_verified_on_decode() {
    // Decode carries the checksum through opaquely: corrupting it must not
    // fail the read. An inherited quirk, kept deliberately.
    let mut out = hadesfile::write_v16(&sample_v16()).expect("encode");
    out[4] ^= 0xff;
    assert!(hadesfile::read(&out).is_ok());
}

#[test]
fn truncated_container_reports_the_field() {
    let out = hadesfile::write_v16(&sample_v16()).expect("encode");
    match hadesfile::read(&out[..13]) {
        Err(SaveError::Truncation { needed, available, .. }) => {
            assert_eq!(needed, 8);
            assert_eq!(available, 1);
        },
        other => panic!("expected truncation, got {:?}", other.map(|_| ())),
    }
    match hadesfile::read(&out[..2]) {
        Err(SaveError::Truncation { needed, available, .. }) => {
            assert_eq!(needed, 4);
            assert_eq!(available, 2);
        },
        other => panic!("expected truncation, got {:?}", other.map(|_| ())),
    }
}

#[test]
fn invalid_utf8_location_is_an_encoding_error() {
    let out = hadesfile::write_v16(&sample_v16()).expect("encode");
    let mut bytes = out.clone();
    // The location field starts at offset 20 with its 4-byte length; its
    // first byte sits at offset 24. 0xff never starts a UTF-8 sequence.
    bytes[24] = 0xff;
    assert!(matches!(hadesfile::read(&bytes), Err(SaveError::Encoding { .. })));
}

#[test]
fn corrupt_blob_is_a_compression_error() {
    let save = sample_v16();
    let out = hadesfile::write_v16(&save).expect("encode");
    let blob_len = lz4::block::compress(&save.lua_state, None, false).expect("compress").len();
    let mut bytes = out.clone();
    let n = bytes.len();
    // Zero the whole compressed blob: the first sequence then asks for a
    // match at offset zero, which no LZ4 block may contain.
    for b in bytes[n - blob_len..].iter_mut() {
        *b = 0;
    }
    assert!(matches!(hadesfile::read(&bytes), Err(SaveError::Compression)));
}

#[test]
fn wrong_padding_length_is_a_caller_error() {
    let mut save = sample_v17();
    save.padding1 = vec![0; 11];
    assert!(matches!(hadesfile::write_v17(&save), Err(SaveError::Caller { .. })));
}

#[test]
fn compression_roundtrips_through_the_real_compressor() {
    // The blob inside an encoded container is a real LZ4 block: decompress
    // it independently and compare with the state that went in.
    let save = sample_v16();
    let out = hadesfile::write_v16(&save).expect("encode");
    let raw = save::read(&out).expect("raw decode");
    let blob = raw.lua_state_lz4;
    let state = lz4::block::decompress(&blob, Some(9388032)).expect("decompress");
    assert_eq!(state, save.lua_state);
}

#[test]
fn legacy_reader_extracts_fields_without_decompressing() {
    let save = sample_v16();
    let out = hadesfile::write_v16(&save).expect("encode");
    let raw = save::read(&out).expect("raw decode");
    assert_eq!(raw.version, 16);
    assert_eq!(raw.timestamp, save.timestamp);
    assert_eq!(raw.location, save.location);
    assert_eq!(raw.runs, save.runs);
    assert_eq!(raw.active_meta_points, save.active_meta_points);
    assert_eq!(raw.active_shrine_points, save.active_shrine_points);
    assert_eq!(raw.god_mode_enabled, save.god_mode_enabled);
    assert_eq!(raw.hell_mode_enabled, save.hell_mode_enabled);
    assert_eq!(raw.lua_keys, save.lua_keys);
    assert_eq!(raw.current_map_name, save.current_map_name);
    assert_eq!(raw.start_next_map, save.start_next_map);
    // The blob stays compressed: it differs from the raw state.
    assert_ne!(raw.lua_state_lz4, save.lua_state);
}

#[test]
fn legacy_reader_rejects_other_versions() {
    let save = sample_v17();
    let out = hadesfile::write_v17(&save).expect("encode");
    assert!(matches!(save::read(&out), Err(SaveError::Format { .. })));
}

#[test]
fn many_key_names_roundtrip() {
    let mut save = sample_v16();
    save.lua_keys = (0..300).map(|i| format!("Key{}", i)).collect();
    let out = hadesfile::write_v16(&save).expect("encode");
    match hadesfile::read(&out).expect("decode") {
        HadesSave::V16(back) => assert_eq!(back.lua_keys, save.lua_keys),
        HadesSave::V17(_) => panic!("wrong version decoded"),
    }
}
