use hadessaveeditor::error::SaveError;
use hadessaveeditor::luabins;
use hadessaveeditor::number::{classify_number, integer_to_bits};
use hadessaveeditor::value::{lua_eq, LuaValue};

fn roundtrip(values: Vec<LuaValue>) -> Vec<LuaValue> {
    let mut bytes: Vec<u8> = Vec::new();
    luabins::save(&mut bytes, &values).expect("encode");
    luabins::load(bytes.as_slice()).expect("decode")
}

fn assert_roundtrips(v: LuaValue, expected: LuaValue) {
    let out = roundtrip(vec![v]);
    assert_eq!(out.len(), 1);
    assert!(lua_eq(&out[0], &expected));
}

#[test]
fn roundtrip_nil_and_booleans() {
    assert_roundtrips(LuaValue::Nil, LuaValue::Nil);
    assert_roundtrips(LuaValue::Boolean(true), LuaValue::Boolean(true));
    assert_roundtrips(LuaValue::Boolean(false), LuaValue::Boolean(false));
}

#[test]
fn roundtrip_integers() {
    for i in [0i64, 1, -1, 5, 255, -256, 123456789, -987654321, 1 << 40, -(1 << 52), (1 << 53) - 1, -(1 << 53)] {
        assert_roundtrips(LuaValue::Integer(i), LuaValue::Integer(i));
    }
}

#[test]
fn roundtrip_fractional_numbers() {
    for f in [5.5f64, -0.25, 3.14159, 1e-300, f64::NAN, f64::INFINITY, f64::NEG_INFINITY] {
        let bits = f.to_bits();
        assert_roundtrips(LuaValue::Number(bits), LuaValue::Number(bits));
    }
}

#[test]
fn roundtrip_byte_strings() {
    for s in [&b""[..], b"a", b"hello world", &[0xffu8, 0x00, 0x80][..]] {
        assert_roundtrips(LuaValue::Str(s.to_vec()), LuaValue::Str(s.to_vec()));
    }
}

#[test]
fn integer_keeps_its_type_after_decode() {
    // Encoding Integer(5) then decoding yields Integer(5), not a float 5.0.
    let out = roundtrip(vec![LuaValue::Integer(5)]);
    assert!(matches!(out[0], LuaValue::Integer(5)));
    // Encoding 5.5 keeps it a floating number.
    let out = roundtrip(vec![LuaValue::Number(5.5f64.to_bits())]);
    assert!(matches!(out[0], LuaValue::Number(b) if b == 5.5f64.to_bits()));
}

#[test]
fn whole_float_decodes_as_integer() {
    // A stored 5.0 is reclassified as Integer(5) on decode: the documented,
    // deliberately lossy rule.
    let out = roundtrip(vec![LuaValue::Number(5.0f64.to_bits())]);
    assert!(matches!(out[0], LuaValue::Integer(5)));
    let out = roundtrip(vec![LuaValue::Number((-0.0f64).to_bits())]);
    assert!(matches!(out[0], LuaValue::Integer(0)));
}

#[test]
fn integer_widening_matches_hardware() {
    for i in [
        0i64,
        1,
        -1,
        5,
        4096,
        -65537,
        (1 << 52) + 1,
        (1 << 53) - 1,
        1 << 53,
        (1 << 53) + 1,
        (1 << 60) + 12345,
        -((1 << 61) + 98765),
        i64::MAX,
        i64::MIN,
        i64::MIN + 1,
    ] {
        assert_eq!(integer_to_bits(i), (i as f64).to_bits(), "widening of {}", i);
    }
}

#[test]
fn classification_matches_hardware() {
    let samples = [
        5.0f64,
        5.5,
        -0.0,
        0.0,
        -17.0,
        f64::NAN,
        f64::INFINITY,
        f64::NEG_INFINITY,
        1e300,
        -1e300,
        5e-324,
        0.5,
        9.223372036854776e18,
        -9.223372036854776e18,
        1e20,
    ];
    for f in samples {
        let got = classify_number(f.to_bits());
        if f.fract() == 0.0 {
            let expected = f.trunc() as i64;
            assert!(
                matches!(got, LuaValue::Integer(i) if i == expected),
                "classify({}) expected Integer({})",
                f,
                expected
            );
        } else {
            assert!(
                matches!(got, LuaValue::Number(b) if b == f.to_bits()),
                "classify({}) expected Number",
                f
            );
        }
    }
}

#[test]
fn table_roundtrips_with_mixed_keys() {
    // Keys {1, 2, 3, "a"} with mixed value types.
    let table = LuaValue::Table(vec![
        (LuaValue::Integer(1), LuaValue::Str(b"one".to_vec())),
        (LuaValue::Integer(2), LuaValue::Number(2.5f64.to_bits())),
        (LuaValue::Integer(3), LuaValue::Boolean(true)),
        (LuaValue::Str(b"a".to_vec()), LuaValue::Integer(-7)),
    ]);
    let expected = LuaValue::Table(vec![
        (LuaValue::Integer(1), LuaValue::Str(b"one".to_vec())),
        (LuaValue::Integer(2), LuaValue::Number(2.5f64.to_bits())),
        (LuaValue::Integer(3), LuaValue::Boolean(true)),
        (LuaValue::Str(b"a".to_vec()), LuaValue::Integer(-7)),
    ]);
    assert_roundtrips(table, expected);
}

#[test]
fn nested_table_roundtrips() {
    let inner = LuaValue::Table(vec![
        (LuaValue::Str(b"x".to_vec()), LuaValue::Integer(10)),
    ]);
    let outer = LuaValue::Table(vec![
        (LuaValue::Str(b"inner".to_vec()), inner),
        (LuaValue::Integer(1), LuaValue::Nil),
    ]);
    let expected = LuaValue::Table(vec![
        (LuaValue::Str(b"inner".to_vec()), LuaValue::Table(vec![
            (LuaValue::Str(b"x".to_vec()), LuaValue::Integer(10)),
        ])),
        (LuaValue::Integer(1), LuaValue::Nil),
    ]);
    assert_roundtrips(outer, expected);
}

fn encode_value(v: &LuaValue) -> Vec<u8> {
    let mut bytes: Vec<u8> = Vec::new();
    luabins::save_value(&mut bytes, v);
    bytes
}

#[test]
fn dense_table_splits_as_all_array() {
    // Keys {1, 2, 3}: array size 3, hash size 0.
    let table = LuaValue::Table(vec![
        (LuaValue::Integer(1), LuaValue::Boolean(true)),
        (LuaValue::Integer(2), LuaValue::Boolean(true)),
        (LuaValue::Integer(3), LuaValue::Boolean(true)),
    ]);
    let bytes = encode_value(&table);
    assert_eq!(bytes[0], 0x54);
    assert_eq!(&bytes[1..5], &3i32.to_le_bytes());
    assert_eq!(&bytes[5..9], &0i32.to_le_bytes());
}

#[test]
fn gapped_table_splits_at_the_gap() {
    // Keys {1, 3, "x"}: the run of consecutive keys from 1 stops at the gap,
    // so array size 1, hash size 2; the sizes always sum to the entry count.
    let table = LuaValue::Table(vec![
        (LuaValue::Integer(1), LuaValue::Boolean(true)),
        (LuaValue::Integer(3), LuaValue::Boolean(true)),
        (LuaValue::Str(b"x".to_vec()), LuaValue::Boolean(true)),
    ]);
    let bytes = encode_value(&table);
    assert_eq!(bytes[0], 0x54);
    assert_eq!(&bytes[1..5], &1i32.to_le_bytes());
    assert_eq!(&bytes[5..9], &2i32.to_le_bytes());
}

#[test]
fn number_wire_form_is_the_ieee_double() {
    let bytes = encode_value(&LuaValue::Integer(5));
    assert_eq!(bytes[0], 0x4e);
    assert_eq!(&bytes[1..9], &5.0f64.to_le_bytes());
    let bytes = encode_value(&LuaValue::Number(5.5f64.to_bits()));
    assert_eq!(bytes[0], 0x4e);
    assert_eq!(&bytes[1..9], &5.5f64.to_le_bytes());
}

#[test]
fn truncated_number_reports_width() {
    // A number needs 8 bytes; a 2-byte buffer after the tag reports it.
    let bytes = [0x4eu8, 0x00, 0x00];
    match luabins::load_value(&bytes, 0) {
        Err(SaveError::Truncation { needed, available, .. }) => {
            assert_eq!(needed, 8);
            assert_eq!(available, 2);
        },
        other => panic!("expected truncation, got {:?}", other.map(|_| ())),
    }
}

#[test]
fn truncated_string_length_reports_width() {
    // A 2-byte buffer where a 4-byte length is expected.
    let bytes = [0x53u8, 0x01, 0x02];
    match luabins::load_value(&bytes, 0) {
        Err(SaveError::Truncation { needed, available, .. }) => {
            assert_eq!(needed, 4);
            assert_eq!(available, 2);
        },
        other => panic!("expected truncation, got {:?}", other.map(|_| ())),
    }
}

#[test]
fn unknown_tag_is_a_format_error() {
    for tag in [0x00u8, 0x2c, 0x32, 0x55, 0xff] {
        let bytes = [tag];
        assert!(matches!(luabins::load_value(&bytes, 0), Err(SaveError::Format { .. })));
        // Through the whole stream decoder too: one value with a bad tag.
        let stream = [1u8, tag];
        assert!(matches!(luabins::load(&stream), Err(SaveError::Format { .. })));
    }
}

#[test]
fn more_than_255_values_is_a_caller_error() {
    let values: Vec<LuaValue> = (0..256).map(|_| LuaValue::Nil).collect();
    let mut bytes: Vec<u8> = Vec::new();
    assert!(matches!(luabins::save(&mut bytes, &values), Err(SaveError::Caller { .. })));
    assert!(bytes.is_empty());
}

#[test]
fn probe_reports_exact_payload_length() {
    // K values followed by arbitrary padding: the probe stops exactly after
    // the Kth value, and trimming there decodes to exactly K values.
    let values = vec![
        LuaValue::Integer(42),
        LuaValue::Str(b"map".to_vec()),
        LuaValue::Table(vec![(LuaValue::Integer(1), LuaValue::Boolean(false))]),
    ];
    let mut payload: Vec<u8> = Vec::new();
    luabins::save(&mut payload, &values).expect("encode");
    let exact = payload.len();

    let mut padded = payload.clone();
    padded.extend_from_slice(&[0u8; 64]);
    padded.extend_from_slice(b"garbage trailing bytes");

    let n = luabins::size(padded.as_slice()).expect("probe");
    assert_eq!(n, exact);

    let trimmed = &padded[..n];
    let out = luabins::load(trimmed).expect("decode");
    assert_eq!(out.len(), values.len());
    for (a, b) in out.iter().zip(values.iter()) {
        assert!(lua_eq(a, b));
    }
}

#[test]
fn empty_stream_decodes_to_no_values() {
    let bytes = [0u8];
    let out = luabins::load(&bytes).expect("decode");
    assert!(out.is_empty());
    assert_eq!(luabins::size(&bytes).expect("probe"), 1);
}

#[test]
fn duplicate_keys_keep_the_last_value() {
    // A stream carrying the same key twice: setting overwrites in place.
    let mut bytes: Vec<u8> = vec![0x54];
    bytes.extend_from_slice(&2i32.to_le_bytes());
    bytes.extend_from_slice(&0i32.to_le_bytes());
    // pair 1: "k" -> 1
    bytes.push(0x53);
    bytes.extend_from_slice(&1u32.to_le_bytes());
    bytes.push(b'k');
    bytes.push(0x4e);
    bytes.extend_from_slice(&1.0f64.to_le_bytes());
    // pair 2: "k" -> 2
    bytes.push(0x53);
    bytes.extend_from_slice(&1u32.to_le_bytes());
    bytes.push(b'k');
    bytes.push(0x4e);
    bytes.extend_from_slice(&2.0f64.to_le_bytes());
    let (v, consumed) = luabins::load_value(&bytes, 0).expect("decode");
    assert_eq!(consumed, bytes.len());
    let expected = LuaValue::Table(vec![(LuaValue::Str(b"k".to_vec()), LuaValue::Integer(2))]);
    assert!(lua_eq(&v, &expected));
}

#[test]
fn negative_table_counts_yield_an_empty_table() {
    // The two 4-byte counts are signed; a non-positive sum reads no pairs.
    let mut bytes: Vec<u8> = vec![0x54];
    bytes.extend_from_slice(&(-3i32).to_le_bytes());
    bytes.extend_from_slice(&1i32.to_le_bytes());
    let (v, consumed) = luabins::load_value(&bytes, 0).expect("decode");
    assert_eq!(consumed, 9);
    assert!(lua_eq(&v, &LuaValue::Table(vec![])));
}
