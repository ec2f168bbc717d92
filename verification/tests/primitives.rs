use hadessaveeditor::error::SaveError;
use hadessaveeditor::read;


#[test]
fn readers_are_little_endian() {
    let data = [0x2du8, 0xd2, 0x02, 0x96, 0x49, 0x00, 0x00, 0x00, 0x00, 0x7f];
    let (b, p) = read::byte(&data, 0, "b").expect("byte");
    assert_eq!(b, 0x2d);
    assert_eq!(p, 1);
    let (v, p) = read::u32(&data, 1, "v").expect("u32");
    assert_eq!(v, 0x499602d2);
    assert_eq!(p, 5);
    let (v, p) = read::i32(&data, 1, "v").expect("i32");
    assert_eq!(v, 0x499602d2i32);
    assert_eq!(p, 5);
    let (v, p) = read::u64(&data, 1, "v").expect("u64");
    assert_eq!(v, u64::from_le_bytes([0xd2, 0x02, 0x96, 0x49, 0x00, 0x00, 0x00, 0x00]));
    assert_eq!(p, 9);
}

#[test]
fn negative_i32_reads_as_two_complement() {
    let data = (-5i32).to_le_bytes();
    let (v, _) = read::i32(&data, 0, "v").expect("i32");
    assert_eq!(v, -5);
}

#[test]
fn float_reader_returns_the_bit_pattern() {
    let data = 6.25f64.to_le_bytes();
    let (bits, p) = read::float_bits(&data, 0, "f").expect("float");
    assert_eq!(bits, 6.25f64.to_bits());
    assert_eq!(p, 8);
}

#[test]
fn raw_byte_runs_roundtrip() {
    let data = [1u8, 2, 3, 4, 5];
    let (run, p) = read::bytes(&data, 1, 3, "run").expect("bytes");
    assert_eq!(run, &[2, 3, 4]);
    assert_eq!(p, 4);
}

#[test]
fn every_reader_reports_its_width_on_truncation() {
    let data = [0u8, 1];
    match read::u32(&data, 1, "v") {
        Err(SaveError::Truncation { field, needed, available }) => {
            assert_eq!(field, "v");
            assert_eq!(needed, 4);
            assert_eq!(available, 1);
        },
        other => panic!("expected truncation, got {:?}", other),
    }
    match read::u64(&data, 0, "v") {
        Err(SaveError::Truncation { needed, available, .. }) => {
            assert_eq!(needed, 8);
            assert_eq!(available, 2);
        },
        other => panic!("expected truncation, got {:?}", other),
    }
    match read::byte(&data, 2, "v") {
        Err(SaveError::Truncation { needed, available, .. }) => {
            assert_eq!(needed, 1);
            assert_eq!(available, 0);
        },
        other => panic!("expected truncation, got {:?}", other),
    }
    match read::bytes(&data, 0, 9, "v") {
        Err(SaveError::Truncation { needed, available, .. }) => {
            assert_eq!(needed, 9);
            assert_eq!(available, 2);
        },
        other => panic!("expected truncation, got {:?}", other),
    }
}

#[test]
fn writers_append_what_readers_extract() {
    let mut buf: Vec<u8> = Vec::new();
    hadessaveeditor::write::byte(&mut buf, 7);
    hadessaveeditor::write::u32(&mut buf, 0xdead_beef);
    hadessaveeditor::write::i32(&mut buf, -42);
    hadessaveeditor::write::u64(&mut buf, 0x0123_4567_89ab_cdef);
    hadessaveeditor::write::float_bits(&mut buf, 2.5f64.to_bits());
    hadessaveeditor::write::bytes(&mut buf, b"tail");
    assert_eq!(buf[0], 7);
    let (v, p) = read::u32(&buf, 1, "v").expect("u32");
    assert_eq!(v, 0xdead_beef);
    let (v, p) = read::i32(&buf, p, "v").expect("i32");
    assert_eq!(v, -42);
    let (v, p) = read::u64(&buf, p, "v").expect("u64");
    assert_eq!(v, 0x0123_4567_89ab_cdef);
    let (bits, p) = read::float_bits(&buf, p, "v").expect("float");
    assert_eq!(bits, 2.5f64.to_bits());
    assert_eq!(&buf[p..], b"tail");
    assert_eq!(&buf[1..5], &0xdead_beefu32.to_le_bytes());
}
