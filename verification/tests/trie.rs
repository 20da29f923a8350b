use ipcompile::maxmind::{
    find_metadata_start, get_nested, map_get, parse_metadata, Decoder, MaxMindReader, MmdbError,
    Value, DECODE_DEPTH,
};

const MARKER: [u8; 14] = [
    0xab, 0xcd, 0xef, 0x4d, 0x61, 0x78, 0x4d, 0x69, 0x6e, 0x64, 0x2e, 0x63, 0x6f, 0x6d,
];

/// A string value: type 2, inline size.
fn push_str(buf: &mut Vec<u8>, s: &str) {
    assert!(s.len() < 29);
    buf.push(0x40 | s.len() as u8);
    buf.extend_from_slice(s.as_bytes());
}

/// An unsigned value of one byte: type 6.
fn push_uint1(buf: &mut Vec<u8>, v: u8) {
    buf.push(0xc1);
    buf.push(v);
}

/// A map header: type 7, `n` entries.
fn push_map_header(buf: &mut Vec<u8>, n: u8) {
    assert!(n < 29);
    buf.push(0xe0 | n);
}

/// A database with one node of 32-bit fields: child 0 is a data pointer to
/// a map, child 1 a dead end. The tree indexes 32-bit addresses.
fn tiny_database() -> Vec<u8> {
    let mut buf = Vec::new();
    // node 0: 8 bytes; search_tree_size = 8
    // child 0: node index 18 (> node_count 1): data at (18 - 1) + 8 = 25
    buf.extend_from_slice(&[0, 0, 0, 18]);
    // child 1: node index 1 == node_count: dead end
    buf.extend_from_slice(&[0, 0, 0, 1]);
    // 16 separator bytes (offsets 8..24); one stray marker inside them must
    // not win over the rightmost one
    buf.extend_from_slice(&MARKER);
    buf.extend_from_slice(&[0, 0]);
    // offset 24: filler so the record sits at offset 25
    buf.push(0);
    // offset 25: the record {"location": {"latitude": 7}}
    push_map_header(&mut buf, 1);
    push_str(&mut buf, "location");
    push_map_header(&mut buf, 1);
    push_str(&mut buf, "latitude");
    push_uint1(&mut buf, 7);
    // the metadata, after the rightmost marker
    buf.extend_from_slice(&MARKER);
    push_map_header(&mut buf, 3);
    push_str(&mut buf, "node_count");
    push_uint1(&mut buf, 1);
    push_str(&mut buf, "record_size");
    push_uint1(&mut buf, 32);
    push_str(&mut buf, "ip_version");
    push_uint1(&mut buf, 4);
    buf
}

#[test]
fn marker_scan_takes_rightmost() {
    let mut buf = Vec::new();
    buf.extend_from_slice(&MARKER);
    buf.extend_from_slice(&[1, 2, 3]);
    buf.extend_from_slice(&MARKER);
    buf.extend_from_slice(&[4, 5]);
    let pos = find_metadata_start(&buf).unwrap();
    assert_eq!(pos, 14 + 3 + 14);
    assert_eq!(find_metadata_start(&[0u8; 40]), Err(MmdbError::NoMetadata));
}

#[test]
fn size_field_extension() {
    let buf = [7u8, 1, 2, 3];
    let d = Decoder::new(&buf, 0);
    // sizes below 29 are literal
    assert_eq!(d.size_from_ctrl_byte(0x45, 0, 2).unwrap(), (5, 0));
    // 29: one extra byte, offset 29
    assert_eq!(d.size_from_ctrl_byte(0x5d, 0, 2).unwrap(), (29 + 7, 1));
    // 30: two extra bytes big-endian, offset 285
    assert_eq!(d.size_from_ctrl_byte(0x5e, 1, 2).unwrap(), (285 + 0x0102, 3));
    // 31: three extra bytes big-endian, offset 65821
    assert_eq!(d.size_from_ctrl_byte(0x5f, 1, 2).unwrap(), (65821 + 0x010203, 4));
    // pointers read their size field as a selector, never extended
    assert_eq!(d.size_from_ctrl_byte(0x3d, 0, 1).unwrap(), (0x1d, 0));
}

#[test]
fn decode_scalars() {
    // double: 8 big-endian IEEE 754 bytes, carried as bits
    let mut buf = vec![0x68];
    buf.extend_from_slice(&1.5f64.to_be_bytes());
    let d = Decoder::new(&buf, 0);
    match d.decode(0, DECODE_DEPTH).unwrap() {
        (Value::Double(bits), end) => {
            assert_eq!(f64::from_bits(bits), 1.5);
            assert_eq!(end, 9);
        },
        _ => panic!("expected a double"),
    }
    // signed integer, sign-extended from two bytes (extended type tag)
    let buf = vec![0x02, 0x01, 0xff, 0xfe];
    let d = Decoder::new(&buf, 0);
    match d.decode(0, DECODE_DEPTH).unwrap() {
        (Value::Int(v), end) => {
            assert_eq!(v, -2);
            assert_eq!(end, 4);
        },
        _ => panic!("expected an int"),
    }
    // float: extended type tag 15, 4 big-endian IEEE 754 bytes as bits
    let mut buf = vec![0x04, 15 - 7];
    buf.extend_from_slice(&2.5f32.to_be_bytes());
    let d = Decoder::new(&buf, 0);
    match d.decode(0, DECODE_DEPTH).unwrap() {
        (Value::Float(bits), end) => {
            assert_eq!(f32::from_bits(bits), 2.5);
            assert_eq!(end, 6);
        },
        _ => panic!("expected a float"),
    }
    // boolean: the size field is the value, no payload
    let buf = vec![0x00, 0x07];
    let d = Decoder::new(&buf, 0);
    match d.decode(0, DECODE_DEPTH).unwrap() {
        (Value::Bool(b), end) => {
            assert!(!b);
            assert_eq!(end, 2);
        },
        _ => panic!("expected a bool"),
    }
}

#[test]
fn decode_pointer_dereferences() {
    // a 1-byte pointer at offset 0 to the uint at offset 2
    let buf = vec![0x20, 0x02, 0xc1, 0x2a];
    let d = Decoder::new(&buf, 0);
    match d.decode(0, DECODE_DEPTH).unwrap() {
        (Value::UInt(v), end) => {
            assert_eq!(v, 42);
            // the caller sees the offset after the pointer bytes
            assert_eq!(end, 2);
        },
        _ => panic!("expected the pointee"),
    }
}

#[test]
fn decode_failures() {
    // a pointer to itself exhausts the depth bound
    let buf = vec![0x20, 0x00];
    let d = Decoder::new(&buf, 0);
    assert_eq!(d.decode(0, DECODE_DEPTH).unwrap_err(), MmdbError::DepthLimit);
    // an unknown extended type tag
    let buf = vec![0x00, 0x05];
    let d = Decoder::new(&buf, 0);
    assert_eq!(d.decode(0, DECODE_DEPTH).unwrap_err(), MmdbError::UnknownType);
    // a double whose size is not 8
    let buf = vec![0x64, 1, 2, 3, 4];
    let d = Decoder::new(&buf, 0);
    assert_eq!(d.decode(0, DECODE_DEPTH).unwrap_err(), MmdbError::BadValueSize);
    // a string that is not UTF-8
    let buf = vec![0x42, 0xff, 0xff];
    let d = Decoder::new(&buf, 0);
    assert_eq!(d.decode(0, DECODE_DEPTH).unwrap_err(), MmdbError::BadString);
    // a string that runs past the buffer
    let buf = vec![0x45, b'h', b'i'];
    let d = Decoder::new(&buf, 0);
    assert_eq!(d.decode(0, DECODE_DEPTH).unwrap_err(), MmdbError::OutOfBounds);
}

#[test]
fn metadata_parsing() {
    let db = tiny_database();
    let start = find_metadata_start(&db).unwrap();
    let md = parse_metadata(&db, start).unwrap();
    assert_eq!(md.node_count, 1);
    assert_eq!(md.record_size, 32);
    assert_eq!(md.ip_version, 4);
    assert_eq!(md.search_tree_size, 8);

    // a record size outside 24/28/32 is rejected
    let mut bad = Vec::new();
    bad.extend_from_slice(&MARKER);
    push_map_header(&mut bad, 2);
    push_str(&mut bad, "node_count");
    push_uint1(&mut bad, 1);
    push_str(&mut bad, "record_size");
    push_uint1(&mut bad, 30);
    let start = find_metadata_start(&bad).unwrap();
    assert_eq!(parse_metadata(&bad, start), Err(MmdbError::BadRecordSize));

    // a missing required field is rejected
    let mut missing = Vec::new();
    missing.extend_from_slice(&MARKER);
    push_map_header(&mut missing, 1);
    push_str(&mut missing, "record_size");
    push_uint1(&mut missing, 24);
    let start = find_metadata_start(&missing).unwrap();
    assert_eq!(parse_metadata(&missing, start), Err(MmdbError::BadMetadata));
}

#[test]
fn enumerate_and_lookup() {
    let db = tiny_database();
    let reader = MaxMindReader::from_buffer(db).unwrap();
    assert_eq!(reader.ipv4_start, 0);

    let pointers = reader.collect_pointers();
    assert_eq!(pointers.len(), 1);
    let (offset, start, end) = pointers[0];
    assert_eq!(offset, 25);
    // child 0 at depth 1 of a 32-bit tree: the lower half of the space
    assert_eq!(start, 0);
    assert_eq!(end, 0x7fff_ffff);

    let records = reader.load_all();
    assert_eq!(records.len(), 1);
    let rec = &records[0];
    assert_eq!((rec.0, rec.1), (0, 0x7fff_ffff));
    let fields = &rec.2;
    let lat = get_nested(fields, &["location", "latitude"]).unwrap();
    match lat {
        Value::UInt(v) => assert_eq!(*v, 7),
        _ => panic!("expected a number"),
    }
    assert!(map_get(fields, "country").is_none());

    // a point lookup through child 0 reaches the record
    let found = reader.lookup(&[0x00, 0x00, 0x00, 0x01], 32).unwrap();
    assert!(get_nested(&found, &["location", "latitude"]).is_some());
    // one through child 1 dead-ends
    assert!(reader.lookup(&[0x80, 0x00, 0x00, 0x00], 32).is_none());
}
