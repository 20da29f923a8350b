use ipcompile::addr::{ipv4_to_ipv6, parse_u128, unify_address};
use ipcompile::csv::parse_csv_line;
use ipcompile::interner::{InternStrategy, StringInterner};
use ipcompile::proxy::{build_proxy_types_bin, ProxyTable};
use ipcompile::records::{merge_trie_ranges, sort_records, AsnRecord, GeoRecord, IspRecord};
use ipcompile::rows::{process_asn_row, process_isp_row, process_proxy_row};
use ipcompile::tables::{build_asn_bin, build_geo_bin, build_isp_bin, write_string_table};
use ipcompile::varint::{write_signed_varint, write_varint};

/// Reference varint decoder: 7-bit groups, least significant first.
fn decode_varint(bytes: &[u8], pos: &mut usize) -> u128 {
    let mut value: u128 = 0;
    let mut shift = 0;
    loop {
        let b = bytes[*pos];
        *pos += 1;
        value |= ((b & 0x7f) as u128) << shift;
        if b & 0x80 == 0 {
            return value;
        }
        shift += 7;
    }
}

/// Reference signed decoder: varint then inverse zigzag.
fn decode_signed_varint(bytes: &[u8], pos: &mut usize) -> i64 {
    let n = decode_varint(bytes, pos);
    if n % 2 == 0 {
        (n / 2) as i64
    } else {
        (-(((n + 1) / 2) as i128)) as i64
    }
}

fn read_u16_le(bytes: &[u8], pos: &mut usize) -> u16 {
    let v = u16::from_le_bytes([bytes[*pos], bytes[*pos + 1]]);
    *pos += 2;
    v
}

fn read_u32_le(bytes: &[u8], pos: &mut usize) -> u32 {
    let v = u32::from_le_bytes([
        bytes[*pos],
        bytes[*pos + 1],
        bytes[*pos + 2],
        bytes[*pos + 3],
    ]);
    *pos += 4;
    v
}

fn read_i32_le(bytes: &[u8], pos: &mut usize) -> i32 {
    let v = i32::from_le_bytes([
        bytes[*pos],
        bytes[*pos + 1],
        bytes[*pos + 2],
        bytes[*pos + 3],
    ]);
    *pos += 4;
    v
}

#[test]
fn varint_round_trip_unsigned() {
    let values: [u128; 6] = [0, 1, 127, 128, 1u128 << 35, (1u128 << 127) - 1];
    for &v in values.iter() {
        let mut out = Vec::new();
        write_varint(&mut out, v);
        let mut pos = 0;
        assert_eq!(decode_varint(&out, &mut pos), v);
        assert_eq!(pos, out.len());
    }
}

#[test]
fn varint_round_trip_signed() {
    let values: [i64; 5] = [0, -1, 1, 1i64 << 62, i64::MIN];
    for &v in values.iter() {
        let mut out = Vec::new();
        write_signed_varint(&mut out, v);
        let mut pos = 0;
        assert_eq!(decode_signed_varint(&out, &mut pos), v);
        assert_eq!(pos, out.len());
    }
}

#[test]
fn ipv4_mapping_bounds() {
    assert_eq!(ipv4_to_ipv6(0), 0xffff_0000_0000u128);
    assert_eq!(ipv4_to_ipv6(0) & 0xffff_ffff, 0);
    assert_eq!(ipv4_to_ipv6(0xffff_ffff), 0xffff_ffff_ffffu128);
    assert_eq!(ipv4_to_ipv6(0xffff_ffff) & 0xffff_ffff, 0xffff_ffff);
    for &v in [0u32, 1, 0x0100_0000, 0xffff_ffff].iter() {
        let m = ipv4_to_ipv6(v);
        assert!(m >> 32 == 0xffff);
        assert_eq!(m & 0xffff_ffff, v as u128);
    }
}

#[test]
fn parse_u128_fields() {
    assert_eq!(parse_u128("123"), 123);
    assert_eq!(parse_u128("\"16777216\""), 16777216);
    assert_eq!(parse_u128(""), 0);
    assert_eq!(parse_u128("-"), 0);
    assert_eq!(parse_u128("12a"), 0);
    assert_eq!(parse_u128("340282366920938463463374607431768211455"), u128::MAX);
    // one digit past the maximum overflows to zero
    assert_eq!(parse_u128("340282366920938463463374607431768211456"), 0);
}

#[test]
fn csv_quoted_fields() {
    let fields = parse_csv_line("a,\"b,c\",\"say \"\"hi\"\"\",d");
    assert_eq!(fields, vec!["a", "b,c", "say \"hi\"", "d"]);
    let fields = parse_csv_line("");
    assert_eq!(fields, vec![""]);
    let fields = parse_csv_line("x,");
    assert_eq!(fields, vec!["x", ""]);
}

#[test]
fn sort_order_start_then_span() {
    let mut v = vec![
        GeoRecord { start: 50, end: 90, lat_milli: 1, lon_milli: 1 },
        GeoRecord { start: 10, end: 90, lat_milli: 2, lon_milli: 2 },
        GeoRecord { start: 10, end: 20, lat_milli: 3, lon_milli: 3 },
        GeoRecord { start: 50, end: 60, lat_milli: 4, lon_milli: 4 },
        GeoRecord { start: 10, end: 20, lat_milli: 5, lon_milli: 5 },
    ];
    sort_records(&mut v);
    assert_eq!(v.len(), 5);
    for i in 0..v.len() - 1 {
        let (a, b) = (&v[i], &v[i + 1]);
        assert!(a.start <= b.start);
        if a.start == b.start {
            assert!(a.end - a.start <= b.end - b.start);
        }
    }
}

#[test]
fn exact_duplicate_dedup_prefers_csv() {
    let mut ranges = vec![
        GeoRecord { start: 10, end: 20, lat_milli: 111, lon_milli: 222 },
        GeoRecord { start: 30, end: 40, lat_milli: 1, lon_milli: 1 },
    ];
    let trie = vec![
        // identical (start, end) as a CSV range: dropped, CSV wins
        GeoRecord { start: 10, end: 20, lat_milli: 999, lon_milli: 999 },
        GeoRecord { start: 50, end: 60, lat_milli: 7, lon_milli: 8 },
    ];
    merge_trie_ranges(&mut ranges, &trie);
    assert_eq!(ranges.len(), 3);
    assert_eq!((ranges[0].lat_milli, ranges[0].lon_milli), (111, 222));
    assert_eq!((ranges[2].start, ranges[2].end), (50, 60));
}

#[test]
fn interning_stability() {
    let mut zero = StringInterner::new(InternStrategy::ZeroIsMissing);
    assert_eq!(zero.intern("-"), 0);
    let a = zero.intern("alpha");
    let b = zero.intern("beta");
    assert_eq!(zero.intern("alpha"), a);
    assert_eq!(zero.intern("beta"), b);
    assert_eq!(zero.intern("-"), 0);
    assert_eq!(a, 0);
    assert_eq!(b, 1);
    assert_eq!(zero.len(), 2);

    let mut off = StringInterner::new(InternStrategy::OffsetWithReservedEmpty);
    assert_eq!(off.intern_with_offset("-"), 0);
    // the first non-placeholder string gets index 1
    assert_eq!(off.intern_with_offset("isp one"), 1);
    assert_eq!(off.intern_with_offset("isp two"), 2);
    assert_eq!(off.intern_with_offset("isp one"), 1);

    // the emitted table's slot 0 is an explicit empty string
    let mut out = Vec::new();
    write_string_table(&mut out, &off);
    let mut pos = 0;
    assert_eq!(read_u32_le(&out, &mut pos), 3); // two strings + reserved slot
    assert_eq!(read_u16_le(&out, &mut pos), 0); // empty string at slot 0
    let n = read_u16_le(&out, &mut pos) as usize;
    assert_eq!(&out[pos..pos + n], b"isp one");
}

#[test]
fn geo_table_two_records() {
    // two rows: 1.0.0.0-1.0.0.255 at (10.123, 20.456) and
    // 1.0.1.0-1.0.1.255 at (30.0, 40.0)
    let start1 = unify_address(parse_u128("16777216"), true);
    let end1 = unify_address(parse_u128("16777471"), true);
    let start2 = unify_address(parse_u128("16777472"), true);
    let end2 = unify_address(parse_u128("16777727"), true);
    let r1 = GeoRecord {
        start: start1,
        end: end1,
        lat_milli: (10.123f32 * 1000.0).round() as i32,
        lon_milli: (20.456f32 * 1000.0).round() as i32,
    };
    let r2 = GeoRecord {
        start: start2,
        end: end2,
        lat_milli: (30.0f32 * 1000.0).round() as i32,
        lon_milli: (40.0f32 * 1000.0).round() as i32,
    };
    let out = build_geo_bin(vec![r2, r1]);
    let mut pos = 0;
    assert_eq!(read_u32_le(&out, &mut pos), 2);
    // the running previous start is 0, so the first delta is the mapped start
    assert_eq!(decode_varint(&out, &mut pos), start1);
    assert_eq!(decode_varint(&out, &mut pos), 255);
    let lat1 = read_i32_le(&out, &mut pos);
    let lon1 = read_i32_le(&out, &mut pos);
    assert!((lat1 as f64 / 1000.0 - 10.123).abs() < 0.001);
    assert!((lon1 as f64 / 1000.0 - 20.456).abs() < 0.001);
    // the second delta is the difference of the two mapped starts
    assert_eq!(decode_varint(&out, &mut pos), start2 - start1);
    assert_eq!(decode_varint(&out, &mut pos), 255);
    let lat2 = read_i32_le(&out, &mut pos);
    let lon2 = read_i32_le(&out, &mut pos);
    assert!((lat2 as f64 / 1000.0 - 30.0).abs() < 0.001);
    assert!((lon2 as f64 / 1000.0 - 40.0).abs() < 0.001);
    assert_eq!(pos, out.len());
}

#[test]
fn geo_table_negative_coordinates() {
    let r = GeoRecord { start: 5, end: 5, lat_milli: -33870, lon_milli: 151210 };
    let out = build_geo_bin(vec![r]);
    let mut pos = 0;
    assert_eq!(read_u32_le(&out, &mut pos), 1);
    assert_eq!(decode_varint(&out, &mut pos), 5);
    assert_eq!(decode_varint(&out, &mut pos), 0);
    assert_eq!(read_i32_le(&out, &mut pos), -33870);
    assert_eq!(read_i32_le(&out, &mut pos), 151210);
}

#[test]
fn proxy_table_layout() {
    let mut types = ProxyTable::new();
    let vpn = String::from("VPN");
    let tor = String::from("TOR");
    process_proxy_row(
        &vec!["300".to_string(), "400".to_string(), vpn.clone()],
        false,
        &mut types,
    );
    process_proxy_row(
        &vec!["100".to_string(), "200".to_string(), tor.clone()],
        false,
        &mut types,
    );
    process_proxy_row(
        &vec!["50".to_string(), "80".to_string(), vpn.clone()],
        false,
        &mut types,
    );
    // a short row is skipped
    process_proxy_row(&vec!["1".to_string(), "2".to_string()], false, &mut types);
    assert_eq!(types.len(), 2);
    let out = build_proxy_types_bin(types);
    let mut pos = 0;
    assert_eq!(read_u16_le(&out, &mut pos), 2);
    // first group: VPN, sorted by start, delta reset per type
    let n = out[pos] as usize;
    pos += 1;
    assert_eq!(&out[pos..pos + n], b"VPN");
    pos += n;
    assert_eq!(read_u32_le(&out, &mut pos), 2);
    assert_eq!(decode_varint(&out, &mut pos), 50);
    assert_eq!(decode_varint(&out, &mut pos), 30);
    assert_eq!(decode_varint(&out, &mut pos), 250); // 300 - 50
    assert_eq!(decode_varint(&out, &mut pos), 100);
    // second group: TOR, its delta restarts from zero
    let n = out[pos] as usize;
    pos += 1;
    assert_eq!(&out[pos..pos + n], b"TOR");
    pos += n;
    assert_eq!(read_u32_le(&out, &mut pos), 1);
    assert_eq!(decode_varint(&out, &mut pos), 100);
    assert_eq!(decode_varint(&out, &mut pos), 100);
    assert_eq!(pos, out.len());
}

#[test]
fn asn_table_layout() {
    let mut strings = StringInterner::new(InternStrategy::ZeroIsMissing);
    let mut data: Vec<AsnRecord> = Vec::new();
    let row1 = vec![
        "100".to_string(),
        "200".to_string(),
        "1.0.0.0/24".to_string(),
        "AS13335".to_string(),
        "CLOUDFLARENET".to_string(),
    ];
    let row2 = vec![
        "50".to_string(),
        "60".to_string(),
        "2.0.0.0/24".to_string(),
        "AS15169".to_string(),
        "GOOGLE".to_string(),
    ];
    // a placeholder ASN skips the whole row
    let row3 = vec![
        "1".to_string(),
        "2".to_string(),
        "x".to_string(),
        "-".to_string(),
        "y".to_string(),
    ];
    process_asn_row(&row1, false, &mut data, &mut strings);
    process_asn_row(&row2, false, &mut data, &mut strings);
    process_asn_row(&row3, false, &mut data, &mut strings);
    assert_eq!(data.len(), 2);
    assert_eq!(strings.len(), 6);
    let out = build_asn_bin(data, &strings);
    let mut pos = 0;
    assert_eq!(read_u32_le(&out, &mut pos), 6);
    for expect in ["1.0.0.0/24", "AS13335", "CLOUDFLARENET", "2.0.0.0/24", "AS15169", "GOOGLE"] {
        let n = read_u16_le(&out, &mut pos) as usize;
        assert_eq!(&out[pos..pos + n], expect.as_bytes());
        pos += n;
    }
    assert_eq!(read_u32_le(&out, &mut pos), 2);
    // sorted: the (50, 60) record first; its indices are 3, 4, 5
    assert_eq!(decode_varint(&out, &mut pos), 50);
    assert_eq!(decode_varint(&out, &mut pos), 10);
    assert_eq!(decode_signed_varint(&out, &mut pos), 3);
    assert_eq!(decode_signed_varint(&out, &mut pos), 4);
    assert_eq!(decode_signed_varint(&out, &mut pos), 5);
    // then (100, 200) with indices 0, 1, 2: negative deltas
    assert_eq!(decode_varint(&out, &mut pos), 50);
    assert_eq!(decode_varint(&out, &mut pos), 100);
    assert_eq!(decode_signed_varint(&out, &mut pos), -3);
    assert_eq!(decode_signed_varint(&out, &mut pos), -3);
    assert_eq!(decode_signed_varint(&out, &mut pos), -3);
    assert_eq!(pos, out.len());
}

#[test]
fn isp_table_layout_narrow_indices() {
    let mut strings = StringInterner::new(InternStrategy::OffsetWithReservedEmpty);
    let mut data: Vec<IspRecord> = Vec::new();
    let mut row = vec![String::new(); 9];
    row[0] = "100".to_string();
    row[1] = "200".to_string();
    row[7] = "Acme Telecom".to_string();
    row[8] = "acme.example".to_string();
    // nine columns only: the provider column is absent, read as placeholder
    process_isp_row(&row, false, &mut data, &mut strings);
    assert_eq!(data.len(), 1);
    let out = build_isp_bin(data, &strings);
    let mut pos = 0;
    assert_eq!(read_u32_le(&out, &mut pos), 3); // two strings + reserved slot
    assert_eq!(read_u16_le(&out, &mut pos), 0);
    let mut seen = Vec::new();
    for _ in 0..2 {
        let n = read_u16_le(&out, &mut pos) as usize;
        seen.push(String::from_utf8(out[pos..pos + n].to_vec()).unwrap());
        pos += n;
    }
    assert_eq!(seen, vec!["Acme Telecom", "acme.example"]);
    assert_eq!(read_u32_le(&out, &mut pos), 1);
    assert_eq!(decode_varint(&out, &mut pos), 100);
    assert_eq!(decode_varint(&out, &mut pos), 100);
    // under 65536 strings: plain 16-bit indices, no deltas; the absent
    // provider reads as the placeholder, index 0
    assert_eq!(read_u16_le(&out, &mut pos), 1);
    assert_eq!(read_u16_le(&out, &mut pos), 2);
    assert_eq!(read_u16_le(&out, &mut pos), 0);
    assert_eq!(pos, out.len());
}
