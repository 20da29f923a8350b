//! Binary emission of the four output tables.
//!
//! All multi-byte integers are little-endian. Range sequences are emitted
//! sorted, each record's start as the varint of its delta against the
//! previous start (0 before the first record) and its end as the varint of
//! the span `end - start`.

use vstd::prelude::*;
use vstd::utf8::encode_utf8;
use crate::varint::{varint_enc, zigzag, write_varint, write_signed_varint};
use crate::interner::StringInterner;
use crate::records::{
    RangeRecord, record_wf, records_wf, spec_span, record_le, records_sorted, GeoRecord,
    AsnRecord, IspRecord, sort_records,
};

verus! {

/// The two bytes of `x`, little-endian.
pub open spec fn le16(x: u16) -> Seq<u8> {
    seq![(x % 0x100) as u8, (x / 0x100) as u8]
}

/// The four bytes of `x`, little-endian.
pub open spec fn le32(x: u32) -> Seq<u8> {
    seq![
        (x % 0x100) as u8,
        ((x / 0x100) % 0x100) as u8,
        ((x / 0x10000) % 0x100) as u8,
        (x / 0x1000000) as u8,
    ]
}

/// The two's-complement bit pattern of a signed 32-bit value.
pub open spec fn i32_bits(x: i32) -> u32 {
    if x >= 0 {
        x as u32
    } else {
        (x + 0x1_0000_0000) as u32
    }
}

/// Appends the two little-endian bytes of `x`.
pub fn push_u16_le(out: &mut Vec<u8>, x: u16)
    ensures
        final(out)@ == old(out)@ + le16(x),
{
    assert(x & 0xff == x % 0x100) by (bit_vector);
    assert(x >> 8 == x / 0x100) by (bit_vector);
    out.push((x & 0xff) as u8);
    out.push((x >> 8) as u8);
    proof {
        assert(final(out)@ =~= old(out)@ + le16(x));
    }
}

/// Appends the four little-endian bytes of `x`.
pub fn push_u32_le(out: &mut Vec<u8>, x: u32)
    ensures
        final(out)@ == old(out)@ + le32(x),
{
    assert(x & 0xff == x % 0x100) by (bit_vector);
    assert((x >> 8) & 0xff == (x / 0x100) % 0x100) by (bit_vector);
    assert((x >> 16) & 0xff == (x / 0x10000) % 0x100) by (bit_vector);
    assert(x >> 24 == x / 0x1000000) by (bit_vector);
    out.push((x & 0xff) as u8);
    out.push(((x >> 8) & 0xff) as u8);
    out.push(((x >> 16) & 0xff) as u8);
    out.push((x >> 24) as u8);
    proof {
        assert(final(out)@ =~= old(out)@ + le32(x));
    }
}

/// Appends the four little-endian bytes of `x`, two's complement.
pub fn push_i32_le(out: &mut Vec<u8>, x: i32)
    ensures
        final(out)@ == old(out)@ + le32(i32_bits(x)),
{
    let bits: u32 = if x >= 0 {
        x as u32
    } else {
        ((x as i64) + 0x1_0000_0000) as u32
    };
    push_u32_le(out, bits);
}

/// One string-table entry: a 16-bit byte length followed by the UTF-8 bytes.
pub open spec fn str_entry16(s: Seq<char>) -> Seq<u8> {
    le16(encode_utf8(s).len() as u16) + encode_utf8(s)
}

/// A run of string-table entries, in table order.
pub open spec fn str_entries16(tbl: Seq<Seq<char>>) -> Seq<u8>
    decreases tbl.len(),
{
    if tbl.len() == 0 {
        Seq::empty()
    } else {
        str_entries16(tbl.drop_last()) + str_entry16(tbl.last())
    }
}

/// Appends one string-table entry for `s`.
fn push_str16(out: &mut Vec<u8>, s: &String)
    requires
        encode_utf8(s@).len() < 0x10000,
    ensures
        final(out)@ == old(out)@ + str_entry16(s@),
{
    let bytes = s.as_str().as_bytes();
    let n = bytes.len();
    push_u16_le(out, n as u16);
    out.extend_from_slice(bytes);
    proof {
        assert(final(out)@ =~= old(out)@ + str_entry16(s@));
    }
}

/// Every stored string's UTF-8 form fits a 16-bit length field.
pub open spec fn table_fits16(tbl: Seq<Seq<char>>) -> bool {
    forall|i: int| 0 <= i < tbl.len() ==> encode_utf8(#[trigger] tbl[i]).len() < 0x10000
}

/// Appends the emitted form of an offset-with-reserved-empty string table:
/// a 32-bit count of `len + 1`, the reserved empty string at slot 0 as a
/// 16-bit zero length, then each stored string as a 16-bit byte length and
/// its bytes.
pub fn write_string_table(out: &mut Vec<u8>, strings: &StringInterner)
    requires
        strings@.len() < 0xffff_ffff,
        table_fits16(strings@),
    ensures
        final(out)@ == old(out)@ + le32((strings@.len() + 1) as u32) + le16(0) + str_entries16(
            strings@,
        ),
{
    let n = strings.len();
    push_u32_le(out, (n as u32) + 1);
    push_u16_le(out, 0);
    push_str_entries(out, strings);
}

/// Appends every stored string as a 16-bit byte length and its bytes.
fn push_str_entries(out: &mut Vec<u8>, strings: &StringInterner)
    requires
        table_fits16(strings@),
    ensures
        final(out)@ == old(out)@ + str_entries16(strings@),
{
    let n = strings.len();
    let ghost base = out@;
    let mut i: usize = 0;
    while i < n
        invariant
            0 <= i <= n,
            n == strings@.len(),
            table_fits16(strings@),
            out@ == base + str_entries16(strings@.take(i as int)),
        decreases n - i,
    {
        push_str16(out, strings.get(i));
        proof {
            assert(strings@.take(i + 1).drop_last() =~= strings@.take(i as int));
            assert(strings@.take(i + 1).last() == strings@[i as int]);
        }
        i = i + 1;
    }
    proof {
        assert(strings@.take(n as int) =~= strings@);
    }
}

/// Start of the record that precedes the next one: 0 before the first.
pub open spec fn last_start<T: RangeRecord>(s: Seq<T>, prev: u128) -> u128 {
    if s.len() == 0 {
        prev
    } else {
        s.last().spec_start()
    }
}

/// One geolocation record: varint delta start, varint span, then latitude
/// and longitude in thousandths of a degree as 32-bit values.
pub open spec fn geo_record_bytes(r: GeoRecord, prev: u128) -> Seq<u8> {
    varint_enc((r.start - prev) as nat) + varint_enc(spec_span(r) as nat) + le32(
        i32_bits(r.lat_milli),
    ) + le32(i32_bits(r.lon_milli))
}

/// A run of geolocation records, each start delta-coded against the
/// previous record's start.
pub open spec fn geo_records_bytes(s: Seq<GeoRecord>, prev: u128) -> Seq<u8>
    decreases s.len(),
{
    if s.len() == 0 {
        Seq::empty()
    } else {
        geo_record_bytes(s[0], prev) + geo_records_bytes(s.skip(1), s[0].start)
    }
}

proof fn lemma_geo_records_bytes_snoc(s: Seq<GeoRecord>, x: GeoRecord, prev: u128)
    ensures
        geo_records_bytes(s.push(x), prev) == geo_records_bytes(s, prev) + geo_record_bytes(
            x,
            last_start(s, prev),
        ),
    decreases s.len(),
{
    if s.len() == 0 {
        reveal_with_fuel(geo_records_bytes, 2);
        assert(s.push(x).skip(1) =~= Seq::<GeoRecord>::empty());
        assert(geo_records_bytes(s.push(x), prev) =~= geo_record_bytes(x, prev));
        assert(geo_records_bytes(s, prev) + geo_record_bytes(x, prev) =~= geo_record_bytes(
            x,
            prev,
        ));
    } else {
        assert(s.push(x).skip(1) =~= s.skip(1).push(x));
        lemma_geo_records_bytes_snoc(s.skip(1), x, s[0].start);
        assert(last_start(s.skip(1), s[0].start) == last_start(s, prev));
        assert(geo_records_bytes(s.push(x), prev) =~= geo_records_bytes(s, prev)
            + geo_record_bytes(x, last_start(s, prev)));
    }
}

/// Emits the geolocation table: a 32-bit record count, then the records
/// sorted into output order, delta-and-varint coded. The emitted record
/// sequence is a permutation of the input.
pub fn build_geo_bin(ranges: Vec<GeoRecord>) -> (out: Vec<u8>)
    requires
        records_wf(ranges@),
        ranges@.len() < 0x1_0000_0000,
    ensures
        exists|s: Seq<GeoRecord>|
            #[trigger] records_sorted(s) && s.to_multiset() == ranges@.to_multiset() && out@
                == le32(ranges@.len() as u32) + geo_records_bytes(s, 0),
{
    let mut v = ranges;
    sort_records(&mut v);
    let n = v.len();
    let mut out: Vec<u8> = Vec::new();
    push_u32_le(&mut out, n as u32);
    let ghost base = out@;
    let mut prev: u128 = 0;
    let mut i: usize = 0;
    while i < n
        invariant
            0 <= i <= n,
            n == v@.len(),
            records_wf(v@),
            records_sorted(v@),
            out@ == base + geo_records_bytes(v@.take(i as int), 0),
            prev == last_start(v@.take(i as int), 0),
        decreases n - i,
    {
        let r = v[i];
        proof {
            if i > 0 {
                assert(record_le(v@[i - 1], v@[i as int]));
                assert(v@.take(i as int).last() == v@[i - 1]);
            }
            assert(record_wf(v@[i as int]));
        }
        write_varint(&mut out, r.start - prev);
        write_varint(&mut out, r.end - r.start);
        push_i32_le(&mut out, r.lat_milli);
        push_i32_le(&mut out, r.lon_milli);
        proof {
            lemma_geo_records_bytes_snoc(v@.take(i as int), r, 0);
            assert(v@.take(i + 1) =~= v@.take(i as int).push(r));
            assert(v@.take(i + 1).last() == r);
        }
        prev = r.start;
        i = i + 1;
    }
    proof {
        assert(v@.take(n as int) =~= v@);
        assert(records_sorted(v@) && v@.to_multiset() == ranges@.to_multiset() && out@ == le32(
            ranges@.len() as u32,
        ) + geo_records_bytes(v@, 0));
    }
    out
}

/// CIDR index of the record that precedes the next one: 0 before the first.
pub open spec fn last_cidr(s: Seq<AsnRecord>, prev: int) -> int {
    if s.len() == 0 {
        prev
    } else {
        s.last().cidr_idx as int
    }
}

/// ASN index of the record that precedes the next one: 0 before the first.
pub open spec fn last_asn(s: Seq<AsnRecord>, prev: int) -> int {
    if s.len() == 0 {
        prev
    } else {
        s.last().asn_idx as int
    }
}

/// Name index of the record that precedes the next one: 0 before the first.
pub open spec fn last_name(s: Seq<AsnRecord>, prev: int) -> int {
    if s.len() == 0 {
        prev
    } else {
        s.last().name_idx as int
    }
}

/// One ASN record: varint delta start, varint span, then the three string
/// indices as signed varint deltas against the previous record's indices.
pub open spec fn asn_record_bytes(r: AsnRecord, prev: u128, pc: int, pa: int, pn: int) -> Seq<
    u8,
> {
    varint_enc((r.start - prev) as nat) + varint_enc(spec_span(r) as nat) + varint_enc(
        zigzag((r.cidr_idx - pc) as i64),
    ) + varint_enc(zigzag((r.asn_idx - pa) as i64)) + varint_enc(zigzag((r.name_idx - pn) as i64))
}

/// A run of ASN records, delta-coded against their predecessors.
pub open spec fn asn_records_bytes(s: Seq<AsnRecord>, prev: u128, pc: int, pa: int, pn: int) -> Seq<
    u8,
>
    decreases s.len(),
{
    if s.len() == 0 {
        Seq::empty()
    } else {
        asn_record_bytes(s[0], prev, pc, pa, pn) + asn_records_bytes(
            s.skip(1),
            s[0].start,
            s[0].cidr_idx as int,
            s[0].asn_idx as int,
            s[0].name_idx as int,
        )
    }
}

proof fn lemma_asn_records_bytes_snoc(s: Seq<AsnRecord>, x: AsnRecord, prev: u128, pc: int, pa: int, pn: int)
    ensures
        asn_records_bytes(s.push(x), prev, pc, pa, pn) == asn_records_bytes(s, prev, pc, pa, pn)
            + asn_record_bytes(x, last_start(s, prev), last_cidr(s, pc), last_asn(s, pa),
            last_name(s, pn)),
    decreases s.len(),
{
    if s.len() == 0 {
        reveal_with_fuel(asn_records_bytes, 2);
        assert(s.push(x).skip(1) =~= Seq::<AsnRecord>::empty());
        assert(asn_records_bytes(s.push(x), prev, pc, pa, pn) =~= asn_record_bytes(
            x, prev, pc, pa, pn,
        ));
        assert(asn_records_bytes(s, prev, pc, pa, pn) + asn_record_bytes(x, prev, pc, pa, pn)
            =~= asn_record_bytes(x, prev, pc, pa, pn));
    } else {
        assert(s.push(x).skip(1) =~= s.skip(1).push(x));
        lemma_asn_records_bytes_snoc(
            s.skip(1),
            x,
            s[0].start,
            s[0].cidr_idx as int,
            s[0].asn_idx as int,
            s[0].name_idx as int,
        );
        assert(asn_records_bytes(s.push(x), prev, pc, pa, pn) =~= asn_records_bytes(
            s, prev, pc, pa, pn,
        ) + asn_record_bytes(x, last_start(s, prev), last_cidr(s, pc), last_asn(s, pa),
            last_name(s, pn)));
    }
}

/// Every record's string indices point into a table of `n` strings handed
/// out under the zero-is-missing convention.
pub open spec fn asn_indices_in(s: Seq<AsnRecord>, n: nat) -> bool {
    forall|i: int| 0 <= i < s.len() ==> (#[trigger] s[i]).cidr_idx <= n && s[i].asn_idx <= n
        && s[i].name_idx <= n
}

/// Emits the ASN table: a 32-bit string count and the string table, then a
/// 32-bit record count and the records sorted into output order, their
/// starts varint-delta coded and their string indices signed-varint-delta
/// coded. The emitted record sequence is a permutation of the input.
#[verifier::rlimit(60)]
pub fn build_asn_bin(data: Vec<AsnRecord>, strings: &StringInterner) -> (out: Vec<u8>)
    requires
        records_wf(data@),
        data@.len() < 0x1_0000_0000,
        strings@.len() < 0x1_0000_0000,
        table_fits16(strings@),
        asn_indices_in(data@, strings@.len()),
    ensures
        exists|s: Seq<AsnRecord>|
            #[trigger] records_sorted(s) && s.to_multiset() == data@.to_multiset() && out@
                == le32(strings@.len() as u32) + str_entries16(strings@) + le32(
                data@.len() as u32,
            ) + asn_records_bytes(s, 0, 0, 0, 0),
{
    let mut v = data;
    sort_records(&mut v);
    proof {
        // index bounds carry over to the sorted permutation
        assert forall|k: int| 0 <= k < v@.len() implies (#[trigger] v@[k]).cidr_idx
            <= strings@.len() && v@[k].asn_idx <= strings@.len() && v@[k].name_idx
            <= strings@.len() by {
            vstd::seq_lib::to_multiset_contains(v@, v@[k]);
            vstd::seq_lib::to_multiset_contains(data@, v@[k]);
            assert(v@.contains(v@[k]));
            let m = choose|m: int| 0 <= m < data@.len() && data@[m] == v@[k];
            assert(data@[m].cidr_idx <= strings@.len());
        }
    }
    let n = v.len();
    let mut out: Vec<u8> = Vec::new();
    push_u32_le(&mut out, strings.len() as u32);
    push_str_entries(&mut out, strings);
    push_u32_le(&mut out, n as u32);
    let ghost base = out@;
    let ghost nstr = strings@.len();
    let mut prev: u128 = 0;
    let mut prev_c: usize = 0;
    let mut prev_a: usize = 0;
    let mut prev_n: usize = 0;
    let mut i: usize = 0;
    while i < n
        invariant
            0 <= i <= n,
            n == v@.len(),
            records_wf(v@),
            records_sorted(v@),
            nstr < 0x1_0000_0000,
            asn_indices_in(v@, nstr),
            prev_c <= nstr && prev_a <= nstr && prev_n <= nstr,
            out@ == base + asn_records_bytes(v@.take(i as int), 0, 0, 0, 0),
            prev == last_start(v@.take(i as int), 0),
            prev_c as int == last_cidr(v@.take(i as int), 0),
            prev_a as int == last_asn(v@.take(i as int), 0),
            prev_n as int == last_name(v@.take(i as int), 0),
        decreases n - i,
    {
        let r = v[i];
        proof {
            if i > 0 {
                assert(record_le(v@[i - 1], v@[i as int]));
                assert(v@.take(i as int).last() == v@[i - 1]);
            }
            assert(record_wf(v@[i as int]));
            assert(v@[i as int].cidr_idx <= nstr);
        }
        write_varint(&mut out, r.start - prev);
        write_varint(&mut out, r.end - r.start);
        write_signed_varint(&mut out, (r.cidr_idx as i64) - (prev_c as i64));
        write_signed_varint(&mut out, (r.asn_idx as i64) - (prev_a as i64));
        write_signed_varint(&mut out, (r.name_idx as i64) - (prev_n as i64));
        proof {
            lemma_asn_records_bytes_snoc(v@.take(i as int), r, 0, 0, 0, 0);
            assert(v@.take(i + 1) =~= v@.take(i as int).push(r));
            assert(v@.take(i + 1).last() == r);
        }
        prev = r.start;
        prev_c = r.cidr_idx;
        prev_a = r.asn_idx;
        prev_n = r.name_idx;
        i = i + 1;
    }
    proof {
        assert(v@.take(n as int) =~= v@);
        assert(records_sorted(v@) && v@.to_multiset() == data@.to_multiset() && out@ == le32(
            nstr as u32,
        ) + str_entries16(strings@) + le32(data@.len() as u32) + asn_records_bytes(v@, 0, 0, 0, 0));
    }
    out
}

/// One fixed-width string index: 32 bits when the table is wide, 16 bits
/// otherwise.
pub open spec fn idx_bytes(idx: usize, wide: bool) -> Seq<u8> {
    if wide {
        le32(idx as u32)
    } else {
        le16(idx as u16)
    }
}

/// One ISP record: varint delta start, varint span, then the three string
/// indices as plain fixed-width values (not delta-coded).
pub open spec fn isp_record_bytes(r: IspRecord, prev: u128, wide: bool) -> Seq<u8> {
    varint_enc((r.start - prev) as nat) + varint_enc(spec_span(r) as nat) + idx_bytes(
        r.isp_idx,
        wide,
    ) + idx_bytes(r.domain_idx, wide) + idx_bytes(r.provider_idx, wide)
}

/// A run of ISP records, starts delta-coded against their predecessors.
pub open spec fn isp_records_bytes(s: Seq<IspRecord>, prev: u128, wide: bool) -> Seq<u8>
    decreases s.len(),
{
    if s.len() == 0 {
        Seq::empty()
    } else {
        isp_record_bytes(s[0], prev, wide) + isp_records_bytes(s.skip(1), s[0].start, wide)
    }
}

proof fn lemma_isp_records_bytes_snoc(s: Seq<IspRecord>, x: IspRecord, prev: u128, wide: bool)
    ensures
        isp_records_bytes(s.push(x), prev, wide) == isp_records_bytes(s, prev, wide)
            + isp_record_bytes(x, last_start(s, prev), wide),
    decreases s.len(),
{
    if s.len() == 0 {
        reveal_with_fuel(isp_records_bytes, 2);
        assert(s.push(x).skip(1) =~= Seq::<IspRecord>::empty());
        assert(isp_records_bytes(s.push(x), prev, wide) =~= isp_record_bytes(x, prev, wide));
        assert(isp_records_bytes(s, prev, wide) + isp_record_bytes(x, prev, wide)
            =~= isp_record_bytes(x, prev, wide));
    } else {
        assert(s.push(x).skip(1) =~= s.skip(1).push(x));
        lemma_isp_records_bytes_snoc(s.skip(1), x, s[0].start, wide);
        assert(isp_records_bytes(s.push(x), prev, wide) =~= isp_records_bytes(s, prev, wide)
            + isp_record_bytes(x, last_start(s, prev), wide));
    }
}

/// Every record's string indices point into a table of `n` strings handed
/// out under the offset-with-reserved-empty convention.
pub open spec fn isp_indices_in(s: Seq<IspRecord>, n: nat) -> bool {
    forall|i: int| 0 <= i < s.len() ==> (#[trigger] s[i]).isp_idx <= n && s[i].domain_idx <= n
        && s[i].provider_idx <= n
}

/// Emits the ISP table: the reserved-empty string table, then a 32-bit
/// record count and the records sorted into output order, their starts
/// varint-delta coded and their string indices as plain fixed-width values,
/// 16 bits wide when the distinct-string count stays below 65536 and 32
/// bits wide otherwise. The emitted record sequence is a permutation of the
/// input.
#[verifier::rlimit(60)]
pub fn build_isp_bin(data: Vec<IspRecord>, strings: &StringInterner) -> (out: Vec<u8>)
    requires
        records_wf(data@),
        data@.len() < 0x1_0000_0000,
        strings@.len() < 0xffff_ffff,
        table_fits16(strings@),
        isp_indices_in(data@, strings@.len()),
    ensures
        exists|s: Seq<IspRecord>|
            #[trigger] records_sorted(s) && s.to_multiset() == data@.to_multiset() && out@
                == le32((strings@.len() + 1) as u32) + le16(0) + str_entries16(strings@) + le32(
                data@.len() as u32,
            ) + isp_records_bytes(s, 0, strings@.len() >= 0x10000),
{
    let mut v = data;
    sort_records(&mut v);
    proof {
        // index bounds carry over to the sorted permutation
        assert forall|k: int| 0 <= k < v@.len() implies (#[trigger] v@[k]).isp_idx
            <= strings@.len() && v@[k].domain_idx <= strings@.len() && v@[k].provider_idx
            <= strings@.len() by {
            vstd::seq_lib::to_multiset_contains(v@, v@[k]);
            vstd::seq_lib::to_multiset_contains(data@, v@[k]);
            assert(v@.contains(v@[k]));
            let m = choose|m: int| 0 <= m < data@.len() && data@[m] == v@[k];
            assert(data@[m].isp_idx <= strings@.len());
        }
    }
    let wide = strings.len() >= 0x10000;
    let n = v.len();
    let mut out: Vec<u8> = Vec::new();
    write_string_table(&mut out, strings);
    push_u32_le(&mut out, n as u32);
    let ghost base = out@;
    let ghost nstr = strings@.len();
    let mut prev: u128 = 0;
    let mut i: usize = 0;
    while i < n
        invariant
            0 <= i <= n,
            n == v@.len(),
            records_wf(v@),
            records_sorted(v@),
            nstr < 0xffff_ffff,
            isp_indices_in(v@, nstr),
            wide == (nstr >= 0x10000),
            out@ == base + isp_records_bytes(v@.take(i as int), 0, wide),
            prev == last_start(v@.take(i as int), 0),
        decreases n - i,
    {
        let r = v[i];
        proof {
            if i > 0 {
                assert(record_le(v@[i - 1], v@[i as int]));
                assert(v@.take(i as int).last() == v@[i - 1]);
            }
            assert(record_wf(v@[i as int]));
            assert(v@[i as int].isp_idx <= nstr);
        }
        write_varint(&mut out, r.start - prev);
        write_varint(&mut out, r.end - r.start);
        if wide {
            push_u32_le(&mut out, r.isp_idx as u32);
            push_u32_le(&mut out, r.domain_idx as u32);
            push_u32_le(&mut out, r.provider_idx as u32);
        } else {
            push_u16_le(&mut out, r.isp_idx as u16);
            push_u16_le(&mut out, r.domain_idx as u16);
            push_u16_le(&mut out, r.provider_idx as u16);
        }
        proof {
            lemma_isp_records_bytes_snoc(v@.take(i as int), r, 0, wide);
            assert(v@.take(i + 1) =~= v@.take(i as int).push(r));
            assert(v@.take(i + 1).last() == r);
        }
        prev = r.start;
        i = i + 1;
    }
    proof {
        assert(v@.take(n as int) =~= v@);
        assert(records_sorted(v@) && v@.to_multiset() == data@.to_multiset() && out@ == le32(
            (nstr + 1) as u32,
        ) + le16(0) + str_entries16(strings@) + le32(data@.len() as u32) + isp_records_bytes(
            v@,
            0,
            nstr >= 0x10000,
        ));
    }
    out
}

} // verus!
