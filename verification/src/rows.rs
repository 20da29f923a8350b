//! Turning parsed CSV rows into range records.
//!
//! Each dataset consumes the columns it needs from an already split row
//! (see [`crate::csv::parse_csv_line`]): a row with fewer columns than the
//! dataset requires is skipped, addresses are parsed as decimal fields and
//! brought into the unified space, and string fields are interned.

use vstd::prelude::*;
use crate::addr::{parse_u128_spec, unified_spec, parse_u128, unify_address};
use crate::interner::{
    InternStrategy, StringInterner, intern_spec, intern_offset_spec, placeholder,
};
use crate::records::{AsnRecord, IspRecord, IpRange};
use crate::proxy::{ProxyTable, proxy_add_spec};

verus! {

/// The range a row declares: its first two fields read as decimal
/// addresses, brought into the unified space.
pub open spec fn row_range(parts: Seq<Seq<char>>, is_v4: bool) -> IpRange {
    IpRange {
        start: unified_spec(parse_u128_spec(parts[0]), is_v4),
        end: unified_spec(parse_u128_spec(parts[1]), is_v4),
    }
}

/// Reads the range of a geolocation row: skipped when the row has fewer
/// than 8 columns. The latitude and longitude columns hold fractional
/// numbers, so reading them, scaling them by 1000 and discarding rows
/// located at exactly (0, 0) is the caller's part.
pub fn process_geo_row(parts: &Vec<String>, is_v4: bool) -> (r: Option<IpRange>)
    ensures
        parts.deep_view().len() < 8 ==> r is None,
        parts.deep_view().len() >= 8 ==> r == Some(row_range(parts.deep_view(), is_v4)),
{
    if parts.len() < 8 {
        return None;
    }
    let start = unify_address(parse_u128(parts[0].as_str()), is_v4);
    let end = unify_address(parse_u128(parts[1].as_str()), is_v4);
    Some(IpRange { start, end })
}

/// Records a proxy row under its type name: skipped when the row has fewer
/// than 3 columns, otherwise its range is added to the group named by the
/// third column.
pub fn process_proxy_row(parts: &Vec<String>, is_v4: bool, types: &mut ProxyTable)
    requires
        old(types).wf(),
    ensures
        final(types).wf(),
        parts.deep_view().len() < 3 ==> final(types)@ == old(types)@,
        parts.deep_view().len() >= 3 ==> final(types)@ == proxy_add_spec(
            old(types)@,
            parts.deep_view()[2],
            row_range(parts.deep_view(), is_v4),
        ),
{
    if parts.len() < 3 {
        return;
    }
    let start = unify_address(parse_u128(parts[0].as_str()), is_v4);
    let end = unify_address(parse_u128(parts[1].as_str()), is_v4);
    types.add(&parts[2], IpRange { start, end });
}

/// What one ASN row leaves behind: the untouched state when the row has
/// fewer than 5 columns or its ASN field is the placeholder, else the
/// record built from its range and its three interned string columns
/// (CIDR text, ASN identifier, organization name) with the table they
/// grew.
pub open spec fn asn_row_spec(
    parts: Seq<Seq<char>>,
    is_v4: bool,
    data: Seq<AsnRecord>,
    tbl: Seq<Seq<char>>,
) -> (Seq<AsnRecord>, Seq<Seq<char>>) {
    if parts.len() < 5 || parts[3] == placeholder() {
        (data, tbl)
    } else {
        let r = row_range(parts, is_v4);
        let t1 = intern_spec(tbl, parts[2]);
        let t2 = intern_spec(t1.0, parts[3]);
        let t3 = intern_spec(t2.0, parts[4]);
        (
            data.push(
                AsnRecord {
                    start: r.start,
                    end: r.end,
                    cidr_idx: t1.1 as usize,
                    asn_idx: t2.1 as usize,
                    name_idx: t3.1 as usize,
                },
            ),
            t3.0,
        )
    }
}

/// Turns one ASN row into a record: rows with fewer than 5 columns and
/// rows whose ASN field is the placeholder are skipped; the CIDR text, ASN
/// identifier and organization name are interned under the zero-is-missing
/// convention.
pub fn process_asn_row(
    parts: &Vec<String>,
    is_v4: bool,
    data: &mut Vec<AsnRecord>,
    strings: &mut StringInterner,
)
    requires
        old(strings).wf(),
        old(strings).spec_strategy() == InternStrategy::ZeroIsMissing,
        old(strings)@.len() < usize::MAX - 3,
    ensures
        final(strings).wf(),
        final(strings).spec_strategy() == old(strings).spec_strategy(),
        (final(data)@, final(strings)@) == asn_row_spec(
            parts.deep_view(),
            is_v4,
            old(data)@,
            old(strings)@,
        ),
{
    if parts.len() < 5 {
        return;
    }
    let dash: String = "-".to_owned();
    proof {
        reveal_strlit("-");
        assert("-"@ =~= placeholder());
    }
    if parts[3] == dash {
        return;
    }
    let start = unify_address(parse_u128(parts[0].as_str()), is_v4);
    let end = unify_address(parse_u128(parts[1].as_str()), is_v4);
    let cidr_idx = strings.intern(parts[2].as_str());
    let asn_idx = strings.intern(parts[3].as_str());
    let name_idx = strings.intern(parts[4].as_str());
    data.push(AsnRecord { start, end, cidr_idx, asn_idx, name_idx });
}

/// What one ISP row leaves behind: the untouched state when the row has
/// fewer than 9 columns, else the record built from its range and its
/// interned ISP, domain and provider columns (the provider column is read
/// as the placeholder when the row does not reach it) with the table they
/// grew.
pub open spec fn isp_row_spec(
    parts: Seq<Seq<char>>,
    is_v4: bool,
    data: Seq<IspRecord>,
    tbl: Seq<Seq<char>>,
) -> (Seq<IspRecord>, Seq<Seq<char>>) {
    if parts.len() < 9 {
        (data, tbl)
    } else {
        let r = row_range(parts, is_v4);
        let provider = if parts.len() > 13 {
            parts[13]
        } else {
            placeholder()
        };
        let t1 = intern_offset_spec(tbl, parts[7]);
        let t2 = intern_offset_spec(t1.0, parts[8]);
        let t3 = intern_offset_spec(t2.0, provider);
        (
            data.push(
                IspRecord {
                    start: r.start,
                    end: r.end,
                    isp_idx: t1.1 as usize,
                    domain_idx: t2.1 as usize,
                    provider_idx: t3.1 as usize,
                },
            ),
            t3.0,
        )
    }
}

/// Turns one ISP row into a record: rows with fewer than 9 columns are
/// skipped; the ISP, domain and provider columns are interned under the
/// offset-with-reserved-empty convention, the provider reading as the
/// placeholder when the row does not reach its column.
pub fn process_isp_row(
    parts: &Vec<String>,
    is_v4: bool,
    data: &mut Vec<IspRecord>,
    strings: &mut StringInterner,
)
    requires
        old(strings).wf(),
        old(strings).spec_strategy() == InternStrategy::OffsetWithReservedEmpty,
        old(strings)@.len() < usize::MAX - 4,
    ensures
        final(strings).wf(),
        final(strings).spec_strategy() == old(strings).spec_strategy(),
        (final(data)@, final(strings)@) == isp_row_spec(
            parts.deep_view(),
            is_v4,
            old(data)@,
            old(strings)@,
        ),
{
    if parts.len() < 9 {
        return;
    }
    let start = unify_address(parse_u128(parts[0].as_str()), is_v4);
    let end = unify_address(parse_u128(parts[1].as_str()), is_v4);
    let isp_idx = strings.intern_with_offset(parts[7].as_str());
    let domain_idx = strings.intern_with_offset(parts[8].as_str());
    let provider_idx = if parts.len() > 13 {
        strings.intern_with_offset(parts[13].as_str())
    } else {
        proof {
            reveal_strlit("-");
            assert("-"@ =~= placeholder());
        }
        strings.intern_with_offset("-")
    };
    data.push(IspRecord { start, end, isp_idx, domain_idx, provider_idx });
}

} // verus!
