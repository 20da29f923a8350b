//! Address-range records and the machinery every output table shares:
//! normalization into one sort order and exact-duplicate merging.
//!
//! All records live in the unified 128-bit address space (see [`crate::addr`])
//! and carry an inclusive range with `start <= end`. Tables are emitted in
//! ascending `start` order, ties broken by ascending span `end - start`, so
//! among ranges sharing a start the most specific one comes first.

use vstd::prelude::*;
use vstd::pervasive::VecAdditionalExecFns;

verus! {

/// A record that occupies an inclusive address range.
pub trait RangeRecord: Sized + Copy {
    /// First address of the range.
    spec fn spec_start(&self) -> u128;

    /// Last address of the range (inclusive).
    spec fn spec_end(&self) -> u128;

    /// First address of the range.
    fn start(&self) -> (r: u128)
        ensures
            r == self.spec_start(),
    ;

    /// Last address of the range (inclusive).
    fn end(&self) -> (r: u128)
        ensures
            r == self.spec_end(),
    ;
}

/// A record's range is well-formed: it ends no earlier than it starts.
pub open spec fn record_wf<T: RangeRecord>(r: T) -> bool {
    r.spec_start() <= r.spec_end()
}

/// Every record of `s` is well-formed.
pub open spec fn records_wf<T: RangeRecord>(s: Seq<T>) -> bool {
    forall|i: int| 0 <= i < s.len() ==> record_wf(#[trigger] s[i])
}

/// The number of addresses a record covers beyond its first.
pub open spec fn spec_span<T: RangeRecord>(r: T) -> int {
    r.spec_end() - r.spec_start()
}

/// The output order: ascending start, ties broken by ascending span.
pub open spec fn record_le<T: RangeRecord>(a: T, b: T) -> bool {
    a.spec_start() < b.spec_start() || (a.spec_start() == b.spec_start() && spec_span(a)
        <= spec_span(b))
}

/// `s` is in output order.
pub open spec fn records_sorted<T: RangeRecord>(s: Seq<T>) -> bool {
    forall|i: int, j: int| 0 <= i < j < s.len() ==> record_le(#[trigger] s[i], #[trigger] s[j])
}

/// An inclusive address range in the unified space.
#[derive(Clone, Copy, PartialEq, Eq, Structural)]
pub struct IpRange {
    pub start: u128,
    pub end: u128,
}

impl RangeRecord for IpRange {
    open spec fn spec_start(&self) -> u128 {
        self.start
    }

    open spec fn spec_end(&self) -> u128 {
        self.end
    }

    fn start(&self) -> u128 {
        self.start
    }

    fn end(&self) -> u128 {
        self.end
    }
}

/// A geolocation record: a range and a location in thousandths of a degree.
#[derive(Clone, Copy, PartialEq, Eq, Structural)]
pub struct GeoRecord {
    pub start: u128,
    pub end: u128,
    /// Latitude scaled by 1000 and rounded.
    pub lat_milli: i32,
    /// Longitude scaled by 1000 and rounded.
    pub lon_milli: i32,
}

impl RangeRecord for GeoRecord {
    open spec fn spec_start(&self) -> u128 {
        self.start
    }

    open spec fn spec_end(&self) -> u128 {
        self.end
    }

    fn start(&self) -> u128 {
        self.start
    }

    fn end(&self) -> u128 {
        self.end
    }
}

/// An ASN record: a range and three interned strings (CIDR text, ASN
/// identifier, organization name) under the zero-is-missing convention.
#[derive(Clone, Copy, PartialEq, Eq, Structural)]
pub struct AsnRecord {
    pub start: u128,
    pub end: u128,
    pub cidr_idx: usize,
    pub asn_idx: usize,
    pub name_idx: usize,
}

impl RangeRecord for AsnRecord {
    open spec fn spec_start(&self) -> u128 {
        self.start
    }

    open spec fn spec_end(&self) -> u128 {
        self.end
    }

    fn start(&self) -> u128 {
        self.start
    }

    fn end(&self) -> u128 {
        self.end
    }
}

/// An ISP record: a range and three interned strings (ISP, domain,
/// provider) under the offset-with-reserved-empty convention.
#[derive(Clone, Copy, PartialEq, Eq, Structural)]
pub struct IspRecord {
    pub start: u128,
    pub end: u128,
    pub isp_idx: usize,
    pub domain_idx: usize,
    pub provider_idx: usize,
}

impl RangeRecord for IspRecord {
    open spec fn spec_start(&self) -> u128 {
        self.start
    }

    open spec fn spec_end(&self) -> u128 {
        self.end
    }

    fn start(&self) -> u128 {
        self.start
    }

    fn end(&self) -> u128 {
        self.end
    }
}

/// Strictly before in the output order.
fn record_lt<T: RangeRecord>(a: &T, b: &T) -> (r: bool)
    requires
        record_wf(*a),
        record_wf(*b),
    ensures
        r == !record_le(*b, *a),
{
    let a_start = a.start();
    let b_start = b.start();
    a_start < b_start || (a_start == b_start && a.end() - a_start < b.end() - b_start)
}

/// Sorts records into the output order: ascending start, ties broken by
/// ascending span. The result is a permutation of the input.
pub fn sort_records<T: RangeRecord>(v: &mut Vec<T>)
    requires
        records_wf(old(v)@),
    ensures
        final(v)@.len() == old(v)@.len(),
        final(v)@.to_multiset() == old(v)@.to_multiset(),
        records_wf(final(v)@),
        records_sorted(final(v)@),
{
    broadcast use vstd::seq_lib::group_to_multiset_ensures;
    broadcast use vstd::multiset::group_multiset_axioms;

    let n = v.len();
    if n <= 1 {
        return;
    }
    let mut i: usize = 1;
    while i < n
        invariant
            1 <= i <= n,
            n == v@.len(),
            records_wf(v@),
            v@.to_multiset() == old(v)@.to_multiset(),
            records_sorted(v@.take(i as int)),
        decreases n - i,
    {
        let mut j: usize = i;
        proof {
            assert forall|a: int, b: int| 0 <= a < b <= i && b != j implies record_le(
                v@[a],
                v@[b],
            ) by {
                assert(v@.take(i as int)[a] == v@[a]);
                assert(v@.take(i as int)[b] == v@[b]);
            }
        }
        while j > 0
            invariant
                0 <= j <= i < n,
                n == v@.len(),
                records_wf(v@),
                v@.to_multiset() == old(v)@.to_multiset(),
                forall|a: int, b: int|
                    0 <= a < b <= i && b != j ==> record_le(#[trigger] v@[a], #[trigger] v@[b]),
            ensures
                0 <= j <= i < n,
                n == v@.len(),
                records_wf(v@),
                v@.to_multiset() == old(v)@.to_multiset(),
                forall|a: int, b: int|
                    0 <= a < b <= i && b != j ==> record_le(#[trigger] v@[a], #[trigger] v@[b]),
                j > 0 ==> record_le(v@[j - 1], v@[j as int]),
            decreases j,
        {
            let cur = v[j];
            let prev = v[j - 1];
            if !record_lt(&cur, &prev) {
                break;
            }
            let ghost before = v@;
            v.set(j - 1, cur);
            v.set(j, prev);
            proof {
                let ghost mid = before.update(j - 1, cur);
                vstd::seq_lib::to_multiset_update(before, j - 1, cur);
                vstd::seq_lib::to_multiset_update(mid, j as int, prev);
                assert(v@ =~= mid.update(j as int, prev));
                assert(mid[j as int] == cur);
                assert(before.contains(prev)) by {
                    assert(before[j - 1] == prev);
                }
                assert(before.contains(cur)) by {
                    assert(before[j as int] == cur);
                }
                vstd::seq_lib::to_multiset_contains(before, prev);
                vstd::seq_lib::to_multiset_contains(before, cur);
                assert(before.to_multiset().count(prev) > 0);
                assert(before.to_multiset().count(cur) > 0);
                assert forall|x: T| v@.to_multiset().count(x) == before.to_multiset().count(x) by {
                    let m0 = before.to_multiset();
                    assert(mid.to_multiset().count(x) == m0.insert(cur).remove(prev).count(x));
                    assert(v@.to_multiset().count(x) == mid.to_multiset().insert(prev).remove(
                        cur,
                    ).count(x));
                }
                assert(v@.to_multiset() =~= before.to_multiset());
                assert forall|a: int, b: int|
                    0 <= a < b <= i && b != j - 1 implies record_le(v@[a], v@[b]) by {
                    assert(record_le(before[j as int], before[j - 1]));
                }
            }
            j = j - 1;
        }
        proof {
            assert forall|a: int, b: int| 0 <= a < b <= i implies record_le(v@[a], v@[b]) by {
                if b == j && j > 0 {
                    assert(record_le(v@[j - 1], v@[j as int]));
                    if a < j - 1 {
                        assert(record_le(v@[a], v@[j - 1]));
                    }
                }
            }
            assert forall|a: int, b: int| 0 <= a < b < i + 1 implies record_le(
                #[trigger] v@.take(i + 1)[a],
                #[trigger] v@.take(i + 1)[b],
            ) by {
                assert(v@.take(i + 1)[a] == v@[a]);
                assert(v@.take(i + 1)[b] == v@[b]);
            }
        }
        i = i + 1;
    }
    proof {
        assert(v@.take(n as int) =~= v@);
    }
}

/// Whether some record of `s` covers exactly the range `start..=end`.
pub open spec fn contains_pair<T: RangeRecord>(s: Seq<T>, start: u128, end: u128) -> bool {
    exists|i: int| 0 <= i < s.len() && (#[trigger] s[i]).spec_start() == start && s[i].spec_end()
        == end
}

/// The test a trie-decoded range must pass to survive the merge: no range
/// of `csv` covers exactly the same addresses.
pub open spec fn not_covered_by(csv: Seq<GeoRecord>) -> spec_fn(GeoRecord) -> bool {
    |t: GeoRecord| !contains_pair(csv, t.start, t.end)
}

/// Merges trie-decoded geolocation ranges into the CSV-declared ones: a
/// trie range is appended only when no CSV range has the identical
/// `(start, end)` pair, so CSV entries always take precedence over
/// trie-sourced duplicates. This is exact-match de-duplication, not
/// interval overlap resolution.
pub fn merge_trie_ranges(ranges: &mut Vec<GeoRecord>, trie: &Vec<GeoRecord>)
    ensures
        final(ranges)@ == old(ranges)@ + trie@.filter(not_covered_by(old(ranges)@)),
{
    let ghost orig = ranges@;
    let ghost pred = not_covered_by(orig);
    let csv_len = ranges.len();
    let mut i: usize = 0;
    while i < trie.len()
        invariant
            0 <= i <= trie@.len(),
            csv_len == orig.len(),
            orig == ranges@.take(csv_len as int),
            pred == not_covered_by(orig),
            ranges@ == orig + trie@.take(i as int).filter(pred),
        decreases trie@.len() - i,
    {
        let t = trie[i];
        let mut found = false;
        let mut k: usize = 0;
        while k < csv_len
            invariant
                0 <= k <= csv_len <= ranges@.len(),
                i < trie@.len(),
                orig == ranges@.take(csv_len as int),
                t == trie@[i as int],
                found ==> contains_pair(orig, t.start, t.end),
                !found ==> forall|m: int|
                    0 <= m < k ==> !((#[trigger] orig[m]).spec_start() == t.start
                        && orig[m].spec_end() == t.end),
            ensures
                found == contains_pair(orig, t.start, t.end),
            decreases csv_len - k,
        {
            let c = ranges[k];
            proof {
                assert(ranges@.take(csv_len as int)[k as int] == ranges@[k as int]);
                assert(c == orig[k as int]);
            }
            if c.start == t.start && c.end == t.end {
                found = true;
                proof {
                    assert(orig[k as int].spec_start() == t.start && orig[k as int].spec_end()
                        == t.end);
                }
                break;
            }
            k = k + 1;
        }
        proof {
            reveal(Seq::filter);
            assert(trie@.take(i + 1).drop_last() =~= trie@.take(i as int));
            assert(trie@.take(i + 1).last() == t);
            assert(pred(t) == !found);
        }
        if !found {
            ranges.push(t);
            proof {
                reveal(Seq::filter);
                assert(trie@.take(i + 1).filter(pred) == trie@.take(i as int).filter(pred).push(
                    t,
                ));
                assert(ranges@ =~= orig + trie@.take(i + 1).filter(pred));
                assert(ranges@.take(csv_len as int) =~= orig);
            }
        } else {
            proof {
                reveal(Seq::filter);
                assert(trie@.take(i + 1).filter(pred) == trie@.take(i as int).filter(pred));
                assert(ranges@ =~= orig + trie@.take(i + 1).filter(pred));
            }
        }
        i = i + 1;
    }
    proof {
        assert(trie@.take(trie@.len() as int) =~= trie@);
    }
}

} // verus!
