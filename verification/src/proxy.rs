//! The proxy-type table: address ranges grouped by type name, each
//! subtable independently sorted and independently delta-encoded.

use vstd::prelude::*;
use vstd::utf8::encode_utf8;
use vstd::pervasive::VecAdditionalExecFns;
use crate::varint::{varint_enc, write_varint};
use crate::records::{
    RangeRecord, record_wf, records_wf, spec_span, record_le, records_sorted, IpRange,
    sort_records,
};
use crate::tables::{le16, le32, push_u16_le, push_u32_le, last_start};

verus! {

/// One group: a type name and the ranges recorded under it.
pub struct ProxyEntry {
    pub name: String,
    pub ranges: Vec<IpRange>,
}

/// Ranges grouped by proxy-type name, in first-sight order of the names.
pub struct ProxyTable {
    entries: Vec<ProxyEntry>,
}

/// Whether `v` holds a group named `name`.
pub open spec fn has_key(v: Seq<(Seq<char>, Seq<IpRange>)>, name: Seq<char>) -> bool {
    exists|i: int| 0 <= i < v.len() && (#[trigger] v[i]).0 == name
}

/// The position of the group named `name`.
pub open spec fn key_index(v: Seq<(Seq<char>, Seq<IpRange>)>, name: Seq<char>) -> int {
    choose|i: int| 0 <= i < v.len() && (#[trigger] v[i]).0 == name
}

/// Adding one range under `name`: appended to the existing group, or to a
/// fresh group at the end when the name is new.
pub open spec fn proxy_add_spec(
    v: Seq<(Seq<char>, Seq<IpRange>)>,
    name: Seq<char>,
    r: IpRange,
) -> Seq<(Seq<char>, Seq<IpRange>)> {
    if has_key(v, name) {
        let i = key_index(v, name);
        v.update(i, (name, v[i].1.push(r)))
    } else {
        v.push((name, seq![r]))
    }
}

impl ProxyTable {
    /// The groups: each type name with its ranges, in first-sight order.
    pub closed spec fn view(&self) -> Seq<(Seq<char>, Seq<IpRange>)> {
        Seq::new(self.entries@.len(), |i: int| (self.entries@[i].name@, self.entries@[i].ranges@))
    }

    /// Group names are unique.
    pub open spec fn wf(&self) -> bool {
        forall|i: int, j: int| 0 <= i < j < self@.len() ==> (#[trigger] self@[i]).0 != (
        #[trigger] self@[j]).0
    }

    /// Creates an empty table.
    pub fn new() -> (r: ProxyTable)
        ensures
            r.wf(),
            r@ == Seq::<(Seq<char>, Seq<IpRange>)>::empty(),
    {
        let r = ProxyTable { entries: Vec::new() };
        proof {
            assert(r@ =~= Seq::<(Seq<char>, Seq<IpRange>)>::empty());
        }
        r
    }

    /// Records `range` under the type `name`.
    pub fn add(&mut self, name: &String, range: IpRange)
        requires
            old(self).wf(),
        ensures
            final(self).wf(),
            final(self)@ == proxy_add_spec(old(self)@, name@, range),
    {
        let n = self.entries.len();
        let mut k: usize = 0;
        while k < n
            invariant
                0 <= k <= n,
                n == self.entries@.len(),
                self@.len() == n,
                self.wf(),
                self@ == old(self)@,
                forall|m: int| 0 <= m < k ==> (#[trigger] self@[m]).0 != name@,
                forall|m: int|
                    0 <= m < n ==> (#[trigger] self@[m]) == (
                    self.entries@[m].name@,
                    self.entries@[m].ranges@,
                ),
            decreases n - k,
        {
            if self.entries[k].name == *name {
                proof {
                    assert(self@[k as int].0 == name@);
                    assert(has_key(self@, name@));
                    let i = key_index(self@, name@);
                    assert(self@[i].0 == name@);
                    if i < k {
                        assert(self@[i].0 != self@[k as int].0);
                    }
                    if i > k {
                        assert(self@[k as int].0 != self@[i].0);
                    }
                    assert(key_index(self@, name@) == k as int);
                }
                let ghost before = self@;
                let mut e = ProxyEntry { name: String::new(), ranges: Vec::new() };
                self.entries.set_and_swap(k, &mut e);
                e.ranges.push(range);
                self.entries.set_and_swap(k, &mut e);
                proof {
                    assert(self@ =~~= before.update(
                        k as int,
                        (name@, before[k as int].1.push(range)),
                    ));
                    assert(forall|m: int|
                        0 <= m < before.len() && m != k ==> self@[m] == #[trigger] before[m]);
                    assert(forall|m: int|
                        0 <= m < before.len() ==> (#[trigger] self@[m]).0 == before[m].0);
                }
                return;
            }
            k = k + 1;
        }
        proof {
            if has_key(self@, name@) {
                let i = key_index(self@, name@);
                assert(self@[i].0 == name@);
            }
            assert(!has_key(self@, name@));
        }
        let ghost before = self@;
        let mut rs: Vec<IpRange> = Vec::new();
        rs.push(range);
        self.entries.push(ProxyEntry { name: name.clone(), ranges: rs });
        proof {
            assert(self@ =~~= before.push((name@, seq![range])));
            assert(forall|m: int| 0 <= m < before.len() ==> self@[m] == #[trigger] before[m]);
            assert(self@[before.len() as int].0 == name@);
        }
    }

    /// The number of groups.
    pub fn len(&self) -> (n: usize)
        ensures
            n == self@.len(),
    {
        self.entries.len()
    }

    /// Takes the groups out of the table, in order.
    fn into_entries(self) -> (r: Vec<ProxyEntry>)
        ensures
            r@.len() == self@.len(),
            forall|i: int|
                0 <= i < r@.len() ==> (#[trigger] self@[i]) == (r@[i].name@, r@[i].ranges@),
    {
        self.entries
    }
}

/// A run of delta-coded ranges: varint delta start, varint span each.
pub open spec fn range_list_bytes(s: Seq<IpRange>, prev: u128) -> Seq<u8>
    decreases s.len(),
{
    if s.len() == 0 {
        Seq::empty()
    } else {
        varint_enc((s[0].start - prev) as nat) + varint_enc(spec_span(s[0]) as nat)
            + range_list_bytes(s.skip(1), s[0].start)
    }
}

proof fn lemma_range_list_bytes_snoc(s: Seq<IpRange>, x: IpRange, prev: u128)
    ensures
        range_list_bytes(s.push(x), prev) == range_list_bytes(s, prev) + varint_enc(
            (x.start - last_start(s, prev)) as nat,
        ) + varint_enc(spec_span(x) as nat),
    decreases s.len(),
{
    if s.len() == 0 {
        reveal_with_fuel(range_list_bytes, 2);
        assert(s.push(x).skip(1) =~= Seq::<IpRange>::empty());
        assert(range_list_bytes(s.push(x), prev) =~= varint_enc((x.start - prev) as nat)
            + varint_enc(spec_span(x) as nat));
        assert(range_list_bytes(s, prev) + varint_enc((x.start - prev) as nat) + varint_enc(
            spec_span(x) as nat,
        ) =~= varint_enc((x.start - prev) as nat) + varint_enc(spec_span(x) as nat));
    } else {
        assert(s.push(x).skip(1) =~= s.skip(1).push(x));
        lemma_range_list_bytes_snoc(s.skip(1), x, s[0].start);
        assert(range_list_bytes(s.push(x), prev) =~= range_list_bytes(s, prev) + varint_enc(
            (x.start - last_start(s, prev)) as nat,
        ) + varint_enc(spec_span(x) as nat));
    }
}

/// Sorts one subtable into output order and appends its 32-bit range count
/// and its delta-coded ranges.
fn push_sorted_ranges(out: &mut Vec<u8>, ranges: &mut Vec<IpRange>)
    requires
        records_wf(old(ranges)@),
        old(ranges)@.len() < 0x1_0000_0000,
    ensures
        records_sorted(final(ranges)@),
        final(ranges)@.to_multiset() == old(ranges)@.to_multiset(),
        final(ranges)@.len() == old(ranges)@.len(),
        final(out)@ == old(out)@ + le32(old(ranges)@.len() as u32) + range_list_bytes(
            final(ranges)@,
            0,
        ),
{
    sort_records(ranges);
    let n = ranges.len();
    push_u32_le(out, n as u32);
    let ghost base = out@;
    let mut prev: u128 = 0;
    let mut i: usize = 0;
    while i < n
        invariant
            0 <= i <= n,
            n == ranges@.len(),
            records_wf(ranges@),
            records_sorted(ranges@),
            out@ == base + range_list_bytes(ranges@.take(i as int), 0),
            prev == last_start(ranges@.take(i as int), 0),
        decreases n - i,
    {
        let r = ranges[i];
        proof {
            if i > 0 {
                assert(record_le(ranges@[i - 1], ranges@[i as int]));
                assert(ranges@.take(i as int).last() == ranges@[i - 1]);
            }
            assert(record_wf(ranges@[i as int]));
        }
        write_varint(out, r.start - prev);
        write_varint(out, r.end - r.start);
        proof {
            lemma_range_list_bytes_snoc(ranges@.take(i as int), r, 0);
            assert(ranges@.take(i + 1) =~= ranges@.take(i as int).push(r));
            assert(ranges@.take(i + 1).last() == r);
        }
        prev = r.start;
        i = i + 1;
    }
    proof {
        assert(ranges@.take(n as int) =~= ranges@);
    }
}

/// One emitted group: an 8-bit name byte length, the name bytes, a 32-bit
/// range count, then the group's ranges delta-coded from zero.
pub open spec fn proxy_entry_bytes(name: Seq<char>, ranges: Seq<IpRange>) -> Seq<u8> {
    seq![encode_utf8(name).len() as u8] + encode_utf8(name) + le32(ranges.len() as u32)
        + range_list_bytes(ranges, 0)
}

/// The emitted groups, in table order.
pub open spec fn proxy_entries_bytes(v: Seq<(Seq<char>, Seq<IpRange>)>) -> Seq<u8>
    decreases v.len(),
{
    if v.len() == 0 {
        Seq::empty()
    } else {
        proxy_entries_bytes(v.drop_last()) + proxy_entry_bytes(v.last().0, v.last().1)
    }
}

/// The whole proxy-type table: a 16-bit group count, then the groups.
pub open spec fn proxy_table_bytes(v: Seq<(Seq<char>, Seq<IpRange>)>) -> Seq<u8> {
    le16(v.len() as u16) + proxy_entries_bytes(v)
}

/// Whether the table is small enough for the emitted layout: at most 65535
/// groups, names of at most 255 bytes, subtables of fewer than 2^32
/// well-formed ranges.
pub open spec fn proxy_emittable(v: Seq<(Seq<char>, Seq<IpRange>)>) -> bool {
    &&& v.len() < 0x10000
    &&& forall|i: int|
        0 <= i < v.len() ==> encode_utf8((#[trigger] v[i]).0).len() < 0x100 && v[i].1.len()
            < 0x1_0000_0000 && records_wf(v[i].1)
}

/// Emits the proxy-type table: a 16-bit type count, then per type its name,
/// its range count and its ranges sorted into output order, the delta
/// encoding restarting from zero for every type. Each emitted subtable is a
/// permutation of the group's recorded ranges; names and group order are
/// kept.
pub fn build_proxy_types_bin(types: ProxyTable) -> (out: Vec<u8>)
    requires
        proxy_emittable(types@),
    ensures
        exists|w: Seq<(Seq<char>, Seq<IpRange>)>|
            #![trigger proxy_table_bytes(w)]
            w.len() == types@.len() && (forall|k: int|
                0 <= k < w.len() ==> (#[trigger] w[k]).0 == types@[k].0 && records_sorted(w[k].1)
                    && w[k].1.to_multiset() == types@[k].1.to_multiset()) && out@
                == proxy_table_bytes(w),
{
    let ghost orig = types@;
    let n = types.len();
    let mut entries = types.into_entries();
    let mut out: Vec<u8> = Vec::new();
    push_u16_le(&mut out, n as u16);
    let ghost base = out@;
    let ghost w0 = Seq::<(Seq<char>, Seq<IpRange>)>::empty();
    let mut k: usize = 0;
    let ghost mut w = w0;
    while k < n
        invariant
            0 <= k <= n,
            n == orig.len(),
            proxy_emittable(orig),
            entries@.len() == n - k,
            forall|m: int|
                0 <= m < n - k ==> orig[m + k] == ((#[trigger] entries@[m]).name@,
                entries@[m].ranges@),
            w.len() == k,
            forall|m: int|
                0 <= m < k ==> (#[trigger] w[m]).0 == orig[m].0 && records_sorted(w[m].1)
                    && w[m].1.to_multiset() == orig[m].1.to_multiset(),
            out@ == base + proxy_entries_bytes(w),
        decreases n - k,
    {
        let ghost entries0 = entries@;
        let mut e = entries.remove(0);
        proof {
            assert(orig[k as int] == (entries0[0].name@, entries0[0].ranges@));
            assert(orig[k as int] == (e.name@, e.ranges@));
            assert(encode_utf8(orig[k as int].0).len() < 0x100);
            assert(records_wf(e.ranges@) && e.ranges@.len() < 0x1_0000_0000);
        }
        let name_bytes = e.name.as_str().as_bytes();
        let name_len = name_bytes.len();
        out.push(name_len as u8);
        out.extend_from_slice(name_bytes);
        let ghost ranges0 = e.ranges@;
        push_sorted_ranges(&mut out, &mut e.ranges);
        proof {
            let entry = (e.name@, e.ranges@);
            assert(out@ =~= base + proxy_entries_bytes(w) + proxy_entry_bytes(
                entry.0,
                entry.1,
            ));
            let w2 = w.push(entry);
            assert(w2.drop_last() =~= w);
            assert(w2.last() == entry);
            assert(out@ =~= base + proxy_entries_bytes(w2));
            w = w2;
            assert forall|m: int| 0 <= m < entries@.len() implies orig[m + (k + 1)] == ((
            #[trigger] entries@[m]).name@, entries@[m].ranges@) by {
                assert(entries@[m] == entries0[m + 1]);
                assert(orig[(m + 1) + k as int] == (entries0[m + 1].name@, entries0[m
                    + 1].ranges@));
            }
        }
        k = k + 1;
    }
    proof {
        assert(out@ =~= proxy_table_bytes(w));
    }
    out
}

} // verus!
