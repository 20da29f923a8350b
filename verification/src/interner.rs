//! String interning: deduplicates repeated strings into an indexed table.
//!
//! Two incompatible indexing conventions exist, chosen explicitly when the
//! interner is created so the two can never be mixed within one table:
//!
//! - zero-is-missing: the placeholder field value maps to index 0; every
//!   other string gets a 0-based index over a table that stores only
//!   non-placeholder strings (index 0 is never itself stored);
//! - offset-with-reserved-empty: the placeholder maps to index 0; every
//!   other string gets a 1-based index, and the emitted table explicitly
//!   stores an empty string at slot 0.
//!
//! Both conventions deduplicate by exact equality, and indices are stable:
//! interning the same string twice yields the same index both times.

use vstd::prelude::*;

verus! {

/// The field content that stands for an absent value.
pub open spec fn placeholder() -> Seq<char> {
    seq!['-']
}

/// How intern indices relate to table positions.
#[derive(Clone, Copy, PartialEq, Eq, Structural)]
pub enum InternStrategy {
    /// Indices are 0-based table positions; 0 doubles as "missing".
    ZeroIsMissing,
    /// Indices are 1-based table positions; slot 0 is a reserved empty
    /// string that exists only in the emitted form of the table.
    OffsetWithReservedEmpty,
}

/// A well-formed intern table stores each string once and never stores the
/// placeholder.
pub open spec fn table_wf(tbl: Seq<Seq<char>>) -> bool {
    &&& forall|i: int, j: int| 0 <= i < j < tbl.len() ==> tbl[i] != tbl[j]
    &&& forall|i: int| 0 <= i < tbl.len() ==> #[trigger] tbl[i] != placeholder()
}

/// One interning step under the zero-is-missing convention: the resulting
/// table and the index handed out.
pub open spec fn intern_spec(tbl: Seq<Seq<char>>, s: Seq<char>) -> (Seq<Seq<char>>, int) {
    if s == placeholder() {
        (tbl, 0)
    } else if tbl.contains(s) {
        (tbl, tbl.index_of(s))
    } else {
        (tbl.push(s), tbl.len() as int)
    }
}

/// One interning step under the offset-with-reserved-empty convention.
pub open spec fn intern_offset_spec(tbl: Seq<Seq<char>>, s: Seq<char>) -> (Seq<Seq<char>>, int) {
    if s == placeholder() {
        (tbl, 0)
    } else if tbl.contains(s) {
        (tbl, tbl.index_of(s) + 1)
    } else {
        (tbl.push(s), tbl.len() as int + 1)
    }
}

/// Indices are stable for the lifetime of the table: interning a string a
/// second time neither changes the table nor hands out a different index,
/// under either convention. The placeholder always yields index 0, and
/// under the offset convention the first string interned into an empty
/// table gets index 1.
pub proof fn lemma_intern_stable(tbl: Seq<Seq<char>>, s: Seq<char>)
    requires
        table_wf(tbl),
    ensures
        table_wf(intern_spec(tbl, s).0),
        intern_spec(intern_spec(tbl, s).0, s) == intern_spec(tbl, s),
        table_wf(intern_offset_spec(tbl, s).0),
        intern_offset_spec(intern_offset_spec(tbl, s).0, s) == intern_offset_spec(tbl, s),
        s == placeholder() ==> intern_spec(tbl, s).1 == 0 && intern_offset_spec(tbl, s).1 == 0,
        tbl.len() == 0 && s != placeholder() ==> intern_offset_spec(tbl, s).1 == 1,
{
    if s != placeholder() {
        if tbl.contains(s) {
        } else {
            let tbl2 = tbl.push(s);
            assert(tbl2[tbl.len() as int] == s);
            assert(tbl2.contains(s));
            assert(tbl2.index_of(s) == tbl.len());
        }
    }
}

/// A deduplicating table of strings with stable indices assigned on first
/// sight, under one explicitly chosen indexing convention.
pub struct StringInterner {
    strategy: InternStrategy,
    strings: Vec<String>,
}

impl StringInterner {
    /// The stored strings, in index order.
    pub closed spec fn view(&self) -> Seq<Seq<char>> {
        self.strings.deep_view()
    }

    /// The convention the interner was created under.
    pub closed spec fn spec_strategy(&self) -> InternStrategy {
        self.strategy
    }

    /// The table stores each string once and never the placeholder.
    pub open spec fn wf(&self) -> bool {
        table_wf(self@)
    }

    /// Creates an empty interner under the given convention.
    pub fn new(strategy: InternStrategy) -> (r: StringInterner)
        ensures
            r.wf(),
            r@ == Seq::<Seq<char>>::empty(),
            r.spec_strategy() == strategy,
    {
        let r = StringInterner { strategy, strings: Vec::new() };
        proof {
            assert(r@ =~= Seq::<Seq<char>>::empty());
        }
        r
    }

    /// The number of stored strings.
    pub fn len(&self) -> (n: usize)
        ensures
            n == self@.len(),
    {
        self.strings.len()
    }

    /// The stored string at table position `i`.
    pub fn get(&self, i: usize) -> (s: &String)
        requires
            i < self@.len(),
        ensures
            s@ == self@[i as int],
    {
        &self.strings[i]
    }

    /// Position of `s` in the stored table, if present.
    fn find(&self, s: &String) -> (r: Option<usize>)
        requires
            self.wf(),
        ensures
            match r {
                Some(i) => self@.contains(s@) && i == self@.index_of(s@),
                None => !self@.contains(s@),
            },
    {
        let mut i: usize = 0;
        while i < self.strings.len()
            invariant
                0 <= i <= self@.len(),
                self.wf(),
                self@.len() == self.strings.len(),
                forall|k: int| 0 <= k < i ==> self@[k] != s@,
            decreases self@.len() - i,
        {
            if self.strings[i] == *s {
                proof {
                    assert(self@[i as int] == s@);
                    assert(self@.contains(s@));
                    let j = self@.index_of(s@);
                    assert(self@[j] == s@);
                }
                return Some(i);
            }
            i = i + 1;
        }
        proof {
            if self@.contains(s@) {
                let j = choose|j: int| 0 <= j < self@.len() && self@[j] == s@;
                assert(self@[j] == s@);
            }
        }
        None
    }

    /// Interns `s` under the zero-is-missing convention: the placeholder
    /// maps to index 0, a known string to its stored position, a new string
    /// to the next free position.
    pub fn intern(&mut self, s: &str) -> (idx: usize)
        requires
            old(self).wf(),
            old(self).spec_strategy() == InternStrategy::ZeroIsMissing,
            old(self)@.len() < usize::MAX,
        ensures
            final(self).wf(),
            final(self).spec_strategy() == old(self).spec_strategy(),
            (final(self)@, idx as int) == intern_spec(old(self)@, s@),
    {
        let owned = s.to_owned();
        let dash: String = "-".to_owned();
        proof {
            reveal_strlit("-");
            assert("-"@ =~= placeholder());
        }
        if owned == dash {
            return 0;
        }
        match self.find(&owned) {
            Some(i) => i,
            None => {
                let idx = self.strings.len();
                self.strings.push(owned);
                proof {
                    assert(self@ =~= old(self)@.push(s@));
                    assert(forall|i: int| 0 <= i < old(self)@.len()
                        ==> #[trigger] self@[i] == old(self)@[i]);
                }
                idx
            },
        }
    }

    /// Interns `s` under the offset-with-reserved-empty convention: the
    /// placeholder maps to index 0, every other string to its stored
    /// position plus one, slot 0 being reserved for the empty string that
    /// the emitted table carries.
    pub fn intern_with_offset(&mut self, s: &str) -> (idx: usize)
        requires
            old(self).wf(),
            old(self).spec_strategy() == InternStrategy::OffsetWithReservedEmpty,
            old(self)@.len() < usize::MAX - 1,
        ensures
            final(self).wf(),
            final(self).spec_strategy() == old(self).spec_strategy(),
            (final(self)@, idx as int) == intern_offset_spec(old(self)@, s@),
    {
        let owned = s.to_owned();
        let dash: String = "-".to_owned();
        proof {
            reveal_strlit("-");
            assert("-"@ =~= placeholder());
        }
        if owned == dash {
            return 0;
        }
        match self.find(&owned) {
            Some(i) => i + 1,
            None => {
                self.strings.push(owned);
                let idx = self.strings.len();
                proof {
                    assert(self@ =~= old(self)@.push(s@));
                    assert(forall|i: int| 0 <= i < old(self)@.len()
                        ==> #[trigger] self@[i] == old(self)@[i]);
                }
                idx
            },
        }
    }
}

} // verus!
