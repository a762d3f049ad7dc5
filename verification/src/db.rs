//! The snapshot database: a tree of per-file fingerprints rooted in a
//! single entry, built once and immutable afterwards.

use vstd::prelude::*;
use crate::tree::{Entry, EntryV, entry_wf, can_insert, spec_insert, spec_lookup, height_v,
    key_weight, children_height, children_weight, children_view, entry_view,
    lemma_children_view};
use crate::diff::{EntryDiff, DiffV, spec_diff, spec_merge, lemma_merge_bounds};
use crate::report::{ReportLine, lines_view, spec_report, diff_height, diff_children_height};

verus! {

/// A tree's height never exceeds its key count plus one.
pub proof fn lemma_height_le_weight(v: EntryV)
    ensures
        height_v(v) <= key_weight(v) + 1,
    decreases v,
{
    match v {
        EntryV::Directory(es) => {
            lemma_children_height_le_weight(es);
        }
        EntryV::File(_) => {}
    }
}

pub proof fn lemma_children_height_le_weight(es: Seq<(Seq<u8>, EntryV)>)
    ensures
        children_height(es) <= children_weight(es),
    decreases es,
{
    if es.len() > 0 {
        lemma_height_le_weight(es[0].1);
        lemma_children_height_le_weight(es.drop_first());
    }
}

/// The height of a diff tree never exceeds the sum of the heights of the
/// two trees it compares.
pub proof fn lemma_diff_height_bound(a: EntryV, b: EntryV)
    ensures
        diff_height(spec_diff(a, b)) <= height_v(a) + height_v(b),
    decreases height_v(a) + height_v(b), 0int,
{
    match (a, b) {
        (EntryV::Directory(aes), EntryV::Directory(bes)) => {
            lemma_merge_height_bound(aes, bes);
        }
        _ => {}
    }
}

pub proof fn lemma_merge_height_bound(aes: Seq<(Seq<u8>, EntryV)>, bes: Seq<(Seq<u8>, EntryV)>)
    ensures
        diff_children_height(spec_merge(aes, bes).0)
            <= children_height(aes) + children_height(bes) + 1,
    decreases children_height(aes) + children_height(bes) + 1, aes.len() + bes.len(),
{
    if aes.len() == 0 && bes.len() == 0 {
    } else if aes.len() == 0 {
        lemma_merge_height_bound(aes, bes.drop_first());
    } else if bes.len() == 0 {
        lemma_merge_height_bound(aes.drop_first(), bes);
    } else if aes[0].0 == bes[0].0 {
        lemma_diff_height_bound(aes[0].1, bes[0].1);
        lemma_merge_height_bound(aes.drop_first(), bes.drop_first());
        let d = spec_diff(aes[0].1, bes[0].1);
        let r = spec_merge(aes.drop_first(), bes.drop_first());
        assert((seq![(aes[0].0, d)] + r.0)[0] == (aes[0].0, d));
        assert((seq![(aes[0].0, d)] + r.0).drop_first() =~= r.0);
    } else if crate::order::seq_lt(aes[0].0, bes[0].0) {
        lemma_merge_height_bound(aes.drop_first(), bes);
    } else {
        lemma_merge_height_bound(aes, bes.drop_first());
    }
}

impl Entry {
    /// Total number of directory keys in the whole tree, or `None` where
    /// the count does not fit in `u64`.  Callers use this to establish the
    /// bound that the diff engine's counters need.
    pub fn weight(&self) -> (r: Option<u64>)
        ensures
            r matches Some(n) ==> n == key_weight(self@),
            r is None ==> key_weight(self@) > u64::MAX,
        decreases height_v(self@),
    {
        match self {
            Entry::File(_) => Some(0),
            Entry::Directory(es) => {
                let ghost cv = children_view(es@);
                proof {
                    lemma_children_view(es@);
                    assert(cv.skip(0) =~= cv);
                }
                let mut total: u64 = 0;
                let mut i: usize = 0;
                while i < es.len()
                    invariant
                        0 <= i <= es@.len(),
                        cv == children_view(es@),
                        cv.len() == es@.len(),
                        forall|l: int| 0 <= l < es@.len()
                            ==> #[trigger] cv[l] == (es@[l].0@, entry_view(es@[l].1)),
                        self@ == EntryV::Directory(cv),
                        total + children_weight(cv.skip(i as int)) == children_weight(cv),
                    decreases es@.len() - i,
                {
                    proof {
                        crate::tree::lemma_children_height_index(cv);
                        assert(cv[i as int] == (es@[i as int].0@, entry_view(es@[i as int].1)));
                        assert(cv.skip(i as int)[0] == cv[i as int]);
                        assert(cv.skip(i as int).drop_first() =~= cv.skip(i as int + 1));
                    }
                    let w_opt = es[i].1.weight();
                    match w_opt {
                        None => {
                            return None;
                        }
                        Some(w) => {
                            if total >= u64::MAX || w > u64::MAX - 1 - total {
                                return None;
                            }
                            total = total + 1 + w;
                        }
                    }
                    i += 1;
                }
                proof {
                    assert(cv.skip(i as int).len() == 0);
                }
                Some(total)
            }
        }
    }
}

/// The name under which the root of a report is filed: the relative root
/// path, a single dot.
pub open spec fn root_name() -> Seq<u8> {
    seq![46u8]
}

/// The snapshot database.  Wraps the root entry of one capture.
#[derive(Debug, PartialEq, Eq)]
pub struct Database(pub Entry);

impl View for Database {
    type V = EntryV;

    open spec fn view(&self) -> EntryV {
        self.0@
    }
}

impl Default for Entry {
    /// An explicit empty directory.
    fn default() -> (e: Entry)
        ensures
            e@ == EntryV::Directory(Seq::<(Seq<u8>, EntryV)>::empty()),
            entry_wf(e@),
    {
        Entry::Directory(Vec::new())
    }
}

impl Default for Database {
    /// A database holding an empty root directory.
    fn default() -> (d: Database)
        ensures
            d@ == EntryV::Directory(Seq::<(Seq<u8>, EntryV)>::empty()),
            entry_wf(d@),
    {
        Database(Entry::Directory(Vec::new()))
    }
}

impl Database {
    /// Insert a file's entry at `path` during construction.
    pub fn insert(&mut self, path: &Vec<Vec<u8>>, entry: Entry)
        requires
            path@.len() > 0,
            entry_wf(old(self)@),
            entry_wf(entry@),
            can_insert(old(self)@, path.deep_view()),
        ensures
            final(self)@ == spec_insert(old(self)@, path.deep_view(), entry@),
            entry_wf(final(self)@),
    {
        self.0.insert(path, entry);
    }

    /// Look up the entry at `path`, read-only.
    pub fn lookup(&self, path: &Vec<Vec<u8>>) -> (r: Option<&Entry>)
        requires
            path@.len() > 0,
        ensures
            (r is Some) == (spec_lookup(self@, path.deep_view()) is Some),
            r matches Some(e) ==> spec_lookup(self@, path.deep_view()) == Some(e@),
    {
        self.0.lookup(path)
    }

    /// Diff this snapshot (the old side) against `other` (the new side).
    pub fn diff(&self, other: &Database) -> (d: EntryDiff)
        requires
            key_weight(self@) + key_weight(other@) <= u64::MAX,
        ensures
            d@ == spec_diff(self@, other@),
    {
        self.0.diff(&other.0)
    }

    /// Diff this snapshot against `other` and render the result as report
    /// lines rooted at the relative root path.
    pub fn show_diff(&self, other: &Database) -> (r: Vec<ReportLine>)
        requires
            key_weight(self@) + key_weight(other@) + 2 <= u64::MAX,
        ensures
            lines_view(r@) == spec_report(spec_diff(self@, other@), root_name(), 0),
    {
        let d = self.0.diff(&other.0);
        proof {
            lemma_diff_height_bound(self@, other@);
            lemma_height_le_weight(self@);
            lemma_height_le_weight(other@);
        }
        let mut name: Vec<u8> = Vec::new();
        name.push(46);
        proof {
            assert(name@ =~= root_name());
        }
        d.show_diff(&name, 0)
    }

    /// Compare this stored snapshot against a freshly built one and report
    /// the differences.
    pub fn check(&self, other: &Database) -> (r: Vec<ReportLine>)
        requires
            key_weight(self@) + key_weight(other@) + 2 <= u64::MAX,
        ensures
            lines_view(r@) == spec_report(spec_diff(self@, other@), root_name(), 0),
    {
        self.show_diff(other)
    }

    /// Total number of directory keys in the snapshot, or `None` where the
    /// count does not fit in `u64`.
    pub fn weight(&self) -> (r: Option<u64>)
        ensures
            r matches Some(n) ==> n == key_weight(self@),
            r is None ==> key_weight(self@) > u64::MAX,
    {
        self.0.weight()
    }
}

} // verus!
