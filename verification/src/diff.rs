//! The diff engine.
//!
//! Two snapshot trees are compared by walking them in lexicographic
//! lockstep: a linear merge over both sorted child lists.  Every directory
//! level carries aggregated counters (added, removed, changed, unchanged),
//! rolled up bottom-up, and every file comparison is classified by a
//! `MetricsDiff`.  A path that is a file on one side and a directory on the
//! other yields `KindChanged`, a terminal outcome that is not recursed into.

use vstd::prelude::*;
use crate::metrics::{Metrics, MetricsV};
use crate::order::{seq_lt, KeyCmp, key_cmp, bytes_eq, lemma_seq_lt_asym,
    lemma_seq_lt_trichotomy};
use crate::tree::{Entry, EntryV, children_view, entry_view, children_height, children_weight,
    height_v, key_weight, lemma_children_view, lemma_children_height_index,
    lemma_children_weight_index};

verus! {

/// Aggregated change counters for one directory level.
#[derive(Debug, PartialEq, Eq, Structural)]
pub struct DirectoryDiff {
    pub added: u64,
    pub removed: u64,
    pub changed: u64,
    pub unchanged: u64,
}

/// Classification of one file-to-file comparison.
#[derive(Debug, PartialEq, Eq, Structural)]
pub struct MetricsDiff {
    /// Size or either digest differs.
    pub changed_content: bool,
    /// The file went from non-empty to empty.
    pub zeroed: bool,
    /// The NUL-byte flag differs.
    pub changed_nul: bool,
    /// The non-ASCII flag differs.
    pub changed_nonascii: bool,
}

/// The result of comparing two trees at one path.
#[derive(Debug, PartialEq, Eq)]
pub enum EntryDiff {
    /// Child diffs keyed by segment, plus this level's aggregated counters.
    Directory(Vec<(Vec<u8>, EntryDiff)>, DirectoryDiff),
    /// Both sides are files.
    File(MetricsDiff),
    /// One side is a file, the other a directory.
    KindChanged,
}

/// Counters in the mathematical model, unbounded.
pub struct CountsV {
    pub added: int,
    pub removed: int,
    pub changed: int,
    pub unchanged: int,
}

/// The mathematical model of an `EntryDiff`.
pub enum DiffV {
    Directory(Seq<(Seq<u8>, DiffV)>, CountsV),
    File(MetricsDiff),
    KindChanged,
}

pub open spec fn counts_view(d: DirectoryDiff) -> CountsV {
    CountsV {
        added: d.added as int,
        removed: d.removed as int,
        changed: d.changed as int,
        unchanged: d.unchanged as int,
    }
}

pub open spec fn diff_children_view(es: Seq<(Vec<u8>, EntryDiff)>) -> Seq<(Seq<u8>, DiffV)>
    decreases es,
{
    if es.len() == 0 {
        Seq::empty()
    } else {
        seq![(es[0].0@, diff_view(es[0].1))] + diff_children_view(es.drop_first())
    }
}

pub open spec fn diff_view(d: EntryDiff) -> DiffV
    decreases d,
{
    match d {
        EntryDiff::Directory(es, dd) => DiffV::Directory(diff_children_view(es@), counts_view(dd)),
        EntryDiff::File(md) => DiffV::File(md),
        EntryDiff::KindChanged => DiffV::KindChanged,
    }
}

impl View for EntryDiff {
    type V = DiffV;

    open spec fn view(&self) -> DiffV {
        diff_view(*self)
    }
}

pub proof fn lemma_diff_children_view(es: Seq<(Vec<u8>, EntryDiff)>)
    ensures
        diff_children_view(es).len() == es.len(),
        forall|i: int| 0 <= i < es.len()
            ==> #[trigger] diff_children_view(es)[i] == (es[i].0@, diff_view(es[i].1)),
    decreases es,
{
    if es.len() > 0 {
        lemma_diff_children_view(es.drop_first());
        assert forall|i: int| 0 <= i < es.len()
            implies #[trigger] diff_children_view(es)[i] == (es[i].0@, diff_view(es[i].1)) by {
            if i > 0 {
                assert(diff_children_view(es)[i] == diff_children_view(es.drop_first())[i - 1]);
                assert(es.drop_first()[i - 1] == es[i]);
            }
        }
    }
}

/// How two file records compare: content changed iff size or either digest
/// differs; zeroed iff the size dropped from non-zero to zero; flag changes
/// are direct inequality.
pub open spec fn spec_metrics_diff(o: MetricsV, n: MetricsV) -> MetricsDiff {
    MetricsDiff {
        changed_content: o.size != n.size || o.sha2 != n.sha2 || o.sha3 != n.sha3,
        zeroed: o.size > 0 && n.size == 0,
        changed_nul: o.nul != n.nul,
        changed_nonascii: o.nonascii != n.nonascii,
    }
}

/// What one child diff contributes to its parent's counters.
pub open spec fn child_counts(d: DiffV) -> CountsV {
    match d {
        DiffV::Directory(_, c) => c,
        DiffV::File(md) => if md.changed_content {
            CountsV { added: 0, removed: 0, changed: 1, unchanged: 0 }
        } else {
            CountsV { added: 0, removed: 0, changed: 0, unchanged: 1 }
        },
        DiffV::KindChanged => CountsV { added: 0, removed: 0, changed: 1, unchanged: 0 },
    }
}

pub open spec fn add_counts(x: CountsV, y: CountsV) -> CountsV {
    CountsV {
        added: x.added + y.added,
        removed: x.removed + y.removed,
        changed: x.changed + y.changed,
        unchanged: x.unchanged + y.unchanged,
    }
}

pub open spec fn zero_counts() -> CountsV {
    CountsV { added: 0, removed: 0, changed: 0, unchanged: 0 }
}

/// The linear merge over two sorted child lists: child diffs for shared
/// keys, one `removed` per key only on the old side, one `added` per key
/// only on the new side, and the children's own counters rolled up.
pub open spec fn spec_merge(aes: Seq<(Seq<u8>, EntryV)>, bes: Seq<(Seq<u8>, EntryV)>)
    -> (Seq<(Seq<u8>, DiffV)>, CountsV)
    decreases children_height(aes) + children_height(bes) + 1, aes.len() + bes.len(),
{
    if aes.len() == 0 && bes.len() == 0 {
        (Seq::empty(), zero_counts())
    } else if aes.len() == 0 {
        let r = spec_merge(aes, bes.drop_first());
        (r.0, CountsV { added: r.1.added + 1, removed: r.1.removed, changed: r.1.changed,
            unchanged: r.1.unchanged })
    } else if bes.len() == 0 {
        let r = spec_merge(aes.drop_first(), bes);
        (r.0, CountsV { added: r.1.added, removed: r.1.removed + 1, changed: r.1.changed,
            unchanged: r.1.unchanged })
    } else if aes[0].0 == bes[0].0 {
        let d = spec_diff(aes[0].1, bes[0].1);
        let r = spec_merge(aes.drop_first(), bes.drop_first());
        (seq![(aes[0].0, d)] + r.0, add_counts(child_counts(d), r.1))
    } else if seq_lt(aes[0].0, bes[0].0) {
        let r = spec_merge(aes.drop_first(), bes);
        (r.0, CountsV { added: r.1.added, removed: r.1.removed + 1, changed: r.1.changed,
            unchanged: r.1.unchanged })
    } else {
        let r = spec_merge(aes, bes.drop_first());
        (r.0, CountsV { added: r.1.added + 1, removed: r.1.removed, changed: r.1.changed,
            unchanged: r.1.unchanged })
    }
}

/// The diff of two trees.
pub open spec fn spec_diff(a: EntryV, b: EntryV) -> DiffV
    decreases height_v(a) + height_v(b), 0int,
{
    match (a, b) {
        (EntryV::Directory(aes), EntryV::Directory(bes)) => {
            let r = spec_merge(aes, bes);
            DiffV::Directory(r.0, r.1)
        }
        (EntryV::File(o), EntryV::File(n)) => DiffV::File(spec_metrics_diff(o, n)),
        _ => DiffV::KindChanged,
    }
}

pub open spec fn sum4(c: CountsV) -> int {
    c.added + c.removed + c.changed + c.unchanged
}

pub open spec fn counts_nonneg(c: CountsV) -> bool {
    c.added >= 0 && c.removed >= 0 && c.changed >= 0 && c.unchanged >= 0
}

/// The merged counters are non-negative and their sum is bounded by the
/// total number of keys on both sides.
pub proof fn lemma_merge_bounds(aes: Seq<(Seq<u8>, EntryV)>, bes: Seq<(Seq<u8>, EntryV)>)
    ensures
        counts_nonneg(spec_merge(aes, bes).1),
        sum4(spec_merge(aes, bes).1) <= children_weight(aes) + children_weight(bes),
    decreases children_height(aes) + children_height(bes) + 1, aes.len() + bes.len(),
{
    if aes.len() == 0 && bes.len() == 0 {
    } else if aes.len() == 0 {
        lemma_merge_bounds(aes, bes.drop_first());
    } else if bes.len() == 0 {
        lemma_merge_bounds(aes.drop_first(), bes);
    } else if aes[0].0 == bes[0].0 {
        lemma_diff_bounds(aes[0].1, bes[0].1);
        lemma_merge_bounds(aes.drop_first(), bes.drop_first());
    } else if seq_lt(aes[0].0, bes[0].0) {
        lemma_merge_bounds(aes.drop_first(), bes);
    } else {
        lemma_merge_bounds(aes, bes.drop_first());
    }
}

/// What one child diff contributes is non-negative and bounded by one plus
/// the key weights of the two subtrees.
pub proof fn lemma_diff_bounds(a: EntryV, b: EntryV)
    ensures
        counts_nonneg(child_counts(spec_diff(a, b))),
        sum4(child_counts(spec_diff(a, b))) <= 1 + key_weight(a) + key_weight(b),
    decreases height_v(a) + height_v(b), 0int,
{
    match (a, b) {
        (EntryV::Directory(aes), EntryV::Directory(bes)) => {
            lemma_merge_bounds(aes, bes);
        }
        _ => {}
    }
}

/// A diff tree in which nothing was added, removed or changed: every
/// directory level's first three counters are zero and every file diff has
/// all four booleans false.
pub open spec fn diff_is_identity(d: DiffV) -> bool
    decreases d,
{
    match d {
        DiffV::Directory(es, c) => c.added == 0 && c.removed == 0 && c.changed == 0
            && children_are_identity(es),
        DiffV::File(md) => !md.changed_content && !md.zeroed && !md.changed_nul
            && !md.changed_nonascii,
        DiffV::KindChanged => false,
    }
}

pub open spec fn children_are_identity(es: Seq<(Seq<u8>, DiffV)>) -> bool
    decreases es,
{
    if es.len() == 0 {
        true
    } else {
        diff_is_identity(es[0].1) && children_are_identity(es.drop_first())
    }
}

/// Diff identity law: diffing a snapshot against itself yields a tree in
/// which every directory reports zero added, removed and changed entries,
/// and every file diff has all four booleans false.
pub proof fn lemma_diff_identity(v: EntryV)
    ensures
        diff_is_identity(spec_diff(v, v)),
    decreases height_v(v) + height_v(v), 0int,
{
    match v {
        EntryV::Directory(es) => {
            lemma_merge_identity(es);
        }
        EntryV::File(_) => {}
    }
}

pub proof fn lemma_merge_identity(es: Seq<(Seq<u8>, EntryV)>)
    ensures
        spec_merge(es, es).1.added == 0,
        spec_merge(es, es).1.removed == 0,
        spec_merge(es, es).1.changed == 0,
        children_are_identity(spec_merge(es, es).0),
    decreases children_height(es) + children_height(es) + 1, es.len() + es.len(),
{
    if es.len() > 0 {
        lemma_diff_identity(es[0].1);
        lemma_merge_identity(es.drop_first());
        let d = spec_diff(es[0].1, es[0].1);
        let r = spec_merge(es.drop_first(), es.drop_first());
        assert((seq![(es[0].0, d)] + r.0)[0] == (es[0].0, d));
        assert((seq![(es[0].0, d)] + r.0).drop_first() =~= r.0);
    }
}

/// Swap the added and removed counters.
pub open spec fn swap_counts(c: CountsV) -> CountsV {
    CountsV { added: c.removed, removed: c.added, changed: c.changed, unchanged: c.unchanged }
}

/// Diff symmetry on structure, for any two entries: swapping the sides of
/// the comparison swaps what each child contributes to `added` and
/// `removed` and keeps `changed` and `unchanged` as they were.
pub proof fn lemma_child_counts_symmetry(a: EntryV, b: EntryV)
    ensures
        child_counts(spec_diff(b, a)) == swap_counts(child_counts(spec_diff(a, b))),
    decreases height_v(a) + height_v(b), 0int,
{
    match (a, b) {
        (EntryV::Directory(aes), EntryV::Directory(bes)) => {
            lemma_merge_symmetry(aes, bes);
        }
        _ => {}
    }
}

pub proof fn lemma_merge_symmetry(aes: Seq<(Seq<u8>, EntryV)>, bes: Seq<(Seq<u8>, EntryV)>)
    ensures
        spec_merge(bes, aes).1 == swap_counts(spec_merge(aes, bes).1),
    decreases children_height(aes) + children_height(bes) + 1, aes.len() + bes.len(),
{
    if aes.len() == 0 && bes.len() == 0 {
    } else if aes.len() == 0 {
        lemma_merge_symmetry(aes, bes.drop_first());
    } else if bes.len() == 0 {
        lemma_merge_symmetry(aes.drop_first(), bes);
    } else if aes[0].0 == bes[0].0 {
        lemma_child_counts_symmetry(aes[0].1, bes[0].1);
        lemma_merge_symmetry(aes.drop_first(), bes.drop_first());
    } else if seq_lt(aes[0].0, bes[0].0) {
        lemma_seq_lt_asym(aes[0].0, bes[0].0);
        lemma_merge_symmetry(aes.drop_first(), bes);
    } else {
        lemma_seq_lt_trichotomy(aes[0].0, bes[0].0);
        assert(seq_lt(bes[0].0, aes[0].0));
        lemma_seq_lt_asym(bes[0].0, aes[0].0);
        lemma_merge_symmetry(aes, bes.drop_first());
    }
}

/// Diff symmetry on structure: if diffing `a` against `b` reports directory
/// counts `(added, removed, changed, unchanged)`, diffing `b` against `a`
/// reports `(removed, added, changed, unchanged)`.
pub proof fn lemma_diff_symmetry(a: EntryV, b: EntryV)
    requires
        a is Directory,
        b is Directory,
    ensures
        spec_diff(a, b) is Directory,
        spec_diff(b, a) is Directory,
        spec_diff(b, a)->Directory_1 == swap_counts(spec_diff(a, b)->Directory_1),
{
    lemma_merge_symmetry(a->Directory_0, b->Directory_0);
}

/// Compare two file records.
pub fn metrics_diff(o: &Metrics, n: &Metrics) -> (d: MetricsDiff)
    ensures
        d == spec_metrics_diff(o@, n@),
{
    let changed_content = o.size != n.size || !bytes_eq(&o.sha2.0, &n.sha2.0)
        || !bytes_eq(&o.sha3.0, &n.sha3.0);
    MetricsDiff {
        changed_content,
        zeroed: o.size > 0 && n.size == 0,
        changed_nul: o.nul != n.nul,
        changed_nonascii: o.nonascii != n.nonascii,
    }
}

impl Entry {
    /// Diff this tree (the old side) against `other` (the new side).
    ///
    /// The key-weight bound keeps every aggregated counter within `u64`.
    pub fn diff(&self, other: &Entry) -> (d: EntryDiff)
        requires
            key_weight(self@) + key_weight(other@) <= u64::MAX,
        ensures
            d@ == spec_diff(self@, other@),
        decreases height_v(self@) + height_v(other@),
    {
        match (self, other) {
            (Entry::Directory(aes), Entry::Directory(bes)) => {
                let ghost av = children_view(aes@);
                let ghost bv = children_view(bes@);
                let ghost full = spec_merge(av, bv);
                proof {
                    lemma_children_view(aes@);
                    lemma_children_view(bes@);
                }
                let mut out: Vec<(Vec<u8>, EntryDiff)> = Vec::new();
                let mut added: u64 = 0;
                let mut removed: u64 = 0;
                let mut changed: u64 = 0;
                let mut unchanged: u64 = 0;
                let mut ia: usize = 0;
                let mut ib: usize = 0;
                proof {
                    assert(av.skip(0) =~= av);
                    assert(bv.skip(0) =~= bv);
                    assert(diff_children_view(out@) + full.0 =~= full.0);
                }
                while ia < aes.len() || ib < bes.len()
                    invariant
                        0 <= ia <= av.len(),
                        0 <= ib <= bv.len(),
                        self@ == EntryV::Directory(av),
                        other@ == EntryV::Directory(bv),
                        av == children_view(aes@),
                        bv == children_view(bes@),
                        av.len() == aes@.len(),
                        bv.len() == bes@.len(),
                        forall|l: int| 0 <= l < av.len()
                            ==> #[trigger] av[l] == (aes@[l].0@, entry_view(aes@[l].1)),
                        forall|l: int| 0 <= l < bv.len()
                            ==> #[trigger] bv[l] == (bes@[l].0@, entry_view(bes@[l].1)),
                        key_weight(self@) + key_weight(other@) <= u64::MAX,
                        full == spec_merge(av, bv),
                        full.0 == diff_children_view(out@)
                            + spec_merge(av.skip(ia as int), bv.skip(ib as int)).0,
                        full.1 == add_counts(
                            CountsV { added: added as int, removed: removed as int,
                                changed: changed as int, unchanged: unchanged as int },
                            spec_merge(av.skip(ia as int), bv.skip(ib as int)).1),
                    decreases av.len() - ia + bv.len() - ib,
                {
                    proof {
                        lemma_merge_bounds(av, bv);
                        lemma_merge_bounds(av.skip(ia as int), bv.skip(ib as int));
                        lemma_children_weight_index(av);
                        lemma_children_weight_index(bv);
                        lemma_children_height_index(av);
                        lemma_children_height_index(bv);
                    }
                    let ghost resta = av.skip(ia as int);
                    let ghost restb = bv.skip(ib as int);
                    if ia == aes.len() {
                        proof {
                            assert(resta.len() == 0 && restb.len() > 0);
                            assert(restb[0] == bv[ib as int]);
                            assert(restb.drop_first() =~= bv.skip(ib as int + 1));
                            lemma_merge_bounds(resta, restb.drop_first());
                        }
                        added += 1;
                        ib += 1;
                    } else if ib == bes.len() {
                        proof {
                            assert(restb.len() == 0 && resta.len() > 0);
                            assert(resta[0] == av[ia as int]);
                            assert(resta.drop_first() =~= av.skip(ia as int + 1));
                            lemma_merge_bounds(resta.drop_first(), restb);
                        }
                        removed += 1;
                        ia += 1;
                    } else {
                        proof {
                            assert(resta[0] == av[ia as int]);
                            assert(restb[0] == bv[ib as int]);
                            assert(resta.drop_first() =~= av.skip(ia as int + 1));
                            assert(restb.drop_first() =~= bv.skip(ib as int + 1));
                        }
                        match key_cmp(&aes[ia].0, &bes[ib].0) {
                            KeyCmp::Less => {
                                proof {
                                    lemma_merge_bounds(resta.drop_first(), restb);
                                }
                                removed += 1;
                                ia += 1;
                            }
                            KeyCmp::Greater => {
                                proof {
                                    lemma_merge_bounds(resta, restb.drop_first());
                                }
                                added += 1;
                                ib += 1;
                            }
                            KeyCmp::Equal => {
                                proof {
                                    assert(height_v(av[ia as int].1) <= children_height(av));
                                    assert(height_v(bv[ib as int].1) <= children_height(bv));
                                    assert(1 + key_weight(av[ia as int].1)
                                        <= children_weight(av));
                                    assert(1 + key_weight(bv[ib as int].1)
                                        <= children_weight(bv));
                                    lemma_merge_bounds(resta.drop_first(), restb.drop_first());
                                    lemma_diff_bounds(av[ia as int].1, bv[ib as int].1);
                                }
                                let child = aes[ia].1.diff(&bes[ib].1);
                                let kc = crate::tree::clone_bytes(&aes[ia].0);
                                let ghost out0 = out@;
                                match &child {
                                    EntryDiff::Directory(_, dd) => {
                                        added += dd.added;
                                        removed += dd.removed;
                                        changed += dd.changed;
                                        unchanged += dd.unchanged;
                                    }
                                    EntryDiff::File(md) => {
                                        if md.changed_content {
                                            changed += 1;
                                        } else {
                                            unchanged += 1;
                                        }
                                    }
                                    EntryDiff::KindChanged => {
                                        changed += 1;
                                    }
                                }
                                out.push((kc, child));
                                proof {
                                    lemma_diff_children_view(out@);
                                    lemma_diff_children_view(out0);
                                    assert(out@.drop_last() =~= out0);
                                    assert(diff_children_view(out@)
                                        =~= diff_children_view(out0)
                                            + seq![(av[ia as int].0,
                                                spec_diff(av[ia as int].1, bv[ib as int].1))]) by {
                                        assert forall|l: int| 0 <= l < out@.len()
                                            implies #[trigger] diff_children_view(out@)[l]
                                                == (diff_children_view(out0)
                                                    + seq![(av[ia as int].0,
                                                        spec_diff(av[ia as int].1,
                                                            bv[ib as int].1))])[l] by {
                                            if l < out0.len() {
                                                assert(out@[l] == out0[l]);
                                            } else {
                                                assert(out@[l] == (kc, child));
                                            }
                                        }
                                    }
                                    assert(diff_children_view(out0)
                                        + (seq![(av[ia as int].0,
                                            spec_diff(av[ia as int].1, bv[ib as int].1))]
                                            + spec_merge(resta.drop_first(),
                                                restb.drop_first()).0)
                                        =~= diff_children_view(out@)
                                            + spec_merge(resta.drop_first(),
                                                restb.drop_first()).0);
                                }
                                ia += 1;
                                ib += 1;
                            }
                        }
                    }
                }
                proof {
                    assert(av.skip(ia as int).len() == 0);
                    assert(bv.skip(ib as int).len() == 0);
                    assert(diff_children_view(out@) + Seq::<(Seq<u8>, DiffV)>::empty()
                        =~= diff_children_view(out@));
                }
                EntryDiff::Directory(out,
                    DirectoryDiff { added, removed, changed, unchanged })
            }
            (Entry::File(o), Entry::File(n)) => EntryDiff::File(metrics_diff(o, n)),
            _ => EntryDiff::KindChanged,
        }
    }
}

} // verus!
