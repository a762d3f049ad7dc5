//! The snapshot tree.
//!
//! An `Entry` is either a directory — children keyed by path segment, kept
//! strictly sorted by the lexicographic order on the segment's raw bytes —
//! or a file carrying its `Metrics` record.  Paths are non-empty sequences
//! of byte segments.  A tree is built once, by repeated insertion, and is
//! immutable afterwards.

use vstd::prelude::*;
use crate::metrics::{Metrics, MetricsV};
use crate::order::{seq_lt, KeyCmp, key_cmp, lemma_seq_lt_asym, lemma_seq_lt_irrefl,
    lemma_seq_lt_trans, lemma_seq_lt_trichotomy};

verus! {

/// A node of the snapshot tree.
#[derive(Debug, PartialEq, Eq)]
pub enum Entry {
    /// Children keyed by path segment, sorted by `seq_lt` on the raw bytes.
    Directory(Vec<(Vec<u8>, Entry)>),
    /// A file's fingerprint record.
    File(Metrics),
}

/// The mathematical model of an `Entry`.
pub enum EntryV {
    Directory(Seq<(Seq<u8>, EntryV)>),
    File(MetricsV),
}

/// The model of a directory's child list.
pub open spec fn children_view(es: Seq<(Vec<u8>, Entry)>) -> Seq<(Seq<u8>, EntryV)>
    decreases es,
{
    if es.len() == 0 {
        Seq::empty()
    } else {
        seq![(es[0].0@, entry_view(es[0].1))] + children_view(es.drop_first())
    }
}

/// The model of an entry.
pub open spec fn entry_view(e: Entry) -> EntryV
    decreases e,
{
    match e {
        Entry::Directory(es) => EntryV::Directory(children_view(es@)),
        Entry::File(m) => EntryV::File(m@),
    }
}

impl View for Entry {
    type V = EntryV;

    open spec fn view(&self) -> EntryV {
        entry_view(*self)
    }
}

pub proof fn lemma_children_view(es: Seq<(Vec<u8>, Entry)>)
    ensures
        children_view(es).len() == es.len(),
        forall|i: int| 0 <= i < es.len()
            ==> #[trigger] children_view(es)[i] == (es[i].0@, entry_view(es[i].1)),
    decreases es,
{
    if es.len() > 0 {
        lemma_children_view(es.drop_first());
        assert forall|i: int| 0 <= i < es.len()
            implies #[trigger] children_view(es)[i] == (es[i].0@, entry_view(es[i].1)) by {
            if i > 0 {
                assert(children_view(es)[i] == children_view(es.drop_first())[i - 1]);
                assert(es.drop_first()[i - 1] == es[i]);
            }
        }
    }
}

/// The children of a directory are strictly sorted by segment.
pub open spec fn dir_sorted(es: Seq<(Seq<u8>, EntryV)>) -> bool {
    forall|i: int, j: int| 0 <= i < j < es.len() ==> seq_lt(es[i].0, es[j].0)
}

pub open spec fn entries_wf(es: Seq<(Seq<u8>, EntryV)>) -> bool
    decreases es,
{
    if es.len() == 0 {
        true
    } else {
        entry_wf(es[0].1) && entries_wf(es.drop_first())
    }
}

/// Well-formedness of a tree: every directory's children are strictly
/// sorted by segment and themselves well-formed.
pub open spec fn entry_wf(v: EntryV) -> bool
    decreases v,
{
    match v {
        EntryV::Directory(es) => dir_sorted(es) && entries_wf(es),
        EntryV::File(_) => true,
    }
}

pub proof fn lemma_entries_wf_index(es: Seq<(Seq<u8>, EntryV)>)
    ensures
        entries_wf(es) <==> (forall|i: int| 0 <= i < es.len() ==> entry_wf(#[trigger] es[i].1)),
    decreases es,
{
    if es.len() > 0 {
        lemma_entries_wf_index(es.drop_first());
        assert(forall|i: int| 1 <= i < es.len() ==> es.drop_first()[i - 1] == #[trigger] es[i]);
        if entries_wf(es) {
            assert forall|i: int| 0 <= i < es.len() implies entry_wf(#[trigger] es[i].1) by {
                if i > 0 {
                    assert(entry_wf(es.drop_first()[i - 1].1));
                }
            }
        } else {
            if !entry_wf(es[0].1) {
            } else {
                let i = choose|i: int| 0 <= i < es.drop_first().len()
                    && !entry_wf(#[trigger] es.drop_first()[i].1);
                assert(es[i + 1] == es.drop_first()[i]);
            }
        }
    }
}

/// The child of a directory keyed by `k`, if any.
pub open spec fn child_of(es: Seq<(Seq<u8>, EntryV)>, k: Seq<u8>) -> Option<EntryV>
    decreases es,
{
    if es.len() == 0 {
        None
    } else if es[0].0 == k {
        Some(es[0].1)
    } else {
        child_of(es.drop_first(), k)
    }
}

pub proof fn lemma_child_of_skip(es: Seq<(Seq<u8>, EntryV)>, k: Seq<u8>, j: int)
    requires
        0 <= j <= es.len(),
        forall|l: int| 0 <= l < j ==> (#[trigger] es[l].0) != k,
    ensures
        child_of(es, k) == child_of(es.skip(j), k),
    decreases j,
{
    if j > 0 {
        assert(forall|l: int| 0 <= l < j - 1 ==> (#[trigger] es.drop_first()[l]) == es[l + 1]);
        lemma_child_of_skip(es.drop_first(), k, j - 1);
        assert(es.drop_first().skip(j - 1) =~= es.skip(j));
    } else {
        assert(es.skip(0) =~= es);
    }
}

/// If `child_of` finds a child, that child stands in the list.
pub proof fn lemma_child_of_index(es: Seq<(Seq<u8>, EntryV)>, k: Seq<u8>)
    requires
        child_of(es, k) is Some,
    ensures
        exists|i: int| 0 <= i < es.len() && (#[trigger] es[i]) == (k, child_of(es, k)->Some_0),
    decreases es,
{
    if es.len() > 0 && es[0].0 != k {
        lemma_child_of_index(es.drop_first(), k);
        let i = choose|i: int| 0 <= i < es.drop_first().len()
            && (#[trigger] es.drop_first()[i]) == (k, child_of(es.drop_first(), k)->Some_0);
        assert(es[i + 1] == es.drop_first()[i]);
    }
}

/// What a read-only walk of the tree resolves `path` to.
///
/// A path that runs through a `File` node before its segments are exhausted,
/// or whose next segment is missing, resolves to `None`.
pub open spec fn spec_lookup(v: EntryV, path: Seq<Seq<u8>>) -> Option<EntryV>
    decreases path.len(),
{
    match v {
        EntryV::Directory(es) => {
            if path.len() == 0 {
                None
            } else {
                match child_of(es, path[0]) {
                    None => None,
                    Some(c) => if path.len() == 1 {
                        Some(c)
                    } else {
                        spec_lookup(c, path.drop_first())
                    },
                }
            }
        }
        EntryV::File(_) => None,
    }
}

/// Whether `path` may be inserted: the walk stays inside directories, and
/// the full path is not yet present.  Inserting into a `File` node or over
/// an existing leaf is a contract violation of the builder, excluded here.
pub open spec fn can_insert(v: EntryV, path: Seq<Seq<u8>>) -> bool
    decreases path.len(),
{
    match v {
        EntryV::Directory(es) => path.len() > 0 && match child_of(es, path[0]) {
            None => true,
            Some(c) => path.len() > 1 && can_insert(c, path.drop_first()),
        },
        EntryV::File(_) => false,
    }
}

/// Insert or replace the child keyed by `k`, keeping the sorted order.
pub open spec fn put_child(es: Seq<(Seq<u8>, EntryV)>, k: Seq<u8>, c: EntryV)
    -> Seq<(Seq<u8>, EntryV)>
    decreases es,
{
    if es.len() == 0 {
        seq![(k, c)]
    } else if seq_lt(k, es[0].0) {
        seq![(k, c)] + es
    } else if es[0].0 == k {
        seq![(k, c)] + es.drop_first()
    } else {
        seq![es[0]] + put_child(es.drop_first(), k, c)
    }
}

/// The tree after inserting `f` at `path`: missing intermediate directories
/// are created empty; a tree that is a bare file is left unchanged (the
/// builder's contract excludes that case).
pub open spec fn spec_insert(v: EntryV, path: Seq<Seq<u8>>, f: EntryV) -> EntryV
    decreases path.len(),
{
    match v {
        EntryV::Directory(es) => {
            if path.len() == 0 {
                v
            } else if path.len() == 1 {
                EntryV::Directory(put_child(es, path[0], f))
            } else {
                let c = match child_of(es, path[0]) {
                    Some(c) => c,
                    None => EntryV::Directory(Seq::empty()),
                };
                EntryV::Directory(put_child(es, path[0], spec_insert(c, path.drop_first(), f)))
            }
        }
        EntryV::File(_) => v,
    }
}

/// Height of a tree, used as a recursion measure.
pub open spec fn height_v(v: EntryV) -> nat
    decreases v,
{
    match v {
        EntryV::Directory(es) => 1 + children_height(es),
        EntryV::File(_) => 0,
    }
}

pub open spec fn children_height(es: Seq<(Seq<u8>, EntryV)>) -> nat
    decreases es,
{
    if es.len() == 0 {
        0
    } else {
        let h0 = height_v(es[0].1);
        let hr = children_height(es.drop_first());
        if h0 > hr {
            h0
        } else {
            hr
        }
    }
}

pub proof fn lemma_children_height_index(es: Seq<(Seq<u8>, EntryV)>)
    ensures
        forall|i: int| 0 <= i < es.len()
            ==> height_v(#[trigger] es[i].1) <= children_height(es),
    decreases es,
{
    if es.len() > 0 {
        lemma_children_height_index(es.drop_first());
        assert forall|i: int| 0 <= i < es.len()
            implies height_v(#[trigger] es[i].1) <= children_height(es) by {
            if i > 0 {
                assert(es.drop_first()[i - 1] == es[i]);
                assert(height_v(es.drop_first()[i - 1].1) <= children_height(es.drop_first()));
            }
        }
    }
}

/// Total number of directory keys in the tree, used to bound the diff
/// engine's counters.
pub open spec fn key_weight(v: EntryV) -> nat
    decreases v,
{
    match v {
        EntryV::Directory(es) => children_weight(es),
        EntryV::File(_) => 0,
    }
}

pub open spec fn children_weight(es: Seq<(Seq<u8>, EntryV)>) -> nat
    decreases es,
{
    if es.len() == 0 {
        0
    } else {
        1 + key_weight(es[0].1) + children_weight(es.drop_first())
    }
}

pub proof fn lemma_children_weight_index(es: Seq<(Seq<u8>, EntryV)>)
    ensures
        es.len() <= children_weight(es),
        forall|i: int| 0 <= i < es.len()
            ==> 1 + key_weight(#[trigger] es[i].1) <= children_weight(es),
    decreases es,
{
    if es.len() > 0 {
        lemma_children_weight_index(es.drop_first());
        assert forall|i: int| 0 <= i < es.len()
            implies 1 + key_weight(#[trigger] es[i].1) <= children_weight(es) by {
            if i > 0 {
                assert(es.drop_first()[i - 1] == es[i]);
                assert(1 + key_weight(es.drop_first()[i - 1].1)
                    <= children_weight(es.drop_first()));
            }
        }
    }
}

pub proof fn lemma_child_of_none(es: Seq<(Seq<u8>, EntryV)>, k: Seq<u8>)
    requires
        forall|l: int| 0 <= l < es.len() ==> (#[trigger] es[l]).0 != k,
    ensures
        child_of(es, k) is None,
    decreases es,
{
    if es.len() > 0 {
        assert(forall|l: int| 0 <= l < es.drop_first().len()
            ==> (#[trigger] es.drop_first()[l]) == es[l + 1]);
        lemma_child_of_none(es.drop_first(), k);
    }
}

/// Splitting `put_child` at a prefix of keys that are all below `k`.
pub proof fn lemma_put_child_skip(es: Seq<(Seq<u8>, EntryV)>, k: Seq<u8>, c: EntryV, j: int)
    requires
        0 <= j <= es.len(),
        forall|l: int| 0 <= l < j ==> seq_lt((#[trigger] es[l]).0, k),
    ensures
        put_child(es, k, c) == es.take(j) + put_child(es.skip(j), k, c),
    decreases j,
{
    if j == 0 {
        assert(es.skip(0) =~= es);
        assert(es.take(0) + put_child(es, k, c) =~= put_child(es, k, c));
    } else {
        lemma_seq_lt_asym(es[0].0, k);
        assert(forall|l: int| 0 <= l < es.drop_first().len()
            ==> (#[trigger] es.drop_first()[l]) == es[l + 1]);
        lemma_put_child_skip(es.drop_first(), k, c, j - 1);
        assert(es.drop_first().skip(j - 1) =~= es.skip(j));
        assert(seq![es[0]] + (es.drop_first().take(j - 1) + put_child(es.skip(j), k, c))
            =~= es.take(j) + put_child(es.skip(j), k, c));
    }
}

/// Every key of `put_child(es, k, c)` is `k` or a key of `es`.
pub proof fn lemma_put_child_keys(es: Seq<(Seq<u8>, EntryV)>, k: Seq<u8>, c: EntryV)
    ensures
        forall|m: int| 0 <= m < put_child(es, k, c).len()
            ==> (#[trigger] put_child(es, k, c)[m]).0 == k
                || exists|l: int| 0 <= l < es.len()
                    && (#[trigger] es[l]).0 == put_child(es, k, c)[m].0,
    decreases es,
{
    let r = put_child(es, k, c);
    if es.len() == 0 {
    } else if seq_lt(k, es[0].0) || es[0].0 == k {
        assert forall|m: int| 0 <= m < r.len()
            implies (#[trigger] r[m]).0 == k
                || exists|l: int| 0 <= l < es.len() && (#[trigger] es[l]).0 == r[m].0 by {
            if m > 0 {
                if seq_lt(k, es[0].0) {
                    assert(r[m] == es[m - 1]);
                } else {
                    assert(r[m] == es.drop_first()[m - 1]);
                    assert(es[m] == r[m]);
                }
            }
        }
    } else {
        lemma_put_child_keys(es.drop_first(), k, c);
        let rr = put_child(es.drop_first(), k, c);
        assert forall|m: int| 0 <= m < r.len()
            implies (#[trigger] r[m]).0 == k
                || exists|l: int| 0 <= l < es.len() && (#[trigger] es[l]).0 == r[m].0 by {
            if m == 0 {
                assert(es[0].0 == r[0].0);
            } else {
                assert(r[m] == rr[m - 1]);
                if rr[m - 1].0 != k {
                    let l = choose|l: int| 0 <= l < es.drop_first().len()
                        && (#[trigger] es.drop_first()[l]).0 == rr[m - 1].0;
                    assert(es[l + 1] == es.drop_first()[l]);
                }
            }
        }
    }
}

/// `put_child` preserves sortedness and child well-formedness.
pub proof fn lemma_put_child_wf(es: Seq<(Seq<u8>, EntryV)>, k: Seq<u8>, c: EntryV)
    requires
        dir_sorted(es),
        entries_wf(es),
        entry_wf(c),
    ensures
        dir_sorted(put_child(es, k, c)),
        entries_wf(put_child(es, k, c)),
    decreases es,
{
    let r = put_child(es, k, c);
    lemma_entries_wf_index(es);
    if es.len() == 0 {
        lemma_entries_wf_index(r);
    } else if seq_lt(k, es[0].0) {
        assert forall|i: int, j: int| 0 <= i < j < r.len() implies seq_lt(r[i].0, r[j].0) by {
            if i == 0 {
                if j > 1 {
                    lemma_seq_lt_trans(k, es[0].0, es[j - 1].0);
                }
            } else {
                assert(r[i] == es[i - 1] && r[j] == es[j - 1]);
            }
        }
        lemma_entries_wf_index(r);
        assert forall|i: int| 0 <= i < r.len() implies entry_wf(#[trigger] r[i].1) by {
            if i > 0 {
                assert(r[i] == es[i - 1]);
            }
        }
    } else if es[0].0 == k {
        assert forall|i: int, j: int| 0 <= i < j < r.len() implies seq_lt(r[i].0, r[j].0) by {
            if i == 0 {
                assert(r[j] == es.drop_first()[j - 1]);
                assert(es[j] == r[j]);
            } else {
                assert(r[i] == es[i] && r[j] == es[j]);
            }
        }
        lemma_entries_wf_index(r);
        assert forall|i: int| 0 <= i < r.len() implies entry_wf(#[trigger] r[i].1) by {
            if i > 0 {
                assert(r[i] == es[i]);
            }
        }
    } else {
        lemma_seq_lt_trichotomy(k, es[0].0);
        assert(seq_lt(es[0].0, k));
        assert(forall|l: int| 0 <= l < es.drop_first().len()
            ==> (#[trigger] es.drop_first()[l]) == es[l + 1]);
        lemma_put_child_wf(es.drop_first(), k, c);
        lemma_put_child_keys(es.drop_first(), k, c);
        let rr = put_child(es.drop_first(), k, c);
        assert forall|i: int, j: int| 0 <= i < j < r.len() implies seq_lt(r[i].0, r[j].0) by {
            if i == 0 {
                assert(r[j] == rr[j - 1]);
                if rr[j - 1].0 == k {
                } else {
                    let l = choose|l: int| 0 <= l < es.drop_first().len()
                        && (#[trigger] es.drop_first()[l]).0 == rr[j - 1].0;
                    assert(es[l + 1].0 == rr[j - 1].0);
                    assert(seq_lt(es[0].0, es[l + 1].0));
                }
            } else {
                assert(r[i] == rr[i - 1] && r[j] == rr[j - 1]);
            }
        }
        lemma_entries_wf_index(r);
        lemma_entries_wf_index(rr);
        assert forall|i: int| 0 <= i < r.len() implies entry_wf(#[trigger] r[i].1) by {
            if i > 0 {
                assert(r[i] == rr[i - 1]);
            }
        }
    }
}

/// Inserting a well-formed entry into a well-formed tree keeps the tree
/// well-formed.
pub proof fn lemma_spec_insert_wf(v: EntryV, path: Seq<Seq<u8>>, f: EntryV)
    requires
        entry_wf(v),
        entry_wf(f),
    ensures
        entry_wf(spec_insert(v, path, f)),
    decreases path.len(),
{
    match v {
        EntryV::Directory(es) => {
            if path.len() == 0 {
            } else if path.len() == 1 {
                lemma_put_child_wf(es, path[0], f);
            } else {
                let c = match child_of(es, path[0]) {
                    Some(c) => c,
                    None => EntryV::Directory(Seq::empty()),
                };
                if child_of(es, path[0]) is Some {
                    lemma_child_of_index(es, path[0]);
                    let i = choose|i: int| 0 <= i < es.len()
                        && (#[trigger] es[i]) == (path[0], child_of(es, path[0])->Some_0);
                    lemma_entries_wf_index(es);
                    assert(es[i].1 == c);
                    assert(entry_wf(es[i].1));
                }
                lemma_spec_insert_wf(c, path.drop_first(), f);
                lemma_put_child_wf(es, path[0], spec_insert(c, path.drop_first(), f));
            }
        }
        EntryV::File(_) => {}
    }
}

pub(crate) fn clone_bytes(v: &Vec<u8>) -> (r: Vec<u8>)
    ensures
        r@ == v@,
{
    let mut r: Vec<u8> = Vec::new();
    let mut i: usize = 0;
    while i < v.len()
        invariant
            0 <= i <= v@.len(),
            r@ == v@.subrange(0, i as int),
        decreases v@.len() - i,
    {
        r.push(v[i]);
        proof {
            assert(v@.subrange(0, (i + 1) as int)
                =~= v@.subrange(0, i as int).push(v@[i as int]));
        }
        i += 1;
    }
    proof {
        assert(v@.subrange(0, v@.len() as int) =~= v@);
    }
    r
}

impl Entry {
    /// Look up the entry at `path`, read-only.
    ///
    /// The walk is total: a missing segment, a path that runs through a
    /// `File` node before its segments are exhausted, and a lookup inside a
    /// bare `File` tree all resolve to `None` rather than failing.
    pub fn lookup(&self, path: &Vec<Vec<u8>>) -> (r: Option<&Entry>)
        requires
            path@.len() > 0,
        ensures
            (r is Some) == (spec_lookup(self@, path.deep_view()) is Some),
            r matches Some(e) ==> spec_lookup(self@, path.deep_view()) == Some(e@),
    {
        proof {
            assert(path.deep_view().skip(0) =~= path.deep_view());
        }
        self.lookup_from(path, 0)
    }

    fn lookup_from(&self, path: &Vec<Vec<u8>>, i: usize) -> (r: Option<&Entry>)
        requires
            i < path@.len(),
        ensures
            (r is Some) == (spec_lookup(self@, path.deep_view().skip(i as int)) is Some),
            r matches Some(e)
                ==> spec_lookup(self@, path.deep_view().skip(i as int)) == Some(e@),
        decreases path@.len() - i,
    {
        let plen = path.len();
        let ghost p = path.deep_view().skip(i as int);
        proof {
            assert(path.deep_view().len() == path@.len());
            assert(p[0] == path.deep_view()[i as int]);
            assert(path.deep_view()[i as int] == path@[i as int]@);
        }
        match self {
            Entry::Directory(es) => {
                let ghost cv = children_view(es@);
                proof {
                    lemma_children_view(es@);
                }
                let k = &path[i];
                let mut j: usize = 0;
                let mut stop = false;
                while j < es.len() && !stop
                    invariant
                        0 <= j <= es@.len(),
                        cv == children_view(es@),
                        cv.len() == es@.len(),
                        forall|l: int| 0 <= l < es@.len()
                            ==> #[trigger] cv[l] == (es@[l].0@, entry_view(es@[l].1)),
                        forall|l: int| 0 <= l < j ==> (#[trigger] cv[l].0) != p[0],
                        stop ==> j < es@.len() && cv[j as int].0 == p[0],
                        p[0] == path@[i as int]@,
                        k@ == p[0],
                    decreases es@.len() - j + if stop { 0int } else { 1int },
                {
                    proof {
                        assert(cv[j as int] == (es@[j as int].0@, entry_view(es@[j as int].1)));
                    }
                    match key_cmp(&es[j].0, k) {
                        KeyCmp::Equal => {
                            stop = true;
                        }
                        _ => {
                            j += 1;
                        }
                    }
                }
                proof {
                    lemma_child_of_skip(cv, p[0], j as int);
                }
                if stop {
                    proof {
                        assert(cv.skip(j as int)[0] == cv[j as int]);
                        assert(child_of(cv, p[0]) == Some(cv[j as int].1));
                    }
                    if i + 1 == plen {
                        Some(&es[j].1)
                    } else {
                        proof {
                            assert(p.drop_first() =~= path.deep_view().skip(i as int + 1));
                        }
                        es[j].1.lookup_from(path, i + 1)
                    }
                } else {
                    proof {
                        assert(cv.skip(j as int).len() == 0);
                        assert(child_of(cv, p[0]) is None);
                    }
                    None
                }
            }
            Entry::File(_) => None,
        }
    }

    /// Insert `file` at `path` during construction.
    ///
    /// The builder's contract guarantees that the walk stays inside
    /// directories and that no leaf is inserted twice; both conditions are
    /// demanded here rather than detected at run time, since violating them
    /// would mean the tree's immutability was already broken upstream.
    pub fn insert(&mut self, path: &Vec<Vec<u8>>, file: Entry)
        requires
            path@.len() > 0,
            entry_wf(old(self)@),
            entry_wf(file@),
            can_insert(old(self)@, path.deep_view()),
        ensures
            final(self)@ == spec_insert(old(self)@, path.deep_view(), file@),
            entry_wf(final(self)@),
    {
        proof {
            assert(path.deep_view().skip(0) =~= path.deep_view());
            lemma_spec_insert_wf(self@, path.deep_view(), file@);
        }
        self.insert_rec(path, 0, file);
    }

    fn insert_rec(&mut self, path: &Vec<Vec<u8>>, i: usize, file: Entry)
        requires
            i < path@.len(),
            entry_wf(old(self)@),
            can_insert(old(self)@, path.deep_view().skip(i as int)),
        ensures
            final(self)@ == spec_insert(old(self)@, path.deep_view().skip(i as int), file@),
        decreases path@.len() - i,
    {
        let plen = path.len();
        let ghost pd = path.deep_view();
        let ghost p = pd.skip(i as int);
        let ghost fv = file@;
        proof {
            assert(pd.len() == path@.len());
            assert(p[0] == pd[i as int]);
            assert(pd[i as int] == path@[i as int]@);
        }
        match self {
            Entry::Directory(es) => {
                let ghost cv = children_view(es@);
                let ghost es0 = es@;
                proof {
                    lemma_children_view(es0);
                }
                let k = &path[i];
                let mut j: usize = 0;
                let mut stop = false;
                while j < es.len() && !stop
                    invariant
                        0 <= j <= es0.len(),
                        es@ == es0,
                        cv == children_view(es0),
                        cv.len() == es0.len(),
                        forall|l: int| 0 <= l < es0.len()
                            ==> #[trigger] cv[l] == (es0[l].0@, entry_view(es0[l].1)),
                        forall|l: int| 0 <= l < j ==> seq_lt((#[trigger] cv[l]).0, p[0]),
                        stop ==> j < es0.len() && !seq_lt(cv[j as int].0, p[0]),
                        k@ == p[0],
                    decreases es0.len() - j + if stop { 0int } else { 1int },
                {
                    proof {
                        assert(cv[j as int] == (es0[j as int].0@, entry_view(es0[j as int].1)));
                    }
                    match key_cmp(&es[j].0, k) {
                        KeyCmp::Less => {
                            j += 1;
                        }
                        KeyCmp::Equal => {
                            proof {
                                lemma_seq_lt_irrefl(p[0]);
                            }
                            stop = true;
                        }
                        KeyCmp::Greater => {
                            proof {
                                lemma_seq_lt_asym(p[0], cv[j as int].0);
                            }
                            stop = true;
                        }
                    }
                }
                proof {
                    assert forall|l: int| 0 <= l < j implies ((#[trigger] cv[l]).0) != p[0] by {
                        lemma_seq_lt_asym(cv[l].0, p[0]);
                    }
                    lemma_child_of_skip(cv, p[0], j as int);
                }
                let is_equal = if j < es.len() {
                    proof {
                        assert(cv[j as int] == (es0[j as int].0@, entry_view(es0[j as int].1)));
                    }
                    matches!(key_cmp(&es[j].0, k), KeyCmp::Equal)
                } else {
                    false
                };
                if is_equal {
                    proof {
                        assert(cv.skip(j as int)[0] == cv[j as int]);
                        assert(child_of(cv, p[0]) == Some(cv[j as int].1));
                        assert(p.len() > 1);
                        assert(p.drop_first() =~= pd.skip(i as int + 1));
                        lemma_entries_wf_index(cv);
                        assert(entry_wf(cv[j as int].1));
                    }
                    es[j].1.insert_rec(path, i + 1, file);
                    proof {
                        let c2 = spec_insert(cv[j as int].1, p.drop_first(), fv);
                        lemma_put_child_skip(cv, p[0], c2, j as int);
                        lemma_children_view(es@);
                        let r = put_child(cv, p[0], c2);
                        assert(put_child(cv.skip(j as int), p[0], c2)
                            == seq![(p[0], c2)] + cv.skip(j as int).drop_first()) by {
                            lemma_seq_lt_irrefl(p[0]);
                        }
                        assert(children_view(es@) =~= r) by {
                            assert(es@.len() == es0.len());
                            assert(r.len() == es0.len());
                            assert forall|l: int| 0 <= l < es0.len()
                                implies children_view(es@)[l] == r[l] by {
                                assert(children_view(es@)[l] == (es@[l].0@, entry_view(es@[l].1)));
                                if l < j {
                                    assert(es@[l] == es0[l]);
                                    assert(r[l] == cv.take(j as int)[l]);
                                } else if l == j {
                                    assert(r[l] == (seq![(p[0], c2)]
                                        + cv.skip(j as int).drop_first())[0]);
                                } else {
                                    assert(es@[l] == es0[l]);
                                    assert(r[l] == (seq![(p[0], c2)]
                                        + cv.skip(j as int).drop_first())[l - j]);
                                    assert(cv.skip(j as int).drop_first()[l - j - 1] == cv[l]);
                                }
                            }
                        }
                    }
                } else if i + 1 == plen {
                    let kc = clone_bytes(k);
                    es.insert(j, (kc, file));
                    proof {
                        assert(p.len() == 1);
                        lemma_put_child_skip(cv, p[0], fv, j as int);
                        lemma_children_view(es@);
                        let r = put_child(cv, p[0], fv);
                        assert(put_child(cv.skip(j as int), p[0], fv)
                            == seq![(p[0], fv)] + cv.skip(j as int)) by {
                            if cv.skip(j as int).len() == 0 {
                                assert(seq![(p[0], fv)] + cv.skip(j as int) =~= seq![(p[0], fv)]);
                            } else {
                                assert(cv.skip(j as int)[0] == cv[j as int]);
                                lemma_seq_lt_trichotomy(p[0], cv[j as int].0);
                                assert(seq_lt(p[0], cv[j as int].0));
                            }
                        }
                        assert(children_view(es@) =~= r) by {
                            assert(es@ == es0.insert(j as int, (kc, file)));
                            assert(es@.len() == es0.len() + 1);
                            assert(r.len() == es0.len() + 1);
                            assert forall|l: int| 0 <= l < es@.len()
                                implies children_view(es@)[l] == r[l] by {
                                assert(children_view(es@)[l] == (es@[l].0@, entry_view(es@[l].1)));
                                if l < j {
                                    assert(es@[l] == es0.subrange(0, j as int)[l]);
                                    assert(es@[l] == es0[l]);
                                    assert(r[l] == cv.take(j as int)[l]);
                                } else if l == j {
                                    assert(es@[l] == (kc, file));
                                    assert(r[l] == (seq![(p[0], fv)] + cv.skip(j as int))[0]);
                                } else {
                                    assert(es@[l] == es0.subrange(j as int, es0.len() as int)[
                                        l - j - 1]);
                                    assert(es@[l] == es0[l - 1]);
                                    assert(r[l] == (seq![(p[0], fv)] + cv.skip(j as int))[l - j]);
                                    assert(cv.skip(j as int)[l - j - 1] == cv[l - 1]);
                                }
                            }
                        }
                    }
                } else {
                    proof {
                        // the key is absent: beyond `j` every key lies above it
                        assert(p.len() > 1);
                        if j < es0.len() {
                            lemma_seq_lt_trichotomy(p[0], cv[j as int].0);
                            assert(seq_lt(p[0], cv[j as int].0));
                        }
                        assert forall|l: int| 0 <= l < cv.skip(j as int).len()
                            implies ((#[trigger] cv.skip(j as int)[l]).0) != p[0] by {
                            assert(cv.skip(j as int)[l] == cv[l + j]);
                            if l == 0 {
                                lemma_seq_lt_asym(p[0], cv[j as int].0);
                            } else {
                                assert(seq_lt(cv[j as int].0, cv[l + j].0));
                                lemma_seq_lt_trans(p[0], cv[j as int].0, cv[l + j].0);
                                lemma_seq_lt_asym(p[0], cv[l + j].0);
                            }
                        }
                        lemma_child_of_none(cv.skip(j as int), p[0]);
                        assert(child_of(cv, p[0]) is None);
                        assert(p.drop_first() =~= pd.skip(i as int + 1));
                    }
                    let mut sub = Entry::Directory(Vec::new());
                    proof {
                        assert(sub@ =~= EntryV::Directory(children_view(Seq::empty())));
                        assert(can_insert(sub@, pd.skip(i as int + 1)));
                    }
                    sub.insert_rec(path, i + 1, file);
                    let kc = clone_bytes(k);
                    let ghost subv = sub@;
                    es.insert(j, (kc, sub));
                    proof {
                        let c2 = spec_insert(EntryV::Directory(Seq::empty()), p.drop_first(), fv);
                        assert(subv == c2);
                        lemma_put_child_skip(cv, p[0], c2, j as int);
                        lemma_children_view(es@);
                        let r = put_child(cv, p[0], c2);
                        assert(put_child(cv.skip(j as int), p[0], c2)
                            == seq![(p[0], c2)] + cv.skip(j as int)) by {
                            if cv.skip(j as int).len() == 0 {
                                assert(seq![(p[0], c2)] + cv.skip(j as int) =~= seq![(p[0], c2)]);
                            } else {
                                assert(cv.skip(j as int)[0] == cv[j as int]);
                            }
                        }
                        assert(children_view(es@) =~= r) by {
                            assert(es@ == es0.insert(j as int, (kc, sub)));
                            assert(es@.len() == es0.len() + 1);
                            assert(r.len() == es0.len() + 1);
                            assert forall|l: int| 0 <= l < es@.len()
                                implies children_view(es@)[l] == r[l] by {
                                assert(children_view(es@)[l] == (es@[l].0@, entry_view(es@[l].1)));
                                if l < j {
                                    assert(es@[l] == es0.subrange(0, j as int)[l]);
                                    assert(es@[l] == es0[l]);
                                    assert(r[l] == cv.take(j as int)[l]);
                                } else if l == j {
                                    assert(es@[l] == (kc, sub));
                                    assert(r[l] == (seq![(p[0], c2)] + cv.skip(j as int))[0]);
                                } else {
                                    assert(es@[l] == es0.subrange(j as int, es0.len() as int)[
                                        l - j - 1]);
                                    assert(es@[l] == es0[l - 1]);
                                    assert(r[l] == (seq![(p[0], c2)] + cv.skip(j as int))[l - j]);
                                    assert(cv.skip(j as int)[l - j - 1] == cv[l - 1]);
                                }
                            }
                        }
                    }
                }
            }
            Entry::File(_) => {
                proof {
                    assert(false);
                }
            }
        }
    }
}

} // verus!
