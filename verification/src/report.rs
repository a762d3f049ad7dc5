//! Rendering a diff tree as a structured report.
//!
//! The report is a flat list of lines, one record per line, in the order a
//! depth-first walk of the diff tree produces them.  A directory level is
//! reported only when its aggregated counters show something added, removed
//! or changed; a file is reported only when one of the suspicious patterns
//! holds (truncation to empty, NUL flag changed, non-ASCII flag changed);
//! a kind change at a path produces no line of its own.  Turning these
//! records into indented console text is left to the caller.

use vstd::prelude::*;
use crate::diff::{EntryDiff, DiffV, diff_view, diff_children_view, lemma_diff_children_view};
use crate::tree::clone_bytes;

verus! {

/// What one report line says.
#[derive(Debug, PartialEq, Eq, Structural)]
pub enum LineKind {
    /// A directory with changes beneath it, and its counters.
    DirSummary { changed: u64, added: u64, removed: u64, unchanged: u64 },
    /// A file with at least one suspicious change.
    FileChanged,
    /// The file was truncated to empty.
    Truncated,
    /// The file's NUL-byte flag changed.
    NulChanged,
    /// The file's non-ASCII flag changed.
    NonasciiChanged,
}

/// One line of the report: the depth in the tree, the path segment the
/// line is about, and what it says.
#[derive(Debug, PartialEq, Eq)]
pub struct ReportLine {
    pub depth: u64,
    pub name: Vec<u8>,
    pub kind: LineKind,
}

/// The mathematical model of a report line.
pub struct LineV {
    pub depth: int,
    pub name: Seq<u8>,
    pub kind: LineKind,
}

impl View for ReportLine {
    type V = LineV;

    open spec fn view(&self) -> LineV {
        LineV { depth: self.depth as int, name: self.name@, kind: self.kind }
    }
}

pub open spec fn lines_view(ls: Seq<ReportLine>) -> Seq<LineV>
    decreases ls,
{
    if ls.len() == 0 {
        Seq::empty()
    } else {
        seq![ls[0]@] + lines_view(ls.drop_first())
    }
}

pub proof fn lemma_lines_view(ls: Seq<ReportLine>)
    ensures
        lines_view(ls).len() == ls.len(),
        forall|i: int| 0 <= i < ls.len() ==> #[trigger] lines_view(ls)[i] == ls[i]@,
    decreases ls,
{
    if ls.len() > 0 {
        lemma_lines_view(ls.drop_first());
        assert forall|i: int| 0 <= i < ls.len() implies #[trigger] lines_view(ls)[i] == ls[i]@ by {
            if i > 0 {
                assert(lines_view(ls)[i] == lines_view(ls.drop_first())[i - 1]);
                assert(ls.drop_first()[i - 1] == ls[i]);
            }
        }
    }
}

/// Height of a diff tree, a recursion measure.
pub open spec fn diff_height(d: DiffV) -> nat
    decreases d,
{
    match d {
        DiffV::Directory(es, _) => 1 + diff_children_height(es),
        DiffV::File(_) => 0,
        DiffV::KindChanged => 0,
    }
}

pub open spec fn diff_children_height(es: Seq<(Seq<u8>, DiffV)>) -> nat
    decreases es,
{
    if es.len() == 0 {
        0
    } else {
        let h0 = diff_height(es[0].1);
        let hr = diff_children_height(es.drop_first());
        if h0 > hr {
            h0
        } else {
            hr
        }
    }
}

pub proof fn lemma_diff_children_height_index(es: Seq<(Seq<u8>, DiffV)>)
    ensures
        forall|i: int| 0 <= i < es.len()
            ==> diff_height(#[trigger] es[i].1) <= diff_children_height(es),
    decreases es,
{
    if es.len() > 0 {
        lemma_diff_children_height_index(es.drop_first());
        assert forall|i: int| 0 <= i < es.len()
            implies diff_height(#[trigger] es[i].1) <= diff_children_height(es) by {
            if i > 0 {
                assert(es.drop_first()[i - 1] == es[i]);
                assert(diff_height(es.drop_first()[i - 1].1)
                    <= diff_children_height(es.drop_first()));
            }
        }
    }
}

/// The report that a diff tree yields, rooted at `name` and `depth`.
pub open spec fn spec_report(d: DiffV, name: Seq<u8>, depth: int) -> Seq<LineV>
    decreases d,
{
    match d {
        DiffV::Directory(es, c) => if c.changed > 0 || c.added > 0 || c.removed > 0 {
            seq![LineV { depth, name, kind: LineKind::DirSummary {
                changed: c.changed as u64,
                added: c.added as u64,
                removed: c.removed as u64,
                unchanged: c.unchanged as u64,
            } }] + spec_report_children(es, depth + 1)
        } else {
            Seq::empty()
        },
        DiffV::File(md) => if md.zeroed || md.changed_nul || md.changed_nonascii {
            seq![LineV { depth, name, kind: LineKind::FileChanged }]
                + (if md.zeroed {
                    seq![LineV { depth, name, kind: LineKind::Truncated }]
                } else {
                    Seq::empty()
                })
                + (if md.changed_nul {
                    seq![LineV { depth, name, kind: LineKind::NulChanged }]
                } else {
                    Seq::empty()
                })
                + (if md.changed_nonascii {
                    seq![LineV { depth, name, kind: LineKind::NonasciiChanged }]
                } else {
                    Seq::empty()
                })
        } else {
            Seq::empty()
        },
        DiffV::KindChanged => Seq::empty(),
    }
}

pub open spec fn spec_report_children(es: Seq<(Seq<u8>, DiffV)>, depth: int) -> Seq<LineV>
    decreases es,
{
    if es.len() == 0 {
        Seq::empty()
    } else {
        spec_report(es[0].1, es[0].0, depth) + spec_report_children(es.drop_first(), depth)
    }
}

impl EntryDiff {
    /// Produce the report lines for this diff tree, rooted at `name`.
    pub fn show_diff(&self, name: &Vec<u8>, depth: u64) -> (r: Vec<ReportLine>)
        requires
            depth + diff_height(self@) <= u64::MAX,
        ensures
            lines_view(r@) == spec_report(self@, name@, depth as int),
        decreases diff_height(self@),
    {
        match self {
            EntryDiff::Directory(es, dd) => {
                let ghost dcv = diff_children_view(es@);
                proof {
                    lemma_diff_children_view(es@);
                }
                let mut r: Vec<ReportLine> = Vec::new();
                if dd.changed > 0 || dd.added > 0 || dd.removed > 0 {
                    r.push(ReportLine {
                        depth,
                        name: clone_bytes(name),
                        kind: LineKind::DirSummary {
                            changed: dd.changed,
                            added: dd.added,
                            removed: dd.removed,
                            unchanged: dd.unchanged,
                        },
                    });
                    let ghost head = lines_view(r@);
                    proof {
                        lemma_lines_view(r@);
                        assert(dcv.skip(0) =~= dcv);
                        assert(head + Seq::<LineV>::empty() =~= head);
                    }
                    let mut i: usize = 0;
                    while i < es.len()
                        invariant
                            0 <= i <= es@.len(),
                            dcv == diff_children_view(es@),
                            dcv.len() == es@.len(),
                            forall|l: int| 0 <= l < es@.len()
                                ==> #[trigger] dcv[l] == (es@[l].0@, diff_view(es@[l].1)),
                            self@ == DiffV::Directory(dcv, crate::diff::counts_view(*dd)),
                            depth + diff_height(self@) <= u64::MAX,
                            head.len() <= lines_view(r@).len(),
                            lines_view(r@).take(head.len() as int) == head,
                            spec_report_children(dcv, depth as int + 1)
                                == lines_view(r@).skip(head.len() as int)
                                    + spec_report_children(dcv.skip(i as int), depth as int + 1),
                        decreases es@.len() - i,
                    {
                        proof {
                            lemma_diff_children_height_index(dcv);
                            assert(dcv[i as int] == (es@[i as int].0@, diff_view(es@[i as int].1)));
                            assert(diff_height(dcv[i as int].1) <= diff_children_height(dcv));
                            assert(dcv.skip(i as int)[0] == dcv[i as int]);
                            assert(dcv.skip(i as int).drop_first() =~= dcv.skip(i as int + 1));
                        }
                        let mut cl = es[i].1.show_diff(&es[i].0, depth + 1);
                        let ghost r0 = r@;
                        let ghost cl0 = cl@;
                        r.append(&mut cl);
                        proof {
                            lemma_lines_view(r@);
                            lemma_lines_view(r0);
                            lemma_lines_view(cl0);
                            assert(lines_view(r@) =~= lines_view(r0) + lines_view(cl0)) by {
                                assert forall|l: int| 0 <= l < r@.len()
                                    implies #[trigger] lines_view(r@)[l]
                                        == (lines_view(r0) + lines_view(cl0))[l] by {
                                    if l < r0.len() {
                                        assert(r@[l] == r0[l]);
                                    } else {
                                        assert(r@[l] == cl0[l - r0.len()]);
                                    }
                                }
                            }
                            assert(lines_view(r@).skip(head.len() as int)
                                =~= lines_view(r0).skip(head.len() as int) + lines_view(cl0));
                            assert(lines_view(r@).take(head.len() as int) =~= head);
                        }
                        i += 1;
                    }
                    proof {
                        assert(dcv.skip(i as int).len() == 0);
                        assert(spec_report_children(dcv.skip(i as int), depth as int + 1)
                            =~= Seq::<LineV>::empty());
                        assert(lines_view(r@).skip(head.len() as int)
                            + Seq::<LineV>::empty() =~= lines_view(r@).skip(head.len() as int));
                        assert(lines_view(r@)
                            =~= head + lines_view(r@).skip(head.len() as int));
                    }
                }
                r
            }
            EntryDiff::File(md) => {
                let mut r: Vec<ReportLine> = Vec::new();
                if md.zeroed || md.changed_nul || md.changed_nonascii {
                    r.push(ReportLine { depth, name: clone_bytes(name),
                        kind: LineKind::FileChanged });
                    if md.zeroed {
                        r.push(ReportLine { depth, name: clone_bytes(name),
                            kind: LineKind::Truncated });
                    }
                    if md.changed_nul {
                        r.push(ReportLine { depth, name: clone_bytes(name),
                            kind: LineKind::NulChanged });
                    }
                    if md.changed_nonascii {
                        r.push(ReportLine { depth, name: clone_bytes(name),
                            kind: LineKind::NonasciiChanged });
                    }
                }
                proof {
                    lemma_lines_view(r@);
                    assert(lines_view(r@) =~= spec_report(self@, name@, depth as int));
                }
                r
            }
            EntryDiff::KindChanged => {
                let r: Vec<ReportLine> = Vec::new();
                r
            }
        }
    }
}

} // verus!
