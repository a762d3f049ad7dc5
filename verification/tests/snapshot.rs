use snapdb::db::Database;
use snapdb::diff::{DirectoryDiff, EntryDiff, MetricsDiff};
use snapdb::metrics::{compute_metrics, Engines, HashSum, Metrics};
use snapdb::report::{LineKind, ReportLine};
use snapdb::tree::Entry;

use sha2::Digest;

fn path(segs: &[&str]) -> Vec<Vec<u8>> {
    segs.iter().map(|s| s.as_bytes().to_vec()).collect()
}

fn hex(s: &str) -> Vec<u8> {
    let b = s.as_bytes();
    let mut out = Vec::new();
    let mut i = 0;
    while i < b.len() {
        let d = |c: u8| -> u8 {
            match c {
                b'0'..=b'9' => c - b'0',
                b'a'..=b'f' => c - b'a' + 10,
                _ => panic!("bad hex"),
            }
        };
        out.push(d(b[i]) * 16 + d(b[i + 1]));
        i += 2;
    }
    out
}

fn file_of(data: &[u8]) -> Entry {
    Entry::File(compute_metrics(data))
}

fn metrics_with_size(size: u64) -> Metrics {
    Metrics {
        sha2: HashSum(vec![1, 2, 3]),
        sha3: HashSum(vec![4, 5, 6]),
        size,
        nul: false,
        nonascii: false,
    }
}

#[test]
fn sha256_matches_reference_vector() {
    let m = compute_metrics(b"abc");
    assert_eq!(
        m.sha2.0,
        hex("ba7816bf8f01cfea414140de5dae2223b00361a396177a9cb410ff61f20015ad")
    );
    assert_eq!(
        m.sha3.0,
        hex("3a985da74fe225b2045c172d6bd390bd855f086e3e9d525b46bfe24511431532")
    );
}

#[test]
fn digests_match_the_underlying_crates() {
    let data = b"the quick brown fox jumps over the lazy dog";
    let m = compute_metrics(data);
    let mut h2 = sha2::Sha256::default();
    h2.input(&data[..]);
    assert_eq!(m.sha2.0, h2.result().as_slice().to_vec());
    let mut h3 = sha3::Sha3_256::default();
    h3.input(&data[..]);
    assert_eq!(m.sha3.0, h3.result().as_slice().to_vec());
}

#[test]
fn metrics_fields_on_plain_ascii() {
    let m = compute_metrics(b"hello");
    assert_eq!(m.size, 5);
    assert!(!m.nul);
    assert!(!m.nonascii);
}

#[test]
fn metrics_flags_detect_nul_and_nonascii() {
    let m = compute_metrics(&[b'a', 0, b'b']);
    assert!(m.nul);
    assert!(!m.nonascii);
    let m = compute_metrics(&[b'a', 0x80, b'b']);
    assert!(!m.nul);
    assert!(m.nonascii);
    let m = compute_metrics(&[0x7f]);
    assert!(!m.nonascii);
    let m = compute_metrics(&[]);
    assert_eq!(m.size, 0);
    assert!(!m.nul);
    assert!(!m.nonascii);
}

#[test]
fn metrics_do_not_depend_on_chunking() {
    let data: Vec<u8> = (0..10000u32).map(|i| (i % 251) as u8).collect();
    let whole = compute_metrics(&data);

    let mut engines = Engines::new();
    for chunk in [&data[0..1], &data[1..4096], &data[4096..9999], &data[9999..10000]] {
        engines.input(chunk);
    }
    let pieced = engines.result();
    assert_eq!(whole, pieced);
}

#[test]
fn building_twice_is_deterministic() {
    let data: Vec<u8> = (0..5000u32).map(|i| (i * 7 % 253) as u8).collect();
    let a = compute_metrics(&data);
    let b = compute_metrics(&data);
    assert_eq!(a, b);

    let mut d1 = Database::default();
    let mut d2 = Database::default();
    for db in [&mut d1, &mut d2] {
        db.insert(&path(&["dir", "x"]), file_of(b"one"));
        db.insert(&path(&["dir", "y"]), file_of(b"two"));
        db.insert(&path(&["z"]), file_of(b"three"));
    }
    assert_eq!(d1, d2);
}

#[test]
fn insert_and_lookup_roundtrip() {
    let mut db = Database::default();
    db.insert(&path(&["a", "b", "c"]), file_of(b"deep"));
    db.insert(&path(&["a", "d"]), file_of(b"shallow"));

    let found = db.lookup(&path(&["a", "b", "c"])).expect("present");
    assert_eq!(*found, file_of(b"deep"));
    assert!(db.lookup(&path(&["a", "b"])).is_some());
    assert!(db.lookup(&path(&["a", "x"])).is_none());
    assert!(db.lookup(&path(&["z"])).is_none());
    // resolving through a file node yields None
    assert!(db.lookup(&path(&["a", "d", "e"])).is_none());
}

#[test]
fn directory_children_stay_sorted() {
    let mut db = Database::default();
    db.insert(&path(&["b"]), file_of(b"1"));
    db.insert(&path(&["a"]), file_of(b"2"));
    db.insert(&path(&["c"]), file_of(b"3"));
    match &db.0 {
        Entry::Directory(es) => {
            let keys: Vec<&[u8]> = es.iter().map(|(k, _)| k.as_slice()).collect();
            assert_eq!(keys, vec![b"a".as_ref(), b"b".as_ref(), b"c".as_ref()]);
        }
        Entry::File(_) => panic!("root must be a directory"),
    }
    assert_eq!(db.weight(), Some(3));
}

fn dir_counts(d: &EntryDiff) -> DirectoryDiff {
    match d {
        EntryDiff::Directory(_, c) => DirectoryDiff {
            added: c.added,
            removed: c.removed,
            changed: c.changed,
            unchanged: c.unchanged,
        },
        _ => panic!("expected a directory diff"),
    }
}

#[test]
fn diff_of_identical_snapshots_reports_nothing() {
    let mut a = Database::default();
    a.insert(&path(&["d", "f"]), file_of(b"same"));
    a.insert(&path(&["g"]), file_of(b"also same"));
    let mut b = Database::default();
    b.insert(&path(&["d", "f"]), file_of(b"same"));
    b.insert(&path(&["g"]), file_of(b"also same"));

    let d = a.diff(&b);
    let c = dir_counts(&d);
    assert_eq!((c.added, c.removed, c.changed, c.unchanged), (0, 0, 0, 2));
    // and the report suppresses an unchanged tree entirely
    assert!(a.show_diff(&b).is_empty());
}

#[test]
fn merge_counts_on_mixed_keys() {
    // old has {a, b, d}, new has {b, c, d}; b and d unchanged
    let mut old = Database::default();
    old.insert(&path(&["a"]), file_of(b"gone"));
    old.insert(&path(&["b"]), file_of(b"kept"));
    old.insert(&path(&["d"]), file_of(b"kept too"));
    let mut new = Database::default();
    new.insert(&path(&["b"]), file_of(b"kept"));
    new.insert(&path(&["c"]), file_of(b"fresh"));
    new.insert(&path(&["d"]), file_of(b"kept too"));

    let c = dir_counts(&old.diff(&new));
    assert_eq!((c.added, c.removed, c.changed, c.unchanged), (1, 1, 0, 2));
}

#[test]
fn diff_symmetry_swaps_added_and_removed() {
    let mut a = Database::default();
    a.insert(&path(&["only_old"]), file_of(b"x"));
    a.insert(&path(&["shared"]), file_of(b"same"));
    a.insert(&path(&["edited"]), file_of(b"before"));
    let mut b = Database::default();
    b.insert(&path(&["only_new1"]), file_of(b"y"));
    b.insert(&path(&["only_new2"]), file_of(b"z"));
    b.insert(&path(&["shared"]), file_of(b"same"));
    b.insert(&path(&["edited"]), file_of(b"after"));

    let ab = dir_counts(&a.diff(&b));
    let ba = dir_counts(&b.diff(&a));
    assert_eq!((ab.added, ab.removed, ab.changed, ab.unchanged), (2, 1, 1, 1));
    assert_eq!(ba.added, ab.removed);
    assert_eq!(ba.removed, ab.added);
    assert_eq!(ba.changed, ab.changed);
    assert_eq!(ba.unchanged, ab.unchanged);
}

#[test]
fn zeroed_flags_truncation_to_empty() {
    let old = Entry::File(metrics_with_size(100));
    let new = Entry::File(Metrics { size: 0, ..metrics_with_size(100) });
    match old.diff(&new) {
        EntryDiff::File(md) => {
            assert!(md.zeroed);
            assert!(md.changed_content);
        }
        _ => panic!("expected a file diff"),
    }

    // a file already empty that stays empty is not "zeroed"
    let old = Entry::File(metrics_with_size(0));
    let new = Entry::File(metrics_with_size(0));
    match old.diff(&new) {
        EntryDiff::File(md) => {
            assert!(!md.zeroed);
            assert!(!md.changed_content);
        }
        _ => panic!("expected a file diff"),
    }
}

#[test]
fn kind_change_is_terminal_and_counts_once() {
    let mut old = Database::default();
    old.insert(&path(&["p"]), file_of(b"a file"));
    let mut new = Database::default();
    new.insert(&path(&["p", "inner"]), file_of(b"now a directory"));

    let d = old.diff(&new);
    let c = dir_counts(&d);
    assert_eq!((c.added, c.removed, c.changed, c.unchanged), (0, 0, 1, 0));
    match &d {
        EntryDiff::Directory(children, _) => {
            assert_eq!(children.len(), 1);
            assert_eq!(children[0].0, b"p".to_vec());
            assert!(matches!(children[0].1, EntryDiff::KindChanged));
        }
        _ => panic!("expected a directory diff"),
    }
}

#[test]
fn single_byte_corruption_changes_both_digests_only() {
    let mut data: Vec<u8> = (0..65536u32).map(|i| ((i * 31 + 7) % 125 + 1) as u8).collect();
    let before = compute_metrics(&data);
    // flip one byte to another value on the same side of both boundaries
    let old_byte = data[40000];
    let new_byte = if old_byte == 1 { 2 } else { 1 };
    data[40000] = new_byte;
    let after = compute_metrics(&data);

    assert_ne!(before.sha2, after.sha2);
    assert_ne!(before.sha3, after.sha3);
    assert_eq!(before.size, after.size);
    assert_eq!(before.nul, after.nul);
    assert_eq!(before.nonascii, after.nonascii);
}

#[test]
fn report_lists_suspicious_file_changes() {
    let mut old = Database::default();
    old.insert(&path(&["dir", "f"]), file_of(b"plain text"));
    let mut new = Database::default();
    new.insert(&path(&["dir", "f"]), file_of(&[b'p', 0, 0x90]));

    let lines: Vec<ReportLine> = old.show_diff(&new);
    assert_eq!(lines.len(), 5);
    assert_eq!(lines[0].depth, 0);
    assert_eq!(lines[0].name, b".".to_vec());
    assert_eq!(
        lines[0].kind,
        LineKind::DirSummary { changed: 1, added: 0, removed: 0, unchanged: 0 }
    );
    assert_eq!(lines[1].depth, 1);
    assert_eq!(lines[1].name, b"dir".to_vec());
    assert_eq!(
        lines[1].kind,
        LineKind::DirSummary { changed: 1, added: 0, removed: 0, unchanged: 0 }
    );
    assert_eq!(lines[2].depth, 2);
    assert_eq!(lines[2].name, b"f".to_vec());
    assert_eq!(lines[2].kind, LineKind::FileChanged);
    assert_eq!(lines[3].kind, LineKind::NulChanged);
    assert_eq!(lines[4].kind, LineKind::NonasciiChanged);
}

#[test]
fn report_suppresses_ordinary_content_change_on_files() {
    let mut old = Database::default();
    old.insert(&path(&["f"]), file_of(b"one"));
    let mut new = Database::default();
    new.insert(&path(&["f"]), file_of(b"two"));

    let lines = old.show_diff(&new);
    // the directory line reports the change, but the file itself raises no
    // suspicious pattern and gets no line
    assert_eq!(lines.len(), 1);
    assert_eq!(
        lines[0].kind,
        LineKind::DirSummary { changed: 1, added: 0, removed: 0, unchanged: 0 }
    );
}

#[test]
fn report_counts_removals_at_the_root() {
    let mut old = Database::default();
    old.insert(&path(&["a"]), file_of(b"x"));
    let new = Database::default();
    let lines = old.check(&new);
    assert_eq!(lines.len(), 1);
    assert_eq!(
        lines[0].kind,
        LineKind::DirSummary { changed: 0, added: 0, removed: 1, unchanged: 0 }
    );
}

#[test]
fn weight_counts_every_key() {
    let mut db = Database::default();
    assert_eq!(db.weight(), Some(0));
    db.insert(&path(&["a", "b", "c"]), file_of(b"1"));
    // keys: a, a/b, a/b/c
    assert_eq!(db.weight(), Some(3));
    db.insert(&path(&["a", "d"]), file_of(b"2"));
    assert_eq!(db.weight(), Some(4));
}

#[test]
fn changed_content_follows_size_and_digests() {
    let m1 = metrics_with_size(10);
    let mut m2 = metrics_with_size(10);
    m2.sha2 = HashSum(vec![9, 9, 9]);
    match Entry::File(m1).diff(&Entry::File(m2)) {
        EntryDiff::File(MetricsDiff { changed_content, zeroed, changed_nul, changed_nonascii }) => {
            assert!(changed_content);
            assert!(!zeroed);
            assert!(!changed_nul);
            assert!(!changed_nonascii);
        }
        _ => panic!("expected a file diff"),
    }
}
