use dirdiff::compare::{diff_snapshots, DiffType};
use dirdiff::hashing::fingerprint_bytes;
use dirdiff::snapshot::{DirectorySnapshot, FileInfo};

fn entry(path: &str, content: &[u8]) -> FileInfo {
    FileInfo {
        relative_path: path.to_string(),
        hash: fingerprint_bytes(content),
        size: content.len() as u64,
    }
}

fn snapshot_of(files: &[(&str, &[u8])]) -> DirectorySnapshot {
    let mut snap = DirectorySnapshot::new();
    for (path, content) in files {
        snap.insert(entry(path, content));
    }
    snap
}

/// A comparable rendering of one diff entry: (variant, path, hash).
fn key_of(d: &DiffType) -> (String, String, String) {
    match d {
        DiffType::Added(info) => (
            "added".to_string(),
            info.relative_path.clone(),
            info.hash.clone(),
        ),
        DiffType::Modified(info) => (
            "modified".to_string(),
            info.relative_path.clone(),
            info.hash.clone(),
        ),
        DiffType::Removed(path) => ("removed".to_string(), path.clone(), String::new()),
    }
}

fn sorted_keys(diff: &[DiffType]) -> Vec<(String, String, String)> {
    let mut keys: Vec<_> = diff.iter().map(key_of).collect();
    keys.sort();
    keys
}

#[test]
fn identical_trees_give_empty_diff() {
    let files: &[(&str, &[u8])] = &[("a.txt", b"hello"), ("sub/b.txt", b"world")];
    let source = snapshot_of(files);
    let target = snapshot_of(files);
    let diff = diff_snapshots(&source, &target);
    assert!(diff.is_empty());
}

#[test]
fn file_only_in_target_is_added_exactly_once() {
    let source = snapshot_of(&[("a.txt", b"hello")]);
    let target = snapshot_of(&[("a.txt", b"hello"), ("new.txt", b"fresh")]);
    let diff = diff_snapshots(&source, &target);
    assert_eq!(diff.len(), 1);
    match &diff[0] {
        DiffType::Added(info) => {
            assert_eq!(info.relative_path, "new.txt");
            assert_eq!(info.hash, fingerprint_bytes(b"fresh"));
            assert_eq!(info.size, 5);
        }
        other => panic!("expected Added, got {:?}", key_of(other)),
    }
}

#[test]
fn file_only_in_source_is_removed_exactly_once() {
    let source = snapshot_of(&[("a.txt", b"hello"), ("gone.txt", b"bye")]);
    let target = snapshot_of(&[("a.txt", b"hello")]);
    let diff = diff_snapshots(&source, &target);
    assert_eq!(diff.len(), 1);
    match &diff[0] {
        DiffType::Removed(path) => assert_eq!(path, "gone.txt"),
        other => panic!("expected Removed, got {:?}", key_of(other)),
    }
}

#[test]
fn modified_file_carries_the_target_record() {
    let source = snapshot_of(&[("a.txt", b"old bytes")]);
    let target = snapshot_of(&[("a.txt", b"new bytes!")]);
    let diff = diff_snapshots(&source, &target);
    assert_eq!(diff.len(), 1);
    match &diff[0] {
        DiffType::Modified(info) => {
            assert_eq!(info.relative_path, "a.txt");
            // The record is the target's, never the source's.
            assert_eq!(info.hash, fingerprint_bytes(b"new bytes!"));
            assert_eq!(info.size, 10);
        }
        other => panic!("expected Modified, got {:?}", key_of(other)),
    }
}

#[test]
fn unchanged_file_gives_no_entry() {
    let source = snapshot_of(&[("same.txt", b"stable"), ("other.txt", b"one")]);
    let target = snapshot_of(&[("same.txt", b"stable"), ("other.txt", b"two")]);
    let diff = diff_snapshots(&source, &target);
    for d in &diff {
        let (_, path, _) = key_of(d);
        assert_ne!(path, "same.txt");
    }
    assert_eq!(diff.len(), 1);
}

#[test]
fn comparison_is_idempotent() {
    let source = snapshot_of(&[("a.txt", b"hello"), ("b.txt", b"world"), ("c.txt", b"x")]);
    let target = snapshot_of(&[("a.txt", b"hello"), ("b.txt", b"WORLD"), ("d.txt", b"y")]);
    let first = diff_snapshots(&source, &target);
    let second = diff_snapshots(&source, &target);
    assert_eq!(sorted_keys(&first), sorted_keys(&second));
}

#[test]
fn end_to_end_scenario() {
    // source: {a.txt: "hello", b.txt: "world"}
    // target: {a.txt: "hello", b.txt: "WORLD", c.txt: "new"}
    // diff = {Modified(b.txt), Added(c.txt)}, no entry for a.txt.
    let source = snapshot_of(&[("a.txt", b"hello"), ("b.txt", b"world")]);
    let target = snapshot_of(&[("a.txt", b"hello"), ("b.txt", b"WORLD"), ("c.txt", b"new")]);
    let diff = diff_snapshots(&source, &target);
    let keys = sorted_keys(&diff);
    assert_eq!(
        keys,
        vec![
            (
                "added".to_string(),
                "c.txt".to_string(),
                fingerprint_bytes(b"new"),
            ),
            (
                "modified".to_string(),
                "b.txt".to_string(),
                fingerprint_bytes(b"WORLD"),
            ),
        ]
    );
}

#[test]
fn swapping_snapshots_swaps_added_and_removed() {
    let one = snapshot_of(&[("only.txt", b"data")]);
    let two = snapshot_of(&[]);
    let forward = diff_snapshots(&one, &two);
    let backward = diff_snapshots(&two, &one);
    assert_eq!(forward.len(), 1);
    assert!(matches!(&forward[0], DiffType::Removed(p) if p == "only.txt"));
    assert_eq!(backward.len(), 1);
    assert!(matches!(&backward[0], DiffType::Added(info) if info.relative_path == "only.txt"));
}

#[test]
fn excluded_file_never_reaches_the_diff() {
    // An `a.log` present only in the target is invisible under a `.log`
    // rule: both snapshots drop it, so the diff is empty.
    let exts = vec![".log".to_string()];
    let source = DirectorySnapshot::from_records_filtered(vec![], Some(&exts), None);
    let target = DirectorySnapshot::from_records_filtered(
        vec![entry("a.log", b"log lines")],
        Some(&exts),
        None,
    );
    let diff = diff_snapshots(&source, &target);
    assert!(diff.is_empty());
}
