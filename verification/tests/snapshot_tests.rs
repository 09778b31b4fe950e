use dirdiff::hashing::fingerprint_bytes;
use dirdiff::snapshot::{DirectorySnapshot, FileInfo};

fn record(path: &str, content: &[u8]) -> FileInfo {
    FileInfo {
        relative_path: path.to_string(),
        hash: fingerprint_bytes(content),
        size: content.len() as u64,
    }
}

#[test]
fn insert_then_get() {
    let mut snap = DirectorySnapshot::new();
    snap.insert(record("a.txt", b"hello"));
    snap.insert(record("b/c.txt", b"world"));
    assert_eq!(snap.len(), 2);

    let a = snap.get("a.txt").expect("a.txt should be present");
    assert_eq!(a.relative_path, "a.txt");
    assert_eq!(a.size, 5);
    assert_eq!(a.hash, fingerprint_bytes(b"hello"));

    assert!(snap.get("missing.txt").is_none());
}

#[test]
fn insert_same_path_last_wins() {
    let mut snap = DirectorySnapshot::new();
    snap.insert(record("a.txt", b"old"));
    snap.insert(record("a.txt", b"new content"));
    assert_eq!(snap.len(), 1);
    let a = snap.get("a.txt").unwrap();
    assert_eq!(a.hash, fingerprint_bytes(b"new content"));
    assert_eq!(a.size, 11);
}

#[test]
fn from_records_assembles_and_later_record_wins() {
    let records = vec![
        record("x.txt", b"one"),
        record("y.txt", b"two"),
        record("x.txt", b"three"),
    ];
    let snap = DirectorySnapshot::from_records(records);
    assert_eq!(snap.len(), 2);
    assert_eq!(snap.get("x.txt").unwrap().hash, fingerprint_bytes(b"three"));
    assert_eq!(snap.get("y.txt").unwrap().hash, fingerprint_bytes(b"two"));
}

#[test]
fn filtered_assembly_drops_hidden_paths() {
    let records = vec![record(".secret", b"password"), record("a.txt", b"visible")];
    let snap = DirectorySnapshot::from_records_filtered(records, None, None);
    assert_eq!(snap.len(), 1);
    assert!(snap.get(".secret").is_none());
    assert!(snap.get("a.txt").is_some());
}

#[test]
fn filtered_assembly_applies_extension_rule() {
    let exts = vec![".log".to_string()];
    let records = vec![record("a.log", b"noise"), record("a.txt", b"signal")];
    let snap = DirectorySnapshot::from_records_filtered(records, Some(&exts), None);
    assert_eq!(snap.len(), 1);
    assert!(snap.get("a.log").is_none());
    assert!(snap.get("a.txt").is_some());
}

#[test]
fn filtered_assembly_applies_directory_rule() {
    let dirs = vec!["build".to_string()];
    let records = vec![record("build/out.bin", b"artifact"), record("src/a.rs", b"code")];
    let snap = DirectorySnapshot::from_records_filtered(records, None, Some(&dirs));
    assert_eq!(snap.len(), 1);
    assert!(snap.get("build/out.bin").is_none());
    assert!(snap.get("src/a.rs").is_some());
}

#[test]
fn duplicate_copies_every_field() {
    let info = record("a.txt", b"hello");
    let copy = info.duplicate();
    assert_eq!(copy.relative_path, info.relative_path);
    assert_eq!(copy.hash, info.hash);
    assert_eq!(copy.size, info.size);
}
