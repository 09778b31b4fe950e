use dirdiff::hashing::{bytes_to_hex, fingerprint_bytes, ContentHasher};
use sha2::Digest;

#[test]
fn fingerprint_of_known_content() {
    assert_eq!(
        fingerprint_bytes(b"hello"),
        "2cf24dba5fb0a30e26e83b2ac5b9e29e1b161e5c1fa7425e73043362938b9824"
    );
}

#[test]
fn fingerprint_of_empty_content() {
    assert_eq!(
        fingerprint_bytes(b""),
        "e3b0c44298fc1c149afbf4c8996fb92427ae41e4649b934ca495991b7852b855"
    );
}

#[test]
fn fingerprint_agrees_with_direct_digest() {
    // The library's fingerprint must be the hex form of what the digest
    // crate computes on the same bytes.
    let direct = sha2::Sha256::digest(b"some file content").to_vec();
    assert_eq!(fingerprint_bytes(b"some file content"), bytes_to_hex(&direct));
}

#[test]
fn streaming_matches_one_shot() {
    let mut h = ContentHasher::new();
    h.update(b"he");
    h.update(b"llo");
    assert_eq!(h.fingerprint(), fingerprint_bytes(b"hello"));
}

#[test]
fn hashing_twice_is_deterministic() {
    // Two separate invocations over the same bytes yield one fingerprint.
    let first = fingerprint_bytes(b"same bytes");
    let second = fingerprint_bytes(b"same bytes");
    assert_eq!(first, second);
}

#[test]
fn different_content_gives_different_fingerprints() {
    assert_ne!(fingerprint_bytes(b"hello"), fingerprint_bytes(b"hellp"));
    assert_ne!(fingerprint_bytes(b"a"), fingerprint_bytes(b""));
}

#[test]
fn fingerprint_is_64_lowercase_hex_digits() {
    let fp = fingerprint_bytes(b"anything at all");
    assert_eq!(fp.len(), 64);
    assert!(fp.chars().all(|c| c.is_ascii_hexdigit() && !c.is_ascii_uppercase()));
}

#[test]
fn hex_rendering_of_bytes() {
    assert_eq!(bytes_to_hex(&vec![]), "");
    assert_eq!(bytes_to_hex(&vec![0x00, 0xff, 0x1a]), "00ff1a");
    assert_eq!(bytes_to_hex(&vec![0x0f, 0xf0]), "0ff0");
}
