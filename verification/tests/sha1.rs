use bit_torrent::sha1::{bytes_to_hex, hex_to_bytes, sha1, sha1_hex};

#[test]
fn test_sha1_empty() {
    let d = sha1(b"");
    assert_eq!(
        bytes_to_hex(&d),
        "da39a3ee5e6b4b0d3255bfef95601890afd80709".to_string()
    );
}

#[test]
fn test_sha1_abc() {
    let d = sha1(b"abc");
    assert_eq!(
        bytes_to_hex(&d),
        "a9993e364706816aba3e25717850c26c9cd0d89d".to_string()
    );
}

#[test]
fn test_hex_roundtrip() {
    let src = b"the quick brown fox jumps over the lazy dog";
    let hex = sha1_hex(src);
    let parsed = hex_to_bytes(&hex).unwrap();
    let digest = sha1(src);
    assert_eq!(parsed, digest);
}

#[test]
fn test_invalid_hex() {
    assert!(hex_to_bytes("zz").is_none());
    assert!(hex_to_bytes("a".repeat(39).as_str()).is_none());
}

#[test]
fn sha1_long_input_crosses_chunks() {
    // 1,000,000 'a' bytes: the classic long-message vector.
    let data = vec![b'a'; 1_000_000];
    assert_eq!(
        sha1_hex(&data),
        "34aa973cd4c4daa4f61eeb2bdbad27316534016f".to_string()
    );
}

#[test]
fn sha1_length_55_and_56_padding_edge() {
    // 55 bytes fit one chunk after padding; 56 spill into a second chunk.
    let d55 = vec![b'x'; 55];
    let d56 = vec![b'x'; 56];
    assert_eq!(sha1(&d55).len(), 20);
    assert_eq!(sha1(&d56).len(), 20);
    assert_ne!(sha1(&d55), sha1(&d56));
    assert_eq!(
        sha1_hex(b"The quick brown fox jumps over the lazy dog"),
        "2fd4e1c67a2d28fced849ee1bb76e7391b93eb12".to_string()
    );
}

#[test]
fn hex_parsing_trims_whitespace_and_is_case_insensitive() {
    let hex = "  DA39A3EE5E6B4B0D3255BFEF95601890AFD80709\n";
    let parsed = hex_to_bytes(hex).unwrap();
    assert_eq!(parsed, sha1(b""));
    assert_eq!(bytes_to_hex(&parsed), "da39a3ee5e6b4b0d3255bfef95601890afd80709");
    // The full Unicode whitespace set is stripped, as str::trim does.
    let exotic = "\u{000B}\u{00A0}da39a3ee5e6b4b0d3255bfef95601890afd80709\u{2028}\u{3000}";
    assert_eq!(exotic.trim(), "da39a3ee5e6b4b0d3255bfef95601890afd80709");
    assert_eq!(hex_to_bytes(exotic).unwrap(), sha1(b""));
}
