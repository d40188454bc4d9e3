use bit_torrent::metainfo::parse_torrent;
use bit_torrent::sha1::sha1;

fn single_file_torrent(fields_before_info: &[&[u8]], fields_after_info: &[&[u8]]) -> Vec<u8> {
    // Assemble a bencoded dictionary by hand, placing the same info
    // dictionary between other fields in the given order.
    let info: &[u8] = b"4:infod6:lengthi2048e4:name8:demo.bin12:piece lengthi1024e6:pieces40:0123456789012345678901234567890123456789e";
    let mut v = Vec::new();
    v.extend_from_slice(b"d");
    for f in fields_before_info {
        v.extend_from_slice(f);
    }
    v.extend_from_slice(info);
    for f in fields_after_info {
        v.extend_from_slice(f);
    }
    v.extend_from_slice(b"e");
    v
}

#[test]
fn info_bytes_stable_under_field_order() {
    // The same info dictionary surrounded by the other top-level fields in
    // two different orders: the extracted raw bytes and the derived info
    // hash must be identical.
    let announce: &[u8] = b"8:announce21:udp://tracker.example";
    let comment: &[u8] = b"7:comment5:hello";
    let a = single_file_torrent(&[announce, comment], &[]);
    let b = single_file_torrent(&[comment], &[announce]);

    let ta = parse_torrent(&a).unwrap();
    let tb = parse_torrent(&b).unwrap();

    assert_eq!(ta.info.raw, tb.info.raw);
    assert_eq!(sha1(&ta.info.raw), sha1(&tb.info.raw));
    assert_eq!(ta.announce.as_deref(), Some(b"udp://tracker.example".as_slice()));
    assert_eq!(tb.announce, ta.announce);
    assert_eq!(ta.comment.as_deref(), Some(b"hello".as_slice()));
}

#[test]
fn raw_info_bytes_are_verbatim_input_slice() {
    let t = single_file_torrent(&[b"8:announce9:udp://a:1"], &[]);
    let parsed = parse_torrent(&t).unwrap();
    // The raw bytes must occur verbatim in the source.
    let raw = &parsed.info.raw;
    assert!(t.windows(raw.len()).any(|w| w == raw.as_slice()));
    assert!(raw.starts_with(b"d"));
    assert!(raw.ends_with(b"e"));
    assert_eq!(parsed.info.name.as_deref(), Some(b"demo.bin".as_slice()));
    assert_eq!(parsed.info.piece_length, Some(1024));
    assert_eq!(parsed.info.length, Some(2048));
    assert_eq!(parsed.info.pieces.as_ref().unwrap().len(), 40);
}

#[test]
fn parse_rejects_malformed_inputs() {
    // Not a dictionary at top level.
    assert!(parse_torrent(b"i42e").is_err());
    // Missing the info key entirely.
    assert!(parse_torrent(b"d8:announce5:udp:/e").is_err());
    // Truncated input.
    assert!(parse_torrent(b"d4:infod6:length").is_err());
    // Integer overflow.
    assert!(parse_torrent(b"d4:infod6:lengthi99999999999999999999999eee").is_err());
    // Byte string longer than the input.
    assert!(parse_torrent(b"d4:info99:xe").is_err());
    // Garbage token.
    assert!(parse_torrent(b"d4:info!e").is_err());
    // Empty input.
    assert!(parse_torrent(b"").is_err());
}

#[test]
fn announce_list_flattens_one_level() {
    let t = b"d13:announce-listll14:udp://a.b:8080el12:udp://c.d:10ee4:infod6:lengthi1e4:name1:xee";
    let parsed = parse_torrent(t).unwrap();
    assert_eq!(
        parsed.announce_list,
        vec![b"udp://a.b:8080".to_vec(), b"udp://c.d:10".to_vec()]
    );
    assert_eq!(parsed.announce, None);
    assert_eq!(parsed.creation_date, None);
}

#[test]
fn multi_file_entries_and_dates() {
    let t = b"d13:creation datei1700000000e4:infod5:filesld6:lengthi10e4:pathl3:dir5:a.txteed6:lengthi20e4:pathl5:b.bineee4:name4:rootee";
    let parsed = parse_torrent(t).unwrap();
    assert_eq!(parsed.creation_date, Some(1_700_000_000));
    assert_eq!(parsed.info.files.len(), 2);
    assert_eq!(parsed.info.files[0].length, 10);
    assert_eq!(parsed.info.files[0].path, vec![b"dir".to_vec(), b"a.txt".to_vec()]);
    assert_eq!(parsed.info.files[1].length, 20);
    assert_eq!(parsed.info.files[1].path, vec![b"b.bin".to_vec()]);
    // A file entry without a length fails the parse.
    let bad = b"d4:infod5:filesld4:pathl1:aeeee4:name1:xe";
    assert!(parse_torrent(bad).is_err());
}

#[test]
fn negative_and_zero_integers() {
    let t = b"d13:creation datei-42e4:infod6:lengthi0e4:name1:xee";
    let parsed = parse_torrent(t).unwrap();
    assert_eq!(parsed.creation_date, Some(-42));
    assert_eq!(parsed.info.length, Some(0));
}

#[test]
fn non_utf8_text_fields_degrade_to_absent() {
    // A comment holding invalid UTF-8 (a stray 0xFF byte) must not abort
    // the parse: the field is simply absent.
    let mut t = b"d7:comment3:a".to_vec();
    t.push(0xFF);
    t.extend_from_slice(b"b4:infod6:lengthi1e4:name1:xee");
    let parsed = parse_torrent(&t).unwrap();
    assert_eq!(parsed.comment, None);
    assert_eq!(parsed.info.name.as_deref(), Some(b"x".as_slice()));
    assert_eq!(parsed.info.length, Some(1));
}
