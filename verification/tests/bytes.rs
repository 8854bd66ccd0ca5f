use miniproxy::bytes::{bytes_eq, check_utf8, find, split, split_tokens, trim, trim_ws};

#[test]
fn find_first_occurrence() {
    assert_eq!(find(b"abcabc", b"bc"), Some(1));
    assert_eq!(find(b"aab", b"ab"), Some(1));
    assert_eq!(find(b"abc", b"zz"), None);
    assert_eq!(find(b"", b"a"), None);
}

#[test]
fn find_empty_pattern_is_at_start() {
    assert_eq!(find(b"abc", b""), Some(0));
}

#[test]
fn find_partial_match_at_end_is_no_match() {
    // a partial match running off the end must not be reported
    assert_eq!(find(b"xxab", b"abc"), None);
    assert_eq!(find(b"\r\n\r", b"\r\n\r\n"), None);
}

#[test]
fn split_drops_trailing_empty_piece() {
    let pieces = split(b"a\r\nb\r\n", b"\r\n");
    assert_eq!(pieces, vec![b"a".to_vec(), b"b".to_vec()]);
    let pieces2 = split(b"a\r\nb", b"\r\n");
    assert_eq!(pieces2, vec![b"a".to_vec(), b"b".to_vec()]);
    assert_eq!(split(b"", b"\r\n"), Vec::<Vec<u8>>::new());
}

#[test]
fn split_keeps_interior_empty_pieces() {
    let pieces = split(b"a\r\n\r\nb", b"\r\n");
    assert_eq!(pieces, vec![b"a".to_vec(), b"".to_vec(), b"b".to_vec()]);
}

#[test]
fn split_tokens_keeps_empty_pieces() {
    assert_eq!(
        split_tokens(b"GET  x"),
        vec![b"GET".to_vec(), b"".to_vec(), b"x".to_vec()]
    );
    assert_eq!(split_tokens(b"a "), vec![b"a".to_vec(), b"".to_vec()]);
    assert_eq!(split_tokens(b""), vec![b"".to_vec()]);
}

#[test]
fn trim_strips_leading_spaces_only() {
    assert_eq!(trim(b"  a b  "), b"a b  ".to_vec());
    assert_eq!(trim(b"\ta"), b"\ta".to_vec());
    assert_eq!(trim(b"   "), Vec::<u8>::new());
}

#[test]
fn trim_ws_strips_both_ends() {
    assert_eq!(trim_ws(b" \t a b \r\n"), b"a b".to_vec());
    assert_eq!(trim_ws(b"ab"), b"ab".to_vec());
    assert_eq!(trim_ws(b" \t "), Vec::<u8>::new());
}

#[test]
fn bytes_eq_compares_exactly() {
    assert!(bytes_eq(b"abc", b"abc"));
    assert!(!bytes_eq(b"abc", b"abd"));
    assert!(!bytes_eq(b"abc", b"ab"));
    assert!(bytes_eq(b"", b""));
}

#[test]
fn check_utf8_accepts_well_formed_encodings() {
    assert!(check_utf8(b""));
    assert!(check_utf8(b"plain ascii"));
    assert!(check_utf8("héllo wörld".as_bytes()));
    assert!(check_utf8("日本語".as_bytes()));
    assert!(check_utf8("𝄞 clef".as_bytes()));
}

#[test]
fn check_utf8_rejects_malformed_encodings() {
    // lone continuation byte
    assert!(!check_utf8(&[0x80]));
    // overlong two-byte encoding of NUL
    assert!(!check_utf8(&[0xc0, 0x80]));
    // surrogate half
    assert!(!check_utf8(&[0xed, 0xa0, 0x80]));
    // past the last scalar value
    assert!(!check_utf8(&[0xf4, 0x90, 0x80, 0x80]));
    // truncated sequence
    assert!(!check_utf8(&[0xc3]));
    assert!(!check_utf8(&[0xe2, 0x82]));
    // 0xfe and 0xff never appear in UTF-8
    assert!(!check_utf8(&[0xfe]));
    assert!(!check_utf8(&[0xff]));
}

#[test]
fn check_utf8_matches_std_on_mixed_samples() {
    let samples: Vec<Vec<u8>> = vec![
        b"GET / HTTP/1.1".to_vec(),
        vec![0xe0, 0x9f, 0x80],
        vec![0xe0, 0xa0, 0x80],
        vec![0xf0, 0x8f, 0x80, 0x80],
        vec![0xf0, 0x90, 0x80, 0x80],
        vec![0xed, 0x9f, 0xbf],
        vec![0xc2, 0x80],
        vec![0xc1, 0xbf],
        vec![0x7f, 0xdf, 0xbf],
    ];
    for s in samples {
        assert_eq!(check_utf8(&s), std::str::from_utf8(&s).is_ok());
    }
}
