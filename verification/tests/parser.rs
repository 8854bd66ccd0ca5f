use miniproxy::http::{ParseError, Request};

fn parse_ok(buf: &[u8]) -> Request {
    Request::parse(buf).unwrap()
}

#[test]
fn parses_path_with_params_and_query() {
    let req = parse_ok(b"GET /bar;par?b HTTP/1.1\r\nHost: foo\r\n\r\n");
    assert_eq!(req.method, b"GET".to_vec());
    assert_eq!(req.path, b"/bar;par?b".to_vec());
    assert_eq!(req.version, b"HTTP/1.1".to_vec());
    assert_eq!(req.headers.len(), 1);
    assert_eq!(req.headers[0].key, b"Host".to_vec());
    assert_eq!(req.headers[0].value, b"foo".to_vec());
    assert_eq!(req.host, b"foo".to_vec());
}

#[test]
fn parses_double_slash_at_path() {
    let req = parse_ok(b"GET //@ HTTP/1.1\r\nHost: foo.com\r\n\r\n");
    assert_eq!(req.path, b"//@".to_vec());
    assert_eq!(req.host, b"foo.com".to_vec());
}

#[test]
fn parses_path_with_double_question_mark() {
    let req = parse_ok(b"GET /path;a??e HTTP/1.1\r\nHost: foo\r\n\r\n");
    assert_eq!(req.path, b"/path;a??e".to_vec());
}

#[test]
fn parses_relative_path_without_leading_slash() {
    let req = parse_ok(b"GET example.com/ HTTP/1.1\r\nHost: \r\n\r\n");
    assert_eq!(req.path, b"example.com/".to_vec());
    assert_eq!(req.host, b"".to_vec());
    assert_eq!(req.headers[0].value, b"".to_vec());
}

#[test]
fn parses_percent_encoded_path_verbatim() {
    let req = parse_ok(b"GET /%20b%20?%20d%20 HTTP/1.1\r\nHost: f\r\n\r\n");
    assert_eq!(req.path, b"/%20b%20?%20d%20".to_vec());
}

#[test]
fn drops_upgrade_insecure_requests_header_only() {
    let req = parse_ok(
        b"GET / HTTP/1.1\r\nHost: h\r\nUpgrade-Insecure-Requests: 1\r\nAccept: */*\r\n\r\n",
    );
    assert_eq!(req.headers.len(), 2);
    assert_eq!(req.headers[0].key, b"Host".to_vec());
    assert_eq!(req.headers[1].key, b"Accept".to_vec());
}

#[test]
fn last_host_header_wins() {
    let req = parse_ok(b"GET / HTTP/1.1\r\nHost: first\r\nHost: second\r\n\r\n");
    assert_eq!(req.host, b"second".to_vec());
    assert_eq!(req.headers.len(), 2);
    assert_eq!(req.headers[0].value, b"first".to_vec());
    assert_eq!(req.headers[1].value, b"second".to_vec());
}

#[test]
fn header_key_is_trimmed_and_value_keeps_tail() {
    let req = parse_ok(b"GET / HTTP/1.1\r\nHost: h\r\n  Accept  :  text/html  \r\n\r\n");
    assert_eq!(req.headers[1].key, b"Accept".to_vec());
    // leading spaces stripped, trailing bytes kept
    assert_eq!(req.headers[1].value, b"text/html  ".to_vec());
}

#[test]
fn host_is_trimmed_on_both_sides() {
    let req = parse_ok(b"GET / HTTP/1.1\r\nHost:   spaced.example  \r\n\r\n");
    assert_eq!(req.host, b"spaced.example".to_vec());
    assert_eq!(req.headers[0].value, b"spaced.example  ".to_vec());
}

#[test]
fn body_is_everything_after_blank_line() {
    let req = parse_ok(b"POST /s HTTP/1.1\r\nHost: h\r\n\r\npayload bytes");
    assert_eq!(req.method, b"POST".to_vec());
    assert_eq!(req.body, b"payload bytes".to_vec());
}

#[test]
fn body_may_hold_arbitrary_bytes() {
    let mut buf = b"POST /s HTTP/1.1\r\nHost: h\r\n\r\n".to_vec();
    buf.extend_from_slice(&[0xff, 0x00, 0xfe]);
    let req = Request::parse(&buf).unwrap();
    assert_eq!(req.body, vec![0xff, 0x00, 0xfe]);
}

#[test]
fn missing_blank_line_means_empty_body() {
    let req = parse_ok(b"GET / HTTP/1.1\r\nHost: h");
    assert_eq!(req.body, Vec::<u8>::new());
    assert_eq!(req.host, b"h".to_vec());
}

#[test]
fn error_missing_request_line() {
    let r = Request::parse(b"\r\n\r\nrest");
    assert_eq!(r.unwrap_err(), ParseError::MissingRequestLine);
}

#[test]
fn error_first_line_not_utf8() {
    let r = Request::parse(b"GET /\xff\xfe HTTP/1.1\r\nHost: h\r\n\r\n");
    assert_eq!(r.unwrap_err(), ParseError::FirstLineNotUtf8);
}

#[test]
fn error_missing_path() {
    let r = Request::parse(b"GET\r\nHost: h\r\n\r\n");
    assert_eq!(r.unwrap_err(), ParseError::MissingPath);
}

#[test]
fn error_missing_version() {
    let r = Request::parse(b"GET /x\r\nHost: h\r\n\r\n");
    assert_eq!(r.unwrap_err(), ParseError::MissingVersion);
}

#[test]
fn error_header_missing_colon() {
    let r = Request::parse(b"GET / HTTP/1.1\r\nno colon here\r\n\r\n");
    assert_eq!(r.unwrap_err(), ParseError::HeaderMissingColon);
}

#[test]
fn error_header_key_not_utf8() {
    let r = Request::parse(b"GET / HTTP/1.1\r\n\xff: v\r\n\r\n");
    assert_eq!(r.unwrap_err(), ParseError::HeaderKeyNotUtf8);
}

#[test]
fn error_missing_host() {
    let r = Request::parse(b"GET / HTTP/1.1\r\nAccept: x\r\n\r\n");
    assert_eq!(r.unwrap_err(), ParseError::MissingHost);
}

#[test]
fn write_round_trips_simple_request() {
    let input: &[u8] = b"GET /bar;par?b HTTP/1.1\r\nHost: foo\r\n\r\n";
    let req = parse_ok(input);
    let mut out: Vec<u8> = Vec::new();
    req.write(&mut out);
    assert_eq!(out, input.to_vec());
}

#[test]
fn write_appends_line_break_after_nonempty_body() {
    let req = parse_ok(b"POST /s HTTP/1.1\r\nHost: h\r\n\r\npayload");
    let mut out: Vec<u8> = Vec::new();
    req.write(&mut out);
    assert_eq!(out, b"POST /s HTTP/1.1\r\nHost: h\r\n\r\npayload\r\n".to_vec());
}

#[test]
fn reparse_of_written_request_matches() {
    let req = parse_ok(
        b"GET /a HTTP/1.1\r\nHost: one\r\nUpgrade-Insecure-Requests: 1\r\nX-K:  v \r\n\r\n",
    );
    let mut out: Vec<u8> = Vec::new();
    req.write(&mut out);
    let again = Request::parse(&out).unwrap();
    assert_eq!(again.method, req.method);
    assert_eq!(again.path, req.path);
    assert_eq!(again.version, req.version);
    assert_eq!(again.host, req.host);
    assert_eq!(again.headers.len(), req.headers.len());
    for i in 0..req.headers.len() {
        assert_eq!(again.headers[i].key, req.headers[i].key);
        assert_eq!(again.headers[i].value, req.headers[i].value);
    }
}

#[test]
fn modify_host_on_absolute_path() {
    let mut req = parse_ok(b"GET http://old.example/a/b HTTP/1.1\r\nHost: old.example\r\n\r\n");
    req.modify_host(b"new.example");
    assert_eq!(req.path, b"http://new.example/a/b".to_vec());
    assert_eq!(req.host, b"new.example".to_vec());
    assert_eq!(req.headers[0].value, b"new.example".to_vec());
}

#[test]
fn modify_host_on_absolute_path_without_suffix() {
    let mut req = parse_ok(b"GET http://old.example HTTP/1.1\r\nHost: old.example\r\n\r\n");
    req.modify_host(b"g");
    assert_eq!(req.path, b"http://g/".to_vec());
}

#[test]
fn modify_host_on_relative_path_yields_bare_absolute_form() {
    // A relative path has no `/` after the first seven bytes to anchor a
    // suffix, so the rewritten path is the bare absolute form.
    let mut req = parse_ok(b"GET /c HTTP/1.1\r\nHost: f\r\n\r\n");
    req.modify_host(b"g");
    assert_eq!(req.path, b"http://g/".to_vec());
    assert_eq!(req.host, b"g".to_vec());
    assert_eq!(req.headers[0].value, b"g".to_vec());
}

#[test]
fn modify_host_rewrites_every_host_header() {
    let mut req = parse_ok(b"GET /x HTTP/1.1\r\nHost: a\r\nAccept: y\r\nHost: b\r\n\r\n");
    req.modify_host(b"c");
    assert_eq!(req.headers[0].value, b"c".to_vec());
    assert_eq!(req.headers[1].value, b"y".to_vec());
    assert_eq!(req.headers[2].value, b"c".to_vec());
}

#[test]
fn double_space_makes_an_empty_path_token() {
    // splitting on single spaces keeps empty tokens, so the path is empty
    // and the third token becomes the version
    let req = parse_ok(b"GET  foo.com HTTP/1.1\r\nHost: \r\n\r\n");
    assert_eq!(req.method, b"GET".to_vec());
    assert_eq!(req.path, b"".to_vec());
    assert_eq!(req.version, b"foo.com".to_vec());
}

#[test]
fn path_may_hold_non_ascii_utf8() {
    let req = parse_ok("GET /\u{65e5}\u{672c} HTTP/1.1\r\nHost: h\r\n\r\n".as_bytes());
    assert_eq!(req.path, "/\u{65e5}\u{672c}".as_bytes().to_vec());
}

#[test]
fn extra_request_line_tokens_are_ignored() {
    let req = parse_ok(b"GET /x HTTP/1.1 junk extra\r\nHost: h\r\n\r\n");
    assert_eq!(req.method, b"GET".to_vec());
    assert_eq!(req.path, b"/x".to_vec());
    assert_eq!(req.version, b"HTTP/1.1".to_vec());
}
