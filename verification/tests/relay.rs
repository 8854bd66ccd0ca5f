use miniproxy::config::{Config, Filter, Redirect};
use miniproxy::http::ParseError;
use miniproxy::relay::{on_request, screen_client, RelayError, RequestAction};

fn config(websites: Vec<&[u8]>, ips: Vec<&[u8]>, rules: Vec<(&[u8], &[u8])>) -> Config {
    Config {
        port: String::from("8080"),
        log: String::from("proxy.log"),
        verbose: false,
        thread: 4,
        filter: Filter {
            website: websites.into_iter().map(|w| w.to_vec()).collect(),
            ip: ips.into_iter().map(|i| i.to_vec()).collect(),
        },
        redirect: rules
            .into_iter()
            .map(|(f, t)| Redirect { from: f.to_vec(), to: t.to_vec() })
            .collect(),
    }
}

const FORBIDDEN: &[u8] =
    b"HTTP/1.1 403 Forbidden\r\n\r\n<h1>403 Forbidden</h1> You can't use this proxy!";
const LEGAL: &[u8] = b"HTTP/1.1 451 Unavailable For Legal Reasons\r\n\r\n<h1>451 Unavailable For Legal Reasons</h1>";

#[test]
fn blacklisted_peer_draws_exact_403_body() {
    let cfg = config(vec![], vec![b"10.0.0.9"], vec![]);
    let r = screen_client(b"10.0.0.9", &cfg);
    assert_eq!(r.unwrap(), FORBIDDEN.to_vec());
}

#[test]
fn unlisted_peer_is_served() {
    let cfg = config(vec![], vec![b"10.0.0.9"], vec![]);
    assert!(screen_client(b"10.0.0.10", &cfg).is_none());
}

#[test]
fn short_read_closes_quietly() {
    let cfg = config(vec![], vec![], vec![]);
    // 15 bytes: one short of the shortest viable request line
    let r = on_request(b"GET / HTTP/1.1\r", &cfg);
    assert!(matches!(r, RequestAction::CloseQuietly));
}

#[test]
fn empty_read_closes_quietly() {
    let cfg = config(vec![], vec![], vec![]);
    assert!(matches!(on_request(b"", &cfg), RequestAction::CloseQuietly));
}

#[test]
fn connect_closes_quietly_without_response_bytes() {
    let cfg = config(vec![], vec![], vec![]);
    let r = on_request(b"CONNECT x.example:443 HTTP/1.1\r\nHost: x.example\r\n\r\n", &cfg);
    // CloseQuietly carries no bytes at all, so nothing can reach the client.
    assert!(matches!(r, RequestAction::CloseQuietly));
}

#[test]
fn unsupported_method_fails_the_connection() {
    let cfg = config(vec![], vec![], vec![]);
    let r = on_request(b"PUT /x HTTP/1.1\r\nHost: h\r\n\r\n", &cfg);
    assert!(matches!(r, RequestAction::Fail(RelayError::UnsupportedMethod)));
}

#[test]
fn parse_failure_fails_the_connection() {
    let cfg = config(vec![], vec![], vec![]);
    let r = on_request(b"GET / HTTP/1.1\r\nAccept: x\r\n\r\n", &cfg);
    match r {
        RequestAction::Fail(RelayError::Parse(e)) => assert_eq!(e, ParseError::MissingHost),
        _ => panic!("expected a parse failure"),
    }
}

#[test]
fn blacklisted_host_draws_exact_451_body() {
    let cfg = config(vec![b"bad.example"], vec![], vec![]);
    let r = on_request(b"GET / HTTP/1.1\r\nHost: bad.example\r\n\r\n", &cfg);
    match r {
        RequestAction::Respond(body) => assert_eq!(body, LEGAL.to_vec()),
        _ => panic!("expected the fixed refusal response"),
    }
}

#[test]
fn plain_request_is_forwarded_in_wire_form() {
    let cfg = config(vec![], vec![], vec![]);
    let r = on_request(b"GET /a HTTP/1.1\r\nHost: origin.example\r\n\r\n", &cfg);
    match r {
        RequestAction::Forward(host, bytes) => {
            assert_eq!(host, b"origin.example".to_vec());
            assert_eq!(bytes, b"GET /a HTTP/1.1\r\nHost: origin.example\r\n\r\n".to_vec());
        },
        _ => panic!("expected a forward"),
    }
}

#[test]
fn redirect_rewrites_relative_path_to_bare_absolute_form() {
    let cfg = config(vec![], vec![], vec![(b"f", b"g")]);
    let r = on_request(b"GET /c HTTP/1.1\r\nHost: f\r\n\r\n", &cfg);
    match r {
        RequestAction::Forward(host, bytes) => {
            assert_eq!(host, b"g".to_vec());
            assert_eq!(bytes, b"GET http://g/ HTTP/1.1\r\nHost: g\r\n\r\n".to_vec());
        },
        _ => panic!("expected a forward"),
    }
}

#[test]
fn redirect_keeps_suffix_of_absolute_path() {
    let cfg = config(vec![], vec![], vec![(b"old.example", b"new.example")]);
    let r = on_request(
        b"GET http://old.example/a/b HTTP/1.1\r\nHost: old.example\r\n\r\n",
        &cfg,
    );
    match r {
        RequestAction::Forward(host, bytes) => {
            assert_eq!(host, b"new.example".to_vec());
            assert_eq!(
                bytes,
                b"GET http://new.example/a/b HTTP/1.1\r\nHost: new.example\r\n\r\n".to_vec()
            );
        },
        _ => panic!("expected a forward"),
    }
}

#[test]
fn first_matching_redirect_wins_and_rules_do_not_chain() {
    let cfg = config(vec![], vec![], vec![(b"a", b"b"), (b"b", b"c"), (b"a", b"d")]);
    let r = on_request(b"GET /x HTTP/1.1\r\nHost: a\r\n\r\n", &cfg);
    match r {
        RequestAction::Forward(host, _) => assert_eq!(host, b"b".to_vec()),
        _ => panic!("expected a forward"),
    }
}

#[test]
fn website_blacklist_is_checked_before_redirects() {
    let cfg = config(vec![b"a"], vec![], vec![(b"a", b"b")]);
    let r = on_request(b"GET /x HTTP/1.1\r\nHost: a\r\n\r\n", &cfg);
    assert!(matches!(r, RequestAction::Respond(_)));
}
