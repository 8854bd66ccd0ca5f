//! The per-connection relay decisions.
//!
//! One connection moves through accept, request reading, filtering,
//! forwarding and response relaying. The reads, writes and connects happen
//! outside this crate; what stands here is every decision the relay takes:
//! whether an accepted peer is served at all, and what a request buffer read
//! from the client leads to. The caller performs the returned action
//! literally: send the given bytes and close, close silently, drop the
//! connection on a fatal error, or open a connection to the given host on
//! port 80, send the given bytes, and relay the response back until the
//! origin closes.

use vstd::prelude::*;

use crate::bytes::views;
use crate::config::{find_redirect, first_redirect, in_list, list_contains, redirect_views, Config,
    RedirectModel};
use crate::http::{parse_spec, rewrite_path, wire, host_key, HeaderModel, ParseError, Request,
    RequestModel};

verus! {

/// Bytes of `GET`.
pub open spec fn get_method() -> Seq<u8> {
    seq![71u8, 69u8, 84u8]
}

/// Bytes of `POST`.
pub open spec fn post_method() -> Seq<u8> {
    seq![80u8, 79u8, 83u8, 84u8]
}

/// Bytes of `CONNECT`.
pub open spec fn connect_method() -> Seq<u8> {
    seq![67u8, 79u8, 78u8, 78u8, 69u8, 67u8, 84u8]
}

/// The fixed response sent to a blacklisted client IP:
/// `HTTP/1.1 403 Forbidden` with its one-line body.
pub open spec fn forbidden_body() -> Seq<u8> {
    seq![72u8, 84u8, 84u8, 80u8, 47u8, 49u8, 46u8, 49u8, 32u8, 52u8, 48u8, 51u8, 32u8, 70u8,
        111u8, 114u8, 98u8, 105u8, 100u8, 100u8, 101u8, 110u8, 13u8, 10u8, 13u8, 10u8, 60u8,
        104u8, 49u8, 62u8, 52u8, 48u8, 51u8, 32u8, 70u8, 111u8, 114u8, 98u8, 105u8, 100u8, 100u8,
        101u8, 110u8, 60u8, 47u8, 104u8, 49u8, 62u8, 32u8, 89u8, 111u8, 117u8, 32u8, 99u8, 97u8,
        110u8, 39u8, 116u8, 32u8, 117u8, 115u8, 101u8, 32u8, 116u8, 104u8, 105u8, 115u8, 32u8,
        112u8, 114u8, 111u8, 120u8, 121u8, 33u8]
}

/// The fixed response sent for a blacklisted destination host:
/// `HTTP/1.1 451 Unavailable For Legal Reasons` with its one-line body.
pub open spec fn legal_body() -> Seq<u8> {
    seq![72u8, 84u8, 84u8, 80u8, 47u8, 49u8, 46u8, 49u8, 32u8, 52u8, 53u8, 49u8, 32u8, 85u8,
        110u8, 97u8, 118u8, 97u8, 105u8, 108u8, 97u8, 98u8, 108u8, 101u8, 32u8, 70u8, 111u8,
        114u8, 32u8, 76u8, 101u8, 103u8, 97u8, 108u8, 32u8, 82u8, 101u8, 97u8, 115u8, 111u8,
        110u8, 115u8, 13u8, 10u8, 13u8, 10u8, 60u8, 104u8, 49u8, 62u8, 52u8, 53u8, 49u8, 32u8,
        85u8, 110u8, 97u8, 118u8, 97u8, 105u8, 108u8, 97u8, 98u8, 108u8, 101u8, 32u8, 70u8,
        111u8, 114u8, 32u8, 76u8, 101u8, 103u8, 97u8, 108u8, 32u8, 82u8, 101u8, 97u8, 115u8,
        111u8, 110u8, 115u8, 60u8, 47u8, 104u8, 49u8, 62u8]
}

/// Why a connection is dropped as failed.
#[derive(Clone, Copy, Debug, PartialEq, Eq, Structural)]
pub enum RelayError {
    /// The request buffer did not parse.
    Parse(ParseError),
    /// The method is neither `GET` nor `POST` (and not `CONNECT`, which
    /// closes quietly instead).
    UnsupportedMethod,
}

/// What the relay does with one request buffer.
pub enum RequestAction {
    /// Close the connection without sending anything.
    CloseQuietly,
    /// Send exactly these bytes to the client, then close.
    Respond(Vec<u8>),
    /// Drop the connection and report the error; nothing is sent.
    Fail(RelayError),
    /// Connect to this host on port 80, send these bytes, then relay the
    /// origin's response back to the client.
    Forward(Vec<u8>, Vec<u8>),
}

/// Mathematical view of a `RequestAction`.
pub ghost enum ActionModel {
    CloseQuietly,
    Respond(Seq<u8>),
    Fail(RelayError),
    Forward(Seq<u8>, Seq<u8>),
}

/// The view of a `RequestAction`.
pub open spec fn action_view(a: RequestAction) -> ActionModel {
    match a {
        RequestAction::CloseQuietly => ActionModel::CloseQuietly,
        RequestAction::Respond(b) => ActionModel::Respond(b@),
        RequestAction::Fail(e) => ActionModel::Fail(e),
        RequestAction::Forward(h, w) => ActionModel::Forward(h@, w@),
    }
}

/// `q` repointed at host `to`: the path rewritten to absolute form, the
/// distinguished host replaced, and the value of every header keyed `Host`
/// replaced; everything else unchanged.
pub open spec fn rewritten(q: RequestModel, to: Seq<u8>) -> RequestModel {
    RequestModel {
        method: q.method,
        path: rewrite_path(q.path, to),
        version: q.version,
        headers: Seq::new(
            q.headers.len(),
            |i: int|
                HeaderModel {
                    key: q.headers[i].key,
                    colon: q.headers[i].colon,
                    value: if q.headers[i].key == host_key() {
                        to
                    } else {
                        q.headers[i].value
                    },
                },
        ),
        host: to,
        body: q.body,
    }
}

/// `q` after the redirect table: rewritten for the first matching rule, or
/// unchanged when no rule matches.
pub open spec fn apply_redirect(q: RequestModel, rules: Seq<RedirectModel>) -> RequestModel {
    match first_redirect(rules, q.host) {
        Some(to) => rewritten(q, to),
        None => q,
    }
}

/// The relay's decision for one request buffer, given the website blacklist
/// and the redirect table. Fewer than 16 bytes — shorter than the shortest
/// viable request line — is how an idle keep-alive connection ends, and
/// closes quietly. A buffer that does not parse fails the connection.
/// `CONNECT` closes quietly (tunnelling is unsupported, not an error); any
/// method other than `GET` or `POST` fails the connection. A blacklisted
/// host draws exactly the fixed refusal response. Otherwise the request,
/// redirected if a rule matches, is forwarded in wire form to its host.
pub open spec fn request_decision(
    buf: Seq<u8>,
    websites: Seq<Seq<u8>>,
    rules: Seq<RedirectModel>,
) -> ActionModel {
    if buf.len() < 16 {
        ActionModel::CloseQuietly
    } else {
        match parse_spec(buf) {
            Err(e) => ActionModel::Fail(RelayError::Parse(e)),
            Ok(q) => if q.method == connect_method() {
                ActionModel::CloseQuietly
            } else if q.method != get_method() && q.method != post_method() {
                ActionModel::Fail(RelayError::UnsupportedMethod)
            } else if in_list(websites, q.host) {
                ActionModel::Respond(legal_body())
            } else {
                ActionModel::Forward(
                    apply_redirect(q, rules).host,
                    wire(apply_redirect(q, rules)),
                )
            },
        }
    }
}

/// The decision taken when a connection is accepted, before anything is
/// read: a blacklisted peer address draws exactly the fixed `403` response
/// and the connection closes; any other peer is served.
pub fn screen_client(peer: &[u8], config: &Config) -> (r: Option<Vec<u8>>)
    ensures
        match r {
            Some(b) => in_list(views(config.filter.ip@), peer@) && b@ == forbidden_body(),
            None => !in_list(views(config.filter.ip@), peer@),
        },
{
    if list_contains(&config.filter.ip, peer) {
        let body = [
            72u8, 84u8, 84u8, 80u8, 47u8, 49u8, 46u8, 49u8, 32u8, 52u8, 48u8, 51u8, 32u8, 70u8,
            111u8, 114u8, 98u8, 105u8, 100u8, 100u8, 101u8, 110u8, 13u8, 10u8, 13u8, 10u8, 60u8,
            104u8, 49u8, 62u8, 52u8, 48u8, 51u8, 32u8, 70u8, 111u8, 114u8, 98u8, 105u8, 100u8,
            100u8, 101u8, 110u8, 60u8, 47u8, 104u8, 49u8, 62u8, 32u8, 89u8, 111u8, 117u8, 32u8,
            99u8, 97u8, 110u8, 39u8, 116u8, 32u8, 117u8, 115u8, 101u8, 32u8, 116u8, 104u8, 105u8,
            115u8, 32u8, 112u8, 114u8, 111u8, 120u8, 121u8, 33u8,
        ];
        assert(body@ =~= forbidden_body());
        Some(vstd::slice::slice_to_vec(body.as_slice()))
    } else {
        None
    }
}

/// The relay's decision for one request buffer read from the client,
/// exactly as `request_decision` states it. In particular: a read of fewer
/// than 16 bytes closes quietly, a `CONNECT` closes quietly — in neither
/// case is anything sent — and a blacklisted host draws exactly the fixed
/// refusal response.
pub fn on_request(buf: &[u8], config: &Config) -> (r: RequestAction)
    ensures
        action_view(r) == request_decision(
            buf@,
            views(config.filter.website@),
            redirect_views(config.redirect@),
        ),
        buf@.len() < 16 ==> r is CloseQuietly,
        (parse_spec(buf@) matches Ok(q) && q.method == connect_method()) ==> r is CloseQuietly,
        (parse_spec(buf@) matches Ok(q) && buf@.len() >= 16 && (q.method == get_method()
            || q.method == post_method()) && in_list(views(config.filter.website@), q.host))
            ==> (r matches RequestAction::Respond(b) && b@ == legal_body()),
{
    if buf.len() < 16 {
        return RequestAction::CloseQuietly;
    }
    let mut q = match Request::parse(buf) {
        Err(e) => {
            return RequestAction::Fail(RelayError::Parse(e));
        },
        Ok(q) => q,
    };
    let ghost q0 = q@;
    let connect_pat = [67u8, 79u8, 78u8, 78u8, 69u8, 67u8, 84u8];
    let get_pat = [71u8, 69u8, 84u8];
    let post_pat = [80u8, 79u8, 83u8, 84u8];
    assert(connect_pat@ =~= connect_method());
    assert(get_pat@ =~= get_method());
    assert(post_pat@ =~= post_method());
    if crate::bytes::bytes_eq(q.method.as_slice(), connect_pat.as_slice()) {
        return RequestAction::CloseQuietly;
    }
    if !crate::bytes::bytes_eq(q.method.as_slice(), get_pat.as_slice())
        && !crate::bytes::bytes_eq(q.method.as_slice(), post_pat.as_slice()) {
        return RequestAction::Fail(RelayError::UnsupportedMethod);
    }
    if list_contains(&config.filter.website, q.host.as_slice()) {
        let body = [
            72u8, 84u8, 84u8, 80u8, 47u8, 49u8, 46u8, 49u8, 32u8, 52u8, 53u8, 49u8, 32u8, 85u8,
            110u8, 97u8, 118u8, 97u8, 105u8, 108u8, 97u8, 98u8, 108u8, 101u8, 32u8, 70u8, 111u8,
            114u8, 32u8, 76u8, 101u8, 103u8, 97u8, 108u8, 32u8, 82u8, 101u8, 97u8, 115u8, 111u8,
            110u8, 115u8, 13u8, 10u8, 13u8, 10u8, 60u8, 104u8, 49u8, 62u8, 52u8, 53u8, 49u8, 32u8,
            85u8, 110u8, 97u8, 118u8, 97u8, 105u8, 108u8, 97u8, 98u8, 108u8, 101u8, 32u8, 70u8,
            111u8, 114u8, 32u8, 76u8, 101u8, 103u8, 97u8, 108u8, 32u8, 82u8, 101u8, 97u8, 115u8,
            111u8, 110u8, 115u8, 60u8, 47u8, 104u8, 49u8, 62u8,
        ];
        assert(body@ =~= legal_body());
        return RequestAction::Respond(vstd::slice::slice_to_vec(body.as_slice()));
    }
    match find_redirect(&config.redirect, q.host.as_slice()) {
        Some(to) => {
            q.modify_host(to.as_slice());
            proof {
                assert(q@.headers =~= rewritten(q0, to@).headers);
                assert(q@ == rewritten(q0, to@));
            }
        },
        None => {},
    }
    let mut out: Vec<u8> = Vec::new();
    q.write(&mut out);
    assert(out@ =~= wire(apply_redirect(q0, redirect_views(config.redirect@))));
    let host = q.host;
    RequestAction::Forward(host, out)
}

} // verus!
