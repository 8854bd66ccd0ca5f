//! The HTTP request parser and serializer.
//!
//! A request arrives as one raw byte buffer. Parsing splits it into a header
//! block and a body at the first blank line, cuts the header block into
//! lines, reads method, path and version from the first line, and turns each
//! remaining line into a key/value header. The whole parse is specified by
//! `parse_spec`, a mathematical function from the buffer's bytes to either a
//! request model or a parse error; `Request::parse` is proved to return
//! exactly that.
//!
//! Every field of a parsed request is an owned copy of the buffer's bytes
//! rather than a borrowed view into it, so the contracts need not track the
//! buffer's lifetime; the bytes themselves are identical either way.

use vstd::prelude::*;

use crate::bytes::{
    bytes_eq, check_utf8, find, find_at, split, split_by, split_sp, split_tokens, trim,
    trim_spaces, trim_ws, trimmed_ws, views,
};

verus! {

/// Bytes of the line break `\r\n`.
pub open spec fn crlf() -> Seq<u8> {
    seq![13u8, 10u8]
}

/// Bytes of the blank line `\r\n\r\n` that separates headers from body.
pub open spec fn crlf2() -> Seq<u8> {
    seq![13u8, 10u8, 13u8, 10u8]
}

/// Bytes of `:`.
pub open spec fn colon_sep() -> Seq<u8> {
    seq![58u8]
}

/// Bytes of `Host`.
pub open spec fn host_key() -> Seq<u8> {
    seq![72u8, 111u8, 115u8, 116u8]
}

/// Bytes of `Upgrade-Insecure-Requests`, the one header the proxy suppresses.
pub open spec fn upgrade_key() -> Seq<u8> {
    seq![85u8, 112u8, 103u8, 114u8, 97u8, 100u8, 101u8, 45u8, 73u8, 110u8, 115u8, 101u8, 99u8,
        117u8, 114u8, 101u8, 45u8, 82u8, 101u8, 113u8, 117u8, 101u8, 115u8, 116u8, 115u8]
}

/// Bytes of a single space.
pub open spec fn sp() -> Seq<u8> {
    seq![32u8]
}

/// Bytes of the scheme prefix `http://`.
pub open spec fn http_prefix() -> Seq<u8> {
    seq![104u8, 116u8, 116u8, 112u8, 58u8, 47u8, 47u8]
}

/// Bytes of `/`.
pub open spec fn slash() -> Seq<u8> {
    seq![47u8]
}

/// Why a buffer failed to parse as an HTTP request.
#[derive(Clone, Copy, Debug, PartialEq, Eq, Structural)]
pub enum ParseError {
    /// The header block is empty: there is no request line at all.
    MissingRequestLine,
    /// The request line is not valid UTF-8.
    FirstLineNotUtf8,
    /// The request line has no second token, so the path is missing.
    MissingPath,
    /// The request line has no third token, so the version is missing.
    MissingVersion,
    /// A header line has no `:` separating key from value.
    HeaderMissingColon,
    /// A header key is not valid UTF-8.
    HeaderKeyNotUtf8,
    /// No `Host` header is present.
    MissingHost,
}

/// One parsed header line: the trimmed key, the separator bytes between key
/// and value (always `:`), and the value with leading spaces stripped but
/// otherwise verbatim. The value is raw bytes; it need not be UTF-8.
#[derive(Debug)]
pub struct Header {
    pub key: Vec<u8>,
    pub colon: Vec<u8>,
    pub value: Vec<u8>,
}

/// Mathematical view of a `Header`.
pub ghost struct HeaderModel {
    pub key: Seq<u8>,
    pub colon: Seq<u8>,
    pub value: Seq<u8>,
}

impl View for Header {
    type V = HeaderModel;

    open spec fn view(&self) -> HeaderModel {
        HeaderModel { key: self.key@, colon: self.colon@, value: self.value@ }
    }
}

/// A parsed request: method, path and version from the request line, the
/// headers in wire order minus the suppressed one, the value of the last
/// `Host` header trimmed of surrounding whitespace, and the raw body.
#[derive(Debug)]
pub struct Request {
    pub method: Vec<u8>,
    pub path: Vec<u8>,
    pub version: Vec<u8>,
    pub headers: Vec<Header>,
    pub host: Vec<u8>,
    pub body: Vec<u8>,
}

/// Mathematical view of a `Request`.
pub ghost struct RequestModel {
    pub method: Seq<u8>,
    pub path: Seq<u8>,
    pub version: Seq<u8>,
    pub headers: Seq<HeaderModel>,
    pub host: Seq<u8>,
    pub body: Seq<u8>,
}

impl View for Request {
    type V = RequestModel;

    open spec fn view(&self) -> RequestModel {
        RequestModel {
            method: self.method@,
            path: self.path@,
            version: self.version@,
            headers: self.headers@.map_values(|h: Header| h@),
            host: self.host@,
            body: self.body@,
        }
    }
}

/// The header block: everything before the first blank line, or the whole
/// buffer when there is none.
pub open spec fn header_block(buf: Seq<u8>) -> Seq<u8> {
    match find_at(buf, crlf2()) {
        Some(i) => if 0 <= i <= buf.len() {
            buf.take(i)
        } else {
            buf
        },
        None => buf,
    }
}

/// The body: everything after the first blank line, or empty when there is
/// none.
pub open spec fn body_of(buf: Seq<u8>) -> Seq<u8> {
    match find_at(buf, crlf2()) {
        Some(i) => if 0 <= i && i + 4 <= buf.len() {
            buf.skip(i + 4)
        } else {
            Seq::empty()
        },
        None => Seq::empty(),
    }
}

/// Headers and `Host` value contributed by `lines[k ..]`, processed in
/// order. Each line must contain a `:`; the key is the text before it,
/// trimmed, and must be UTF-8; the value keeps its bytes with leading
/// spaces stripped. A line keyed `Host` also reports its value, trimmed on
/// both sides, and the last such line wins. Lines keyed
/// `Upgrade-Insecure-Requests` are dropped from the header list.
pub open spec fn parse_headers_from(lines: Seq<Seq<u8>>, k: int) -> Result<
    (Seq<HeaderModel>, Option<Seq<u8>>),
    ParseError,
>
    decreases lines.len() - k,
{
    if k < 0 || k >= lines.len() {
        Ok((Seq::empty(), None))
    } else {
        let line = lines[k];
        match find_at(line, colon_sep()) {
            None => Err(ParseError::HeaderMissingColon),
            Some(ci) => if !(0 <= ci && ci < line.len()) {
                Err(ParseError::HeaderMissingColon)
            } else if !vstd::utf8::valid_utf8(line.take(ci)) {
                Err(ParseError::HeaderKeyNotUtf8)
            } else {
                let key = trimmed_ws(line.take(ci));
                let this_host: Option<Seq<u8>> = if key == host_key() {
                    Some(trimmed_ws(line.skip(ci + 1)))
                } else {
                    None
                };
                match parse_headers_from(lines, k + 1) {
                    Err(e) => Err(e),
                    Ok(p) => {
                        let host: Option<Seq<u8>> = if p.1 is Some {
                            p.1
                        } else {
                            this_host
                        };
                        if key == upgrade_key() {
                            Ok((p.0, host))
                        } else {
                            Ok(
                                (
                                    seq![
                                        HeaderModel {
                                            key,
                                            colon: colon_sep(),
                                            value: trim_spaces(line.skip(ci + 1)),
                                        },
                                    ] + p.0,
                                    host,
                                ),
                            )
                        }
                    },
                }
            },
        }
    }
}

/// Assembles the parse result once the request line tokens, the body and
/// the outcome of the header scan are known.
pub open spec fn finish_parse(
    toks: Seq<Seq<u8>>,
    body: Seq<u8>,
    hr: Result<(Seq<HeaderModel>, Option<Seq<u8>>), ParseError>,
) -> Result<RequestModel, ParseError> {
    match hr {
        Err(e) => Err(e),
        Ok(p) => match p.1 {
            None => Err(ParseError::MissingHost),
            Some(h) => Ok(
                RequestModel {
                    method: toks[0],
                    path: toks[1],
                    version: toks[2],
                    headers: p.0,
                    host: h,
                    body,
                },
            ),
        },
    }
}

/// What parsing a raw buffer yields: the request model, or the first error
/// in reading order.
pub open spec fn parse_spec(buf: Seq<u8>) -> Result<RequestModel, ParseError> {
    let lines = split_by(header_block(buf), crlf());
    if lines.len() == 0 {
        Err(ParseError::MissingRequestLine)
    } else if !vstd::utf8::valid_utf8(lines[0]) {
        Err(ParseError::FirstLineNotUtf8)
    } else {
        let toks = split_sp(lines[0]);
        if toks.len() < 2 {
            Err(ParseError::MissingPath)
        } else if toks.len() < 3 {
            Err(ParseError::MissingVersion)
        } else {
            finish_parse(toks, body_of(buf), parse_headers_from(lines, 1))
        }
    }
}

/// The view of a parse result.
pub open spec fn parse_result_view(r: Result<Request, ParseError>) -> Result<
    RequestModel,
    ParseError,
> {
    match r {
        Ok(q) => Ok(q@),
        Err(e) => Err(e),
    }
}

/// The view of an optional byte buffer.
pub open spec fn opt_bytes_view(o: Option<Vec<u8>>) -> Option<Seq<u8>> {
    match o {
        Some(v) => Some(v@),
        None => None,
    }
}

/// Joins headers and host gathered from lines before `k` with the outcome
/// of the scan from `k` on: an error passes through, and a `Host` found
/// later overrides one found earlier.
spec fn combine_headers(
    acc: Seq<HeaderModel>,
    h: Option<Seq<u8>>,
    rest: Result<(Seq<HeaderModel>, Option<Seq<u8>>), ParseError>,
) -> Result<(Seq<HeaderModel>, Option<Seq<u8>>), ParseError> {
    match rest {
        Err(e) => Err(e),
        Ok(p) => Ok((acc + p.0, if p.1 is Some { p.1 } else { h })),
    }
}

impl Request {
    /// Parses one raw request buffer, returning exactly what `parse_spec`
    /// says for these bytes: the structured request, or the first error in
    /// reading order.
    pub fn parse(buf: &[u8]) -> (r: Result<Request, ParseError>)
        ensures
            parse_result_view(r) == parse_spec(buf@),
    {
        let crlf2_pat = [13u8, 10u8, 13u8, 10u8];
        let crlf_pat = [13u8, 10u8];
        let colon_pat = [58u8];
        let host_pat = [72u8, 111u8, 115u8, 116u8];
        let upgrade_pat = [
            85u8, 112u8, 103u8, 114u8, 97u8, 100u8, 101u8, 45u8, 73u8, 110u8, 115u8, 101u8, 99u8,
            117u8, 114u8, 101u8, 45u8, 82u8, 101u8, 113u8, 117u8, 101u8, 115u8, 116u8, 115u8,
        ];
        assert(crlf2_pat@ =~= crlf2());
        assert(crlf_pat@ =~= crlf());
        assert(colon_pat@ =~= colon_sep());
        assert(host_pat@ =~= host_key());
        assert(upgrade_pat@ =~= upgrade_key());
        let n = buf.len();
        let (hb_end, body): (usize, Vec<u8>) = match find(buf, crlf2_pat.as_slice()) {
            Some(i) => {
                proof {
                    crate::bytes::lemma_find_at_bounds(buf@, crlf2());
                }
                (i, vstd::slice::slice_to_vec(vstd::slice::slice_subrange(buf, i + 4, n)))
            },
            None => (n, Vec::new()),
        };
        assert(body@ =~= body_of(buf@));
        let hb = vstd::slice::slice_subrange(buf, 0, hb_end);
        assert(hb@ =~= header_block(buf@));
        let lines = split(hb, crlf_pat.as_slice());
        let ghost lviews = views(lines@);
        if lines.len() == 0 {
            return Err(ParseError::MissingRequestLine);
        }
        let first = lines[0].as_slice();
        assert(first@ == lviews[0]);
        if !check_utf8(first) {
            return Err(ParseError::FirstLineNotUtf8);
        }
        let mut toks = split_tokens(first);
        let ghost tokviews = split_sp(first@);
        if toks.len() < 2 {
            return Err(ParseError::MissingPath);
        }
        if toks.len() < 3 {
            return Err(ParseError::MissingVersion);
        }
        let method = toks.remove(0);
        let path = toks.remove(0);
        let version = toks.remove(0);
        assert(method@ == tokviews[0] && path@ == tokviews[1] && version@ == tokviews[2]);
        let ghost bodyv = body_of(buf@);
        assert(parse_spec(buf@) == finish_parse(tokviews, bodyv, parse_headers_from(lviews, 1)));

        let mut headers: Vec<Header> = Vec::new();
        let mut host: Option<Vec<u8>> = None;
        let mut k: usize = 1;
        proof {
            assert(headers@.map_values(|h: Header| h@) =~= Seq::<HeaderModel>::empty());
            match parse_headers_from(lviews, 1) {
                Err(e) => {},
                Ok(p) => {
                    assert(Seq::<HeaderModel>::empty() + p.0 =~= p.0);
                },
            }
        }
        let nlines = lines.len();
        while k < nlines
            invariant
                1 <= k <= lviews.len(),
                nlines == lines@.len(),
                lviews == views(lines@),
                colon_pat@ == colon_sep(),
                host_pat@ == host_key(),
                upgrade_pat@ == upgrade_key(),
                parse_spec(buf@) == finish_parse(tokviews, bodyv, parse_headers_from(lviews, 1)),
                combine_headers(
                    headers@.map_values(|h: Header| h@),
                    opt_bytes_view(host),
                    parse_headers_from(lviews, k as int),
                ) == parse_headers_from(lviews, 1),
            decreases nlines - k,
        {
            let line = lines[k].as_slice();
            assert(line@ == lviews[k as int]);
            let ghost acc_old = headers@.map_values(|h: Header| h@);
            let ghost host_old = opt_bytes_view(host);
            let m = line.len();
            match find(line, colon_pat.as_slice()) {
                None => {
                    proof {
                        assert(parse_headers_from(lviews, k as int) == Err::<
                            (Seq<HeaderModel>, Option<Seq<u8>>),
                            ParseError,
                        >(ParseError::HeaderMissingColon));
                    }
                    return Err(ParseError::HeaderMissingColon);
                },
                Some(ci) => {
                    proof {
                        crate::bytes::lemma_find_at_bounds(line@, colon_sep());
                    }
                    let rawkey = vstd::slice::slice_subrange(line, 0, ci);
                    assert(rawkey@ =~= line@.take(ci as int));
                    if !check_utf8(rawkey) {
                        proof {
                            assert(parse_headers_from(lviews, k as int) == Err::<
                                (Seq<HeaderModel>, Option<Seq<u8>>),
                                ParseError,
                            >(ParseError::HeaderKeyNotUtf8));
                        }
                        return Err(ParseError::HeaderKeyNotUtf8);
                    }
                    let keyv = trim_ws(rawkey);
                    let rest_slice = vstd::slice::slice_subrange(line, ci + 1, m);
                    assert(rest_slice@ =~= line@.skip(ci + 1));
                    let is_host = bytes_eq(keyv.as_slice(), host_pat.as_slice());
                    let is_upg = bytes_eq(keyv.as_slice(), upgrade_pat.as_slice());
                    let ghost this_host: Option<Seq<u8>> = if keyv@ == host_key() {
                        Some(trimmed_ws(line@.skip(ci + 1)))
                    } else {
                        None
                    };
                    if is_host {
                        let hv = trim_ws(rest_slice);
                        host = Some(hv);
                    }
                    let ghost hm = HeaderModel {
                        key: keyv@,
                        colon: colon_sep(),
                        value: trim_spaces(line@.skip(ci + 1)),
                    };
                    if !is_upg {
                        let val = trim(rest_slice);
                        let mut colon_v: Vec<u8> = Vec::new();
                        colon_v.push(58u8);
                        assert(colon_v@ =~= colon_sep());
                        let ghost headers_old = headers@;
                        headers.push(Header { key: keyv, colon: colon_v, value: val });
                        assert(headers@.map_values(|h: Header| h@) =~= acc_old + seq![hm]);
                    }
                    proof {
                        let rest = parse_headers_from(lviews, k + 1);
                        let acc_new = headers@.map_values(|h: Header| h@);
                        let host_new = opt_bytes_view(host);
                        match rest {
                            Err(e) => {},
                            Ok(p) => {
                                if keyv@ == upgrade_key() {
                                    assert(acc_new == acc_old);
                                } else {
                                    assert(acc_new + p.0 =~= acc_old + (seq![hm] + p.0));
                                }
                            },
                        }
                        assert(combine_headers(
                            acc_new,
                            host_new,
                            parse_headers_from(lviews, k + 1),
                        ) == combine_headers(
                            acc_old,
                            host_old,
                            parse_headers_from(lviews, k as int),
                        ));
                    }
                    k = k + 1;
                },
            }
        }
        proof {
            let acc = headers@.map_values(|h: Header| h@);
            assert(parse_headers_from(lviews, k as int) == Ok::<
                (Seq<HeaderModel>, Option<Seq<u8>>),
                ParseError,
            >((Seq::<HeaderModel>::empty(), None::<Seq<u8>>)));
            assert(acc + Seq::<HeaderModel>::empty() =~= acc);
            assert(parse_headers_from(lviews, 1) == Ok::<
                (Seq<HeaderModel>, Option<Seq<u8>>),
                ParseError,
            >((acc, opt_bytes_view(host))));
        }
        match host {
            None => Err(ParseError::MissingHost),
            Some(h) => {
                let req = Request { method, path, version, headers, host: h, body };
                Ok(req)
            },
        }
    }
}

/// Wire form of one header line: key, separator, one space, value, `\r\n`.
pub open spec fn wire_header(h: HeaderModel) -> Seq<u8> {
    h.key + h.colon + sp() + h.value + crlf()
}

/// Wire form of a header list, in order.
pub open spec fn wire_headers(hs: Seq<HeaderModel>) -> Seq<u8>
    decreases hs.len(),
{
    if hs.len() == 0 {
        Seq::empty()
    } else {
        wire_header(hs[0]) + wire_headers(hs.skip(1))
    }
}

/// Wire form of a whole request: the request line, each header line, a
/// blank line, and the body followed by `\r\n` only when it is non-empty.
pub open spec fn wire(r: RequestModel) -> Seq<u8> {
    r.method + sp() + r.path + sp() + r.version + crlf() + wire_headers(r.headers) + crlf() + (
    if r.body.len() > 0 {
        r.body + crlf()
    } else {
        Seq::empty()
    })
}

/// Serializing a concatenation of header lists serializes each in turn.
pub proof fn lemma_wire_headers_concat(a: Seq<HeaderModel>, b: Seq<HeaderModel>)
    ensures
        wire_headers(a + b) == wire_headers(a) + wire_headers(b),
    decreases a.len(),
{
    if a.len() == 0 {
        assert(a + b =~= b);
        assert(Seq::<u8>::empty() + wire_headers(b) =~= wire_headers(b));
    } else {
        lemma_wire_headers_concat(a.skip(1), b);
        assert((a + b).skip(1) =~= a.skip(1) + b);
        assert((a + b)[0] == a[0]);
        assert(wire_header(a[0]) + (wire_headers(a.skip(1)) + wire_headers(b)) =~= (wire_header(
            a[0],
        ) + wire_headers(a.skip(1))) + wire_headers(b));
    }
}

/// The rewritten request path for a new host: `http://<host>/<suffix>`,
/// where `<suffix>` is everything after the first `/` that follows the
/// 7-byte scheme prefix of the old path, or empty when no such `/` exists
/// (in particular when the old path is not in absolute form at all).
pub open spec fn rewrite_path(path: Seq<u8>, h: Seq<u8>) -> Seq<u8> {
    let tail = if path.len() >= 7 {
        path.skip(7)
    } else {
        Seq::empty()
    };
    match find_at(tail, slash()) {
        Some(i) => if 0 <= i && i < tail.len() {
            http_prefix() + h + slash() + tail.skip(i + 1)
        } else {
            http_prefix() + h + slash()
        },
        None => http_prefix() + h + slash(),
    }
}

/// Appends all of `b` to `out`.
fn append_bytes(out: &mut Vec<u8>, b: &[u8])
    ensures
        final(out)@ == old(out)@ + b@,
{
    let n = b.len();
    let mut i: usize = 0;
    assert(out@ =~= old(out)@ + b@.take(0));
    while i < n
        invariant
            0 <= i <= n,
            n == b@.len(),
            out@ == old(out)@ + b@.take(i as int),
        decreases n - i,
    {
        out.push(b[i]);
        assert(out@ =~= old(out)@ + b@.take(i + 1));
        i = i + 1;
    }
    assert(b@.take(n as int) =~= b@);
}

impl Request {
    /// Appends the request's wire form to `out`: the request line, each
    /// header with a single space after its separator, a blank line, and
    /// the body with a trailing `\r\n` only when the body is non-empty.
    pub fn write(&self, out: &mut Vec<u8>)
        ensures
            final(out)@ == old(out)@ + wire(self@),
    {
        let sp_pat = [32u8];
        let crlf_pat = [13u8, 10u8];
        assert(sp_pat@ =~= sp());
        assert(crlf_pat@ =~= crlf());
        append_bytes(out, self.method.as_slice());
        append_bytes(out, sp_pat.as_slice());
        append_bytes(out, self.path.as_slice());
        append_bytes(out, sp_pat.as_slice());
        append_bytes(out, self.version.as_slice());
        append_bytes(out, crlf_pat.as_slice());
        let ghost base = out@;
        let ghost hviews = self@.headers;
        let nh = self.headers.len();
        let mut i: usize = 0;
        proof {
            assert(wire_headers(hviews.take(0)) =~= Seq::<u8>::empty());
            assert(base + Seq::<u8>::empty() =~= base);
        }
        while i < nh
            invariant
                0 <= i <= nh,
                nh == self.headers@.len(),
                hviews == self@.headers,
                sp_pat@ == sp(),
                crlf_pat@ == crlf(),
                out@ == base + wire_headers(hviews.take(i as int)),
            decreases nh - i,
        {
            let h = &self.headers[i];
            assert(h@ == hviews[i as int]);
            append_bytes(out, h.key.as_slice());
            append_bytes(out, h.colon.as_slice());
            append_bytes(out, sp_pat.as_slice());
            append_bytes(out, h.value.as_slice());
            append_bytes(out, crlf_pat.as_slice());
            proof {
                assert(hviews.take(i + 1) =~= hviews.take(i as int) + seq![hviews[i as int]]);
                lemma_wire_headers_concat(hviews.take(i as int), seq![hviews[i as int]]);
                assert(seq![hviews[i as int]].skip(1) =~= Seq::<HeaderModel>::empty());
                assert(wire_headers(Seq::<HeaderModel>::empty()) == Seq::<u8>::empty());
                assert(wire_header(hviews[i as int]) + Seq::<u8>::empty() =~= wire_header(
                    hviews[i as int],
                ));
                assert(wire_headers(seq![hviews[i as int]]) =~= wire_header(hviews[i as int]));
                assert(out@ =~= base + wire_headers(hviews.take(i + 1)));
            }
            i = i + 1;
        }
        proof {
            assert(hviews.take(nh as int) =~= hviews);
        }
        append_bytes(out, crlf_pat.as_slice());
        if self.body.len() > 0 {
            append_bytes(out, self.body.as_slice());
            append_bytes(out, crlf_pat.as_slice());
        }
        proof {
            assert(out@ =~= old(out)@ + wire(self@));
        }
    }

    /// Repoints the request at `new_host`: the path becomes the rewritten
    /// absolute form for the new host, the distinguished host becomes
    /// `new_host`, and the value of every header keyed `Host` is replaced
    /// by `new_host`. Everything else is unchanged.
    pub fn modify_host(&mut self, new_host: &[u8])
        ensures
            final(self)@.method == old(self)@.method,
            final(self)@.version == old(self)@.version,
            final(self)@.body == old(self)@.body,
            final(self)@.path == rewrite_path(old(self)@.path, new_host@),
            final(self)@.host == new_host@,
            final(self)@.headers.len() == old(self)@.headers.len(),
            forall|i: int|
                0 <= i < old(self)@.headers.len() ==> (#[trigger] final(self)@.headers[i]).key
                    == old(self)@.headers[i].key && final(self)@.headers[i].colon == old(
                    self,
                )@.headers[i].colon && final(self)@.headers[i].value == (if old(
                    self,
                )@.headers[i].key == host_key() {
                    new_host@
                } else {
                    old(self)@.headers[i].value
                }),
    {
        let host_pat = [72u8, 111u8, 115u8, 116u8];
        let slash_pat = [47u8];
        assert(host_pat@ =~= host_key());
        assert(slash_pat@ =~= slash());
        let prefix = [104u8, 116u8, 116u8, 112u8, 58u8, 47u8, 47u8];
        assert(prefix@ =~= http_prefix());
        let mut newpath: Vec<u8> = Vec::new();
        append_bytes(&mut newpath, prefix.as_slice());
        append_bytes(&mut newpath, new_host);
        append_bytes(&mut newpath, slash_pat.as_slice());
        assert(newpath@ =~= http_prefix() + new_host@ + slash());
        let plen = self.path.len();
        if plen >= 7 {
            let tail = vstd::slice::slice_subrange(self.path.as_slice(), 7, plen);
            assert(tail@ =~= self.path@.skip(7));
            match find(tail, slash_pat.as_slice()) {
                Some(i) => {
                    proof {
                        crate::bytes::lemma_find_at_bounds(tail@, slash());
                    }
                    append_bytes(&mut newpath, vstd::slice::slice_subrange(tail, i + 1, tail.len()));
                    assert(newpath@ =~= http_prefix() + new_host@ + slash() + tail@.skip(i + 1));
                },
                None => {},
            }
        } else {
            proof {
                let tail = Seq::<u8>::empty();
                crate::bytes::lemma_find_at_bounds(tail, slash());
                crate::bytes::lemma_find_at_spec(tail, slash());
                match find_at(tail, slash()) {
                    Some(j) => {
                        assert(crate::bytes::matches_at(tail, slash(), j));
                        assert(false);
                    },
                    None => {},
                }
            }
        }
        self.path = newpath;
        self.host = vstd::slice::slice_to_vec(new_host);
        let ghost orig = old(self)@.headers;
        let ghost kept_method = self.method@;
        let ghost kept_version = self.version@;
        let ghost kept_body = self.body@;
        let ghost kept_path = self.path@;
        let ghost kept_host = self.host@;
        let mut done: Vec<Header> = Vec::new();
        proof {
            assert(done@.map_values(|h: Header| h@) =~= Seq::<HeaderModel>::empty());
            assert(self.headers@.map_values(|h: Header| h@) =~= orig);
        }
        while self.headers.len() > 0
            invariant
                host_pat@ == host_key(),
                self.method@ == kept_method,
                self.version@ == kept_version,
                self.body@ == kept_body,
                self.path@ == kept_path,
                self.host@ == kept_host,
                done@.len() + self.headers@.len() == orig.len(),
                self.headers@.map_values(|h: Header| h@) =~= orig.skip(done@.len() as int),
                forall|i: int|
                    0 <= i < done@.len() ==> (#[trigger] done@[i])@.key == orig[i].key && done@[
                        i
                    ]@.colon == orig[i].colon && done@[i]@.value == (if orig[i].key == host_key() {
                        new_host@
                    } else {
                        orig[i].value
                    }),
            decreases self.headers@.len(),
        {
            let ghost j = done@.len() as int;
            let ghost before = self.headers@;
            let hd = self.headers.remove(0);
            assert(hd@ == orig[j]) by {
                assert(before.map_values(|h: Header| h@)[0] == before[0]@);
                assert(orig.skip(j)[0] == orig[j]);
            }
            proof {
                assert(self.headers@ =~= before.skip(1));
                assert forall|x: int| 0 <= x < self.headers@.len() implies self.headers@.map_values(
                    |h: Header| h@,
                )[x] == (#[trigger] orig.skip(j + 1)[x]) by {
                    assert(self.headers@.map_values(|h: Header| h@)[x] == self.headers@[x]@);
                    assert(before.skip(1)[x] == before[x + 1]);
                    assert(before.map_values(|h: Header| h@)[x + 1] == before[x + 1]@);
                    assert(orig.skip(j)[x + 1] == orig[j + 1 + x]);
                    assert(orig.skip(j + 1)[x] == orig[j + 1 + x]);
                }
                assert(self.headers@.map_values(|h: Header| h@) =~= orig.skip(j + 1));
            }
            let is_h = bytes_eq(hd.key.as_slice(), host_pat.as_slice());
            let nv: Vec<u8> = if is_h {
                vstd::slice::slice_to_vec(new_host)
            } else {
                hd.value
            };
            let ghost done_old = done@;
            done.push(Header { key: hd.key, colon: hd.colon, value: nv });
            assert(done@.map_values(|h: Header| h@) =~= done_old.map_values(|h: Header| h@)
                + seq![
                HeaderModel {
                    key: orig[j].key,
                    colon: orig[j].colon,
                    value: if orig[j].key == host_key() {
                        new_host@
                    } else {
                        orig[j].value
                    },
                },
            ]);
        }
        self.headers = done;
    }
}

} // verus!
