//! The laws the parser obeys, stated and proved over the same spec
//! functions the contracts use: well-formedness of every parsed request,
//! the round trip from parsing to serialization and back, and the
//! preservation of header order.

use vstd::prelude::*;

use crate::bytes::{
    contains_sub, find_at, is_ws, lemma_ascii_singleton_utf8, lemma_contains_sub_subrange,
    lemma_find_at_is, lemma_find_at_spec, lemma_matches_at_single, lemma_split_by_pieces,
    lemma_split_sp_pieces, lemma_split_sp_utf8, lemma_trim_spaces_no_leading,
    lemma_trim_spaces_suffix, lemma_trim_ws_end_prefix, lemma_trim_ws_start_suffix,
    lemma_trimmed_ws_of_trimmed, lemma_trimmed_ws_trim_spaces, lemma_trimmed_ws_trimmed,
    lemma_trimmed_ws_utf8, matches_at, split_by, split_sp, trim_spaces, trim_ws_end,
    trim_ws_start, trimmed_ws, ws_trimmed,
};
use crate::http::{
    body_of, colon_sep, crlf, crlf2, finish_parse, header_block, host_key, parse_headers_from,
    parse_spec, sp, upgrade_key, wire, wire_header, wire_headers, HeaderModel, ParseError,
    RequestModel,
};

verus! {

/// A two-byte pattern occurs in a concatenation exactly where it occurs in
/// a part or straddles the boundary.
pub proof fn lemma_contains2_concat(a: Seq<u8>, b: Seq<u8>, q: Seq<u8>)
    requires
        q.len() == 2,
    ensures
        contains_sub(a + b, q) <==> (contains_sub(a, q) || contains_sub(b, q) || (a.len() >= 1
            && b.len() >= 1 && a.last() == q[0] && b[0] == q[1])),
{
    let s = a + b;
    if contains_sub(s, q) {
        let t = choose|t: int| matches_at(s, q, t);
        assert(s.subrange(t, t + 2)[0] == s[t]);
        assert(s.subrange(t, t + 2)[1] == s[t + 1]);
        if t + 2 <= a.len() {
            assert(a.subrange(t, t + 2) =~= s.subrange(t, t + 2));
            assert(matches_at(a, q, t));
        } else if t >= a.len() {
            let u = t - a.len();
            assert(b.subrange(u, u + 2) =~= s.subrange(t, t + 2));
            assert(matches_at(b, q, u));
        } else {
            assert(t == a.len() - 1);
            assert(a.last() == s[t] == q[0]);
            assert(b[0] == s[t + 1] == q[1]);
        }
    }
    if contains_sub(a, q) {
        let t = choose|t: int| matches_at(a, q, t);
        assert(s.subrange(t, t + 2) =~= a.subrange(t, t + 2));
        assert(matches_at(s, q, t));
    }
    if contains_sub(b, q) {
        let u = choose|u: int| matches_at(b, q, u);
        let t = a.len() + u;
        assert(s.subrange(t, t + 2) =~= b.subrange(u, u + 2));
        assert(matches_at(s, q, t));
    }
    if a.len() >= 1 && b.len() >= 1 && a.last() == q[0] && b[0] == q[1] {
        let t = a.len() - 1;
        assert(s.subrange(t, t + 2) =~= q);
        assert(matches_at(s, q, t));
    }
}

/// Splitting `line + \r\n + rest` on line breaks yields `line` and then the
/// pieces of `rest`, provided `line` holds no line break itself.
pub proof fn lemma_split_by_cons(line: Seq<u8>, rest: Seq<u8>)
    requires
        !contains_sub(line, crlf()),
    ensures
        split_by(line + crlf() + rest, crlf()) == seq![line] + split_by(rest, crlf()),
{
    let s = line + crlf() + rest;
    let l = line.len() as int;
    assert(s.subrange(l, l + 2) =~= crlf());
    assert(matches_at(s, crlf(), l));
    assert forall|j: int| 0 <= j < l implies !matches_at(s, crlf(), j) by {
        if matches_at(s, crlf(), j) {
            if j + 2 <= l {
                assert(line.subrange(j, j + 2) =~= s.subrange(j, j + 2));
                assert(matches_at(line, crlf(), j));
            } else {
                assert(j == l - 1);
                assert(s.subrange(j, j + 2)[1] == s[j + 1]);
                assert(s[j + 1] == 13);
            }
        }
    }
    lemma_find_at_is(s, crlf(), l);
    assert(s.take(l) =~= line);
    assert(s.skip(l + 2) =~= rest);
    assert(split_by(s, crlf()) == seq![line] + split_by(rest, crlf()));
}

/// A non-empty buffer without a line break is a single piece.
pub proof fn lemma_split_by_single(line: Seq<u8>)
    requires
        !contains_sub(line, crlf()),
        line.len() > 0,
    ensures
        split_by(line, crlf()) == seq![line],
{
    lemma_find_at_spec(line, crlf());
    match find_at(line, crlf()) {
        Some(i) => {
            assert(matches_at(line, crlf(), i));
        },
        None => {},
    }
}

/// Splitting `t + space + rest` on spaces yields `t` and then the pieces
/// of `rest`, provided `t` holds no space itself.
pub proof fn lemma_split_sp_cons(t: Seq<u8>, rest: Seq<u8>)
    requires
        !contains_sub(t, sp()),
    ensures
        split_sp(t + sp() + rest) == seq![t] + split_sp(rest),
{
    let s = t + sp() + rest;
    let l = t.len() as int;
    assert(s.subrange(l, l + 1) =~= sp());
    assert(matches_at(s, sp(), l));
    assert forall|j: int| 0 <= j < l implies !matches_at(s, sp(), j) by {
        if matches_at(s, sp(), j) {
            assert(t.subrange(j, j + 1) =~= s.subrange(j, j + 1));
            assert(matches_at(t, sp(), j));
        }
    }
    lemma_find_at_is(s, sp(), l);
    assert(s.take(l) =~= t);
    assert(s.skip(l + 1) =~= rest);
    assert(split_sp(s) == seq![t] + split_sp(rest));
}

/// A buffer without a space is a single piece.
pub proof fn lemma_split_sp_single(t: Seq<u8>)
    requires
        !contains_sub(t, sp()),
    ensures
        split_sp(t) == seq![t],
{
    lemma_find_at_spec(t, sp());
    match find_at(t, sp()) {
        Some(i) => {
            assert(matches_at(t, sp(), i));
        },
        None => {},
    }
}

/// In `line + \r\n + rest` where `rest` itself begins with `\r\n`, the
/// first blank line starts right after `line`.
pub proof fn lemma_crlf2_seam_hit(line: Seq<u8>, rest: Seq<u8>)
    requires
        !contains_sub(line, crlf()),
        rest.len() >= 2,
        rest[0] == 13,
        rest[1] == 10,
    ensures
        find_at(line + crlf() + rest, crlf2()) == Some(line.len() as int),
{
    let s = line + crlf() + rest;
    let l = line.len() as int;
    assert(s.subrange(l, l + 4) =~= crlf2());
    assert(matches_at(s, crlf2(), l));
    assert forall|j: int| 0 <= j < l implies !matches_at(s, crlf2(), j) by {
        if matches_at(s, crlf2(), j) {
            assert(s.subrange(j, j + 4)[0] == s[j]);
            assert(s.subrange(j, j + 4)[1] == s[j + 1]);
            if j + 2 <= l {
                assert(line.subrange(j, j + 2) =~= crlf());
                assert(matches_at(line, crlf(), j));
            } else {
                assert(j == l - 1);
                assert(s[j + 1] == 13);
            }
        }
    }
    lemma_find_at_is(s, crlf2(), l);
}

/// In `line + \r\n + rest` where `rest` does not begin with `\r\n`, the
/// first blank line is the one in `rest`, shifted past `line + \r\n`.
pub proof fn lemma_crlf2_seam_pass(line: Seq<u8>, rest: Seq<u8>)
    requires
        !contains_sub(line, crlf()),
        !(rest.len() >= 2 && rest[0] == 13 && rest[1] == 10),
    ensures
        find_at(line + crlf() + rest, crlf2()) == match find_at(rest, crlf2()) {
            Some(u) => Some(line.len() + 2 + u),
            None => None,
        },
{
    let s = line + crlf() + rest;
    let l = line.len() as int;
    assert forall|j: int| 0 <= j < l + 2 implies !matches_at(s, crlf2(), j) by {
        if matches_at(s, crlf2(), j) {
            assert(s.subrange(j, j + 4)[0] == s[j]);
            assert(s.subrange(j, j + 4)[1] == s[j + 1]);
            assert(s.subrange(j, j + 4)[2] == s[j + 2]);
            assert(s.subrange(j, j + 4)[3] == s[j + 3]);
            if j + 2 <= l {
                assert(line.subrange(j, j + 2) =~= crlf());
                assert(matches_at(line, crlf(), j));
            } else if j == l - 1 {
                assert(s[j + 1] == 13);
            } else if j == l {
                assert(rest[0] == s[l + 2] && rest[1] == s[l + 3]);
            } else {
                assert(j == l + 1);
                assert(s[j] == 10);
            }
        }
    }
    assert forall|u: int| 0 <= u implies (matches_at(rest, crlf2(), u) == matches_at(
        s,
        crlf2(),
        l + 2 + u,
    )) by {
        if u + 4 <= rest.len() {
            assert(rest.subrange(u, u + 4) =~= s.subrange(l + 2 + u, l + 2 + u + 4));
        }
    }
    lemma_find_at_spec(rest, crlf2());
    match find_at(rest, crlf2()) {
        Some(u) => {
            assert(matches_at(s, crlf2(), l + 2 + u));
            assert forall|j: int| 0 <= j < l + 2 + u implies !matches_at(s, crlf2(), j) by {
                if j >= l + 2 {
                    assert(!matches_at(rest, crlf2(), j - l - 2));
                }
            }
            lemma_find_at_is(s, crlf2(), l + 2 + u);
        },
        None => {
            lemma_find_at_spec(s, crlf2());
            match find_at(s, crlf2()) {
                Some(j) => {
                    assert(matches_at(s, crlf2(), j));
                    assert(j >= l + 2);
                    assert(matches_at(rest, crlf2(), j - l - 2));
                },
                None => {},
            }
        },
    }
}

/// `trimmed_ws` returns a contiguous subrange of its argument.
pub proof fn lemma_trimmed_ws_subrange(s: Seq<u8>)
    ensures
        exists|a: int, b: int|
            0 <= a <= b <= s.len() && trimmed_ws(s) == #[trigger] s.subrange(a, b),
{
    lemma_trim_ws_start_suffix(s);
    let a = choose|a: int| 0 <= a <= s.len() && trim_ws_start(s) == s.skip(a);
    let t1 = trim_ws_start(s);
    lemma_trim_ws_end_prefix(t1);
    let b = choose|b: int| 0 <= b <= t1.len() && trim_ws_end(t1) == t1.take(b);
    assert(t1.take(b) =~= s.subrange(a, a + b));
    assert(trimmed_ws(s) == s.subrange(a, a + b));
}

/// A buffer that holds no occurrence of `q` has no subrange that does.
pub proof fn lemma_no_sub_in_subrange(big: Seq<u8>, q: Seq<u8>, a: int, b: int)
    requires
        !contains_sub(big, q),
        0 <= a <= b <= big.len(),
    ensures
        !contains_sub(big.subrange(a, b), q),
{
    if contains_sub(big.subrange(a, b), q) {
        lemma_contains_sub_subrange(big, q, a, b);
    }
}


/// A request-line token: free of line breaks and spaces, valid UTF-8.
pub open spec fn token_wf(t: Seq<u8>) -> bool {
    &&& !contains_sub(t, crlf())
    &&& !contains_sub(t, sp())
    &&& vstd::utf8::valid_utf8(t)
}

/// What the parser guarantees of every header it returns: the separator is
/// the colon, key and value are free of line breaks, the key holds no
/// colon, is trimmed and is valid UTF-8, the value has no leading space,
/// and the suppressed header never appears.
pub open spec fn header_wf(h: HeaderModel) -> bool {
    &&& h.colon == colon_sep()
    &&& !contains_sub(h.key, crlf())
    &&& !contains_sub(h.value, crlf())
    &&& !contains_sub(h.key, colon_sep())
    &&& ws_trimmed(h.key)
    &&& vstd::utf8::valid_utf8(h.key)
    &&& (h.value.len() > 0 ==> h.value[0] != 32)
    &&& h.key != upgrade_key()
}

/// The host a header list pins down: the value of its last `Host` header,
/// trimmed of surrounding whitespace, or `None` without one.
pub open spec fn host_of_headers(hs: Seq<HeaderModel>) -> Option<Seq<u8>>
    decreases hs.len(),
{
    if hs.len() == 0 {
        None
    } else {
        match host_of_headers(hs.skip(1)) {
            Some(h) => Some(h),
            None => if hs[0].key == host_key() {
                Some(trimmed_ws(hs[0].value))
            } else {
                None
            },
        }
    }
}

/// What holds of every request the parser returns.
pub open spec fn model_wf(r: RequestModel) -> bool {
    &&& token_wf(r.method)
    &&& token_wf(r.path)
    &&& token_wf(r.version)
    &&& forall|i: int| 0 <= i < r.headers.len() ==> header_wf(#[trigger] r.headers[i])
    &&& host_of_headers(r.headers) == Some(r.host)
}

/// The headers gathered from `lines[k ..]` are each well-formed, and the
/// reported host is the one their last `Host` entry pins down.
proof fn lemma_parse_headers_wf(lines: Seq<Seq<u8>>, k: int)
    requires
        forall|j: int| 0 <= j < lines.len() ==> !contains_sub(#[trigger] lines[j], crlf()),
    ensures
        parse_headers_from(lines, k) matches Ok(p) ==> ((forall|i: int|
            0 <= i < p.0.len() ==> header_wf(#[trigger] p.0[i])) && host_of_headers(p.0) == p.1),
    decreases lines.len() - k,
{
    if k < 0 || k >= lines.len() {
    } else {
        lemma_parse_headers_wf(lines, k + 1);
        let line = lines[k];
        lemma_find_at_spec(line, colon_sep());
        match find_at(line, colon_sep()) {
            None => {},
            Some(ci) => {
                assert(matches_at(line, colon_sep(), ci));
                if vstd::utf8::valid_utf8(line.take(ci)) {
                    let rawkey = line.take(ci);
                    let key = trimmed_ws(rawkey);
                    let rawval = line.skip(ci + 1);
                    let value = trim_spaces(rawval);
                    match parse_headers_from(lines, k + 1) {
                        Err(_) => {},
                        Ok(p) => {
                            assert(rawkey =~= line.subrange(0, ci));
                            lemma_no_sub_in_subrange(line, crlf(), 0, ci);
                            lemma_trimmed_ws_subrange(rawkey);
                            let (a, b): (int, int) = choose|a: int, b: int|
                                0 <= a <= b <= rawkey.len() && key == #[trigger] rawkey.subrange(
                                    a,
                                    b,
                                );
                            lemma_no_sub_in_subrange(rawkey, crlf(), a, b);
                            assert(!contains_sub(rawkey, colon_sep())) by {
                                if contains_sub(rawkey, colon_sep()) {
                                    let j = choose|j: int| matches_at(rawkey, colon_sep(), j);
                                    lemma_matches_at_single(rawkey, 58u8, j);
                                    lemma_matches_at_single(line, 58u8, j);
                                    assert(matches_at(line, colon_sep(), j));
                                    assert(j < ci);
                                }
                            }
                            lemma_no_sub_in_subrange(rawkey, colon_sep(), a, b);
                            lemma_trimmed_ws_trimmed(rawkey);
                            lemma_trimmed_ws_utf8(rawkey);
                            assert(rawval =~= line.subrange(ci + 1, line.len() as int));
                            lemma_no_sub_in_subrange(line, crlf(), ci + 1, line.len() as int);
                            lemma_trim_spaces_suffix(rawval);
                            let va = choose|va: int|
                                0 <= va <= rawval.len() && value == rawval.skip(va);
                            assert(rawval.skip(va) =~= rawval.subrange(va, rawval.len() as int));
                            lemma_no_sub_in_subrange(rawval, crlf(), va, rawval.len() as int);
                            lemma_trim_spaces_no_leading(rawval);
                            assert(host_key().len() != upgrade_key().len());
                            let this_host: Option<Seq<u8>> = if key == host_key() {
                                Some(trimmed_ws(rawval))
                            } else {
                                None
                            };
                            let hm = HeaderModel { key, colon: colon_sep(), value };
                            if key == upgrade_key() {
                                assert(host_of_headers(p.0) == p.1);
                            } else {
                                assert(header_wf(hm));
                                let newhs = seq![hm] + p.0;
                                assert(newhs.skip(1) =~= p.0);
                                assert(newhs[0] == hm);
                                assert forall|i: int| 0 <= i < newhs.len() implies header_wf(
                                    #[trigger] newhs[i],
                                ) by {
                                    if i > 0 {
                                        assert(newhs[i] == p.0[i - 1]);
                                    }
                                }
                                lemma_trimmed_ws_trim_spaces(rawval);
                                assert(host_of_headers(newhs) == (if p.1 is Some {
                                    p.1
                                } else {
                                    this_host
                                }));
                            }
                        },
                    }
                }
            },
        }
    }
}

/// Every request the parser returns is well-formed: its tokens are free of
/// spaces and line breaks and valid UTF-8, its headers are as `header_wf`
/// says, and its host is the one its last `Host` header pins down.
pub proof fn lemma_parse_spec_wf(buf: Seq<u8>)
    ensures
        parse_spec(buf) matches Ok(r) ==> model_wf(r),
{
    let hb = header_block(buf);
    let lines = split_by(hb, crlf());
    lemma_split_by_pieces(hb, crlf(), crlf());
    if lines.len() > 0 && vstd::utf8::valid_utf8(lines[0]) {
        let line0 = lines[0];
        let toks = split_sp(line0);
        lemma_split_sp_pieces(line0, crlf());
        lemma_split_sp_utf8(line0);
        assert(crate::bytes::sp_seq() == sp());
        if toks.len() >= 3 {
            assert(token_wf(toks[0]) && token_wf(toks[1]) && token_wf(toks[2])) by {
                assert(!contains_sub(line0, crlf()));
            }
        }
        lemma_parse_headers_wf(lines, 1);
    }
}


/// A buffer shorter than the pattern cannot contain it.
proof fn lemma_short_no_sub(s: Seq<u8>, q: Seq<u8>)
    requires
        s.len() < q.len(),
    ensures
        !contains_sub(s, q),
{
    if contains_sub(s, q) {
        let t = choose|t: int| matches_at(s, q, t);
    }
}

/// One header's wire line, without its trailing line break.
pub open spec fn line_of(h: HeaderModel) -> Seq<u8> {
    h.key + h.colon + sp() + h.value
}

/// The wire lines of a header list, in order.
pub open spec fn header_lines(hs: Seq<HeaderModel>) -> Seq<Seq<u8>> {
    hs.map_values(|h: HeaderModel| line_of(h))
}

/// A well-formed header's wire line holds no line break, is at least two
/// bytes long, and does not start with a carriage return.
proof fn lemma_header_line_wf(h: HeaderModel)
    requires
        header_wf(h),
    ensures
        !contains_sub(line_of(h), crlf()),
        line_of(h).len() >= 2,
        line_of(h)[0] != 13,
{
    let a1 = h.key + h.colon;
    let a2 = a1 + sp();
    let line = a2 + h.value;
    lemma_short_no_sub(colon_sep(), crlf());
    lemma_short_no_sub(sp(), crlf());
    lemma_contains2_concat(h.key, h.colon, crlf());
    assert(a1.last() == 58);
    lemma_contains2_concat(a1, sp(), crlf());
    assert(a2.last() == 32);
    lemma_contains2_concat(a2, h.value, crlf());
    assert(!contains_sub(line, crlf()));
    if h.key.len() > 0 {
        assert(line[0] == h.key[0]);
        assert(!is_ws(h.key[0]));
    } else {
        assert(line[0] == 58);
    }
}

/// The shape of everything that follows the request line in a serialized
/// request: the first blank line sits two bytes before the end of the
/// serialized headers, the header block before it splits into exactly the
/// headers' wire lines, and what follows the blank line is the body part
/// unchanged.
proof fn lemma_wire_tail(hs: Seq<HeaderModel>, bp: Seq<u8>)
    requires
        hs.len() > 0,
        forall|i: int| 0 <= i < hs.len() ==> header_wf(#[trigger] hs[i]),
    ensures
        ({
            let tl = wire_headers(hs) + crlf() + bp;
            let q = wire_headers(hs).len() - 2;
            &&& q >= 2
            &&& find_at(tl, crlf2()) == Some(q)
            &&& split_by(tl.take(q), crlf()) == header_lines(hs)
            &&& tl.skip(q + 4) == bp
            &&& tl[0] != 13
        }),
    decreases hs.len(),
{
    let h0 = hs[0];
    let line0 = line_of(h0);
    lemma_header_line_wf(h0);
    let tl = wire_headers(hs) + crlf() + bp;
    let q = wire_headers(hs).len() - 2;
    assert(wire_header(h0) == line0 + crlf());
    if hs.len() == 1 {
        assert(hs.skip(1) =~= Seq::<HeaderModel>::empty());
        assert(wire_headers(hs.skip(1)) == Seq::<u8>::empty());
        assert(wire_headers(hs) =~= line0 + crlf());
        let rest = crlf() + bp;
        assert(rest[0] == 13 && rest[1] == 10);
        lemma_crlf2_seam_hit(line0, rest);
        assert(tl =~= line0 + crlf() + rest);
        assert(q == line0.len());
        assert(find_at(tl, crlf2()) == Some(q));
        assert(tl.take(q) =~= line0);
        lemma_split_by_single(line0);
        assert(header_lines(hs) =~= seq![line0]);
        assert(tl.skip(q + 4) =~= bp);
        assert(tl[0] == line0[0]);
    } else {
        let rest_hs = hs.skip(1);
        assert(rest_hs.len() == hs.len() - 1);
        assert forall|i: int| 0 <= i < rest_hs.len() implies header_wf(#[trigger] rest_hs[i]) by {
            assert(rest_hs[i] == hs[i + 1]);
        }
        lemma_wire_tail(rest_hs, bp);
        let tl1 = wire_headers(rest_hs) + crlf() + bp;
        let q1 = wire_headers(rest_hs).len() - 2;
        assert(wire_headers(hs) == wire_header(h0) + wire_headers(rest_hs));
        assert(tl =~= line0 + crlf() + tl1);
        lemma_crlf2_seam_pass(line0, tl1);
        assert(find_at(tl, crlf2()) == Some(line0.len() + 2 + q1));
        assert(q == line0.len() + 2 + q1);
        assert(tl.take(q) =~= line0 + crlf() + tl1.take(q1));
        lemma_split_by_cons(line0, tl1.take(q1));
        assert(split_by(tl.take(q), crlf()) == seq![line0] + split_by(tl1.take(q1), crlf()));
        assert(split_by(tl1.take(q1), crlf()) == header_lines(rest_hs));
        assert(header_lines(hs) =~= seq![line0] + header_lines(rest_hs));
        assert(tl.skip(q + 4) =~= tl1.skip(q1 + 4));
        assert(tl[0] == line0[0]);
    }
}


/// Re-reading the wire lines of well-formed headers yields exactly those
/// headers and the host their last `Host` entry pins down.
proof fn lemma_reparse_headers(hs: Seq<HeaderModel>, lines: Seq<Seq<u8>>, k: int)
    requires
        forall|i: int| 0 <= i < hs.len() ==> header_wf(#[trigger] hs[i]),
        0 <= k <= lines.len(),
        lines.len() - k == hs.len(),
        forall|i: int| 0 <= i < hs.len() ==> lines[k + i] == line_of(#[trigger] hs[i]),
    ensures
        parse_headers_from(lines, k) == Ok::<(Seq<HeaderModel>, Option<Seq<u8>>), ParseError>(
            (hs, host_of_headers(hs)),
        ),
    decreases hs.len(),
{
    if hs.len() == 0 {
        assert(hs =~= Seq::<HeaderModel>::empty());
        assert(parse_headers_from(lines, k) == Ok::<
            (Seq<HeaderModel>, Option<Seq<u8>>),
            ParseError,
        >((Seq::<HeaderModel>::empty(), None::<Seq<u8>>)));
    } else {
        let h0 = hs[0];
        let key = h0.key;
        let value = h0.value;
        let line = lines[k];
        assert(line == line_of(h0));
        let kl = key.len() as int;
        assert(line[kl] == 58);
        assert(matches_at(line, colon_sep(), kl)) by {
            lemma_matches_at_single(line, 58u8, kl);
        }
        assert forall|j: int| 0 <= j < kl implies !matches_at(line, colon_sep(), j) by {
            lemma_matches_at_single(line, 58u8, j);
            lemma_matches_at_single(key, 58u8, j);
            assert(line[j] == key[j]);
            if key[j] == 58 {
                assert(matches_at(key, colon_sep(), j));
            }
        }
        lemma_find_at_is(line, colon_sep(), kl);
        let rawkey = line.take(kl);
        assert(rawkey =~= key);
        lemma_trimmed_ws_of_trimmed(key);
        let rawval = line.skip(kl + 1);
        assert(rawval =~= sp() + value);
        assert((sp() + value).skip(1) =~= value);
        assert(trim_spaces(sp() + value) == trim_spaces(value));
        assert(trim_spaces(value) == value);
        assert(trim_ws_start(sp() + value) == trim_ws_start(value));
        assert(trimmed_ws(sp() + value) == trimmed_ws(value));
        let hm = HeaderModel {
            key: trimmed_ws(rawkey),
            colon: colon_sep(),
            value: trim_spaces(rawval),
        };
        assert(hm == h0);
        let rest_hs = hs.skip(1);
        assert forall|i: int| 0 <= i < rest_hs.len() implies header_wf(#[trigger] rest_hs[i]) by {
            assert(rest_hs[i] == hs[i + 1]);
        }
        assert forall|i: int| 0 <= i < rest_hs.len() implies lines[k + 1 + i] == line_of(
            #[trigger] rest_hs[i],
        ) by {
            assert(rest_hs[i] == hs[i + 1]);
            assert(lines[k + (i + 1)] == line_of(hs[i + 1]));
        }
        lemma_reparse_headers(rest_hs, lines, k + 1);
        assert(seq![h0] + rest_hs =~= hs);
        assert(host_key().len() != upgrade_key().len());
        match parse_headers_from(lines, k) {
            Err(_) => {
                assert(false);
            },
            Ok(p) => {
                assert(p.0 == seq![hm] + rest_hs);
                assert(p.0 =~= hs);
                assert(p.1 == (if host_of_headers(rest_hs) is Some {
                    host_of_headers(rest_hs)
                } else {
                    if key == host_key() {
                        Some(trimmed_ws(rawval))
                    } else {
                        None
                    }
                }));
                assert(host_of_headers(hs) == (match host_of_headers(hs.skip(1)) {
                    Some(h) => Some(h),
                    None => if hs[0].key == host_key() {
                        Some(trimmed_ws(hs[0].value))
                    } else {
                        None
                    },
                }));
                assert(p.1 == host_of_headers(hs));
            },
        }
    }
}


/// Serializing a well-formed request and parsing the result yields the
/// same request line, headers and host; a non-empty body comes back with
/// the trailing line break that serialization appends.
pub proof fn lemma_reparse(r: RequestModel)
    requires
        model_wf(r),
    ensures
        parse_spec(wire(r)) == Ok::<RequestModel, ParseError>(
            RequestModel {
                method: r.method,
                path: r.path,
                version: r.version,
                headers: r.headers,
                host: r.host,
                body: if r.body.len() > 0 {
                    r.body + crlf()
                } else {
                    Seq::<u8>::empty()
                },
            },
        ),
{
    let m = r.method;
    let p = r.path;
    let v = r.version;
    let hs = r.headers;
    let reqline = m + sp() + p + sp() + v;
    let bp: Seq<u8> = if r.body.len() > 0 {
        r.body + crlf()
    } else {
        Seq::<u8>::empty()
    };
    let w = wire(r);
    assert(hs.len() > 0) by {
        if hs.len() == 0 {
            assert(host_of_headers(hs) is None);
        }
    }
    lemma_short_no_sub(sp(), crlf());
    let a1 = m + sp();
    let a2 = a1 + p;
    let a3 = a2 + sp();
    lemma_contains2_concat(m, sp(), crlf());
    assert(a1.last() == 32);
    lemma_contains2_concat(a1, p, crlf());
    lemma_contains2_concat(a2, sp(), crlf());
    assert(a3.last() == 32);
    lemma_contains2_concat(a3, v, crlf());
    assert(reqline == a3 + v);
    assert(!contains_sub(reqline, crlf()));
    lemma_wire_tail(hs, bp);
    let tl0 = wire_headers(hs) + crlf() + bp;
    let q = wire_headers(hs).len() - 2;
    assert(w =~= reqline + crlf() + tl0);
    lemma_crlf2_seam_pass(reqline, tl0);
    let pos = reqline.len() + 2 + q;
    assert(find_at(w, crlf2()) == Some(pos));
    assert(header_block(w) == w.take(pos));
    assert(w.take(pos) =~= reqline + crlf() + tl0.take(q));
    lemma_split_by_cons(reqline, tl0.take(q));
    let lines = split_by(header_block(w), crlf());
    assert(lines == seq![reqline] + header_lines(hs));
    assert(lines[0] == reqline);
    assert(body_of(w) == w.skip(pos + 4));
    assert(w.skip(pos + 4) =~= tl0.skip(q + 4));
    assert(body_of(w) == bp);
    lemma_ascii_singleton_utf8(32);
    assert(sp() =~= seq![32u8]);
    vstd::utf8::valid_utf8_concat(m, sp());
    vstd::utf8::valid_utf8_concat(a1, p);
    vstd::utf8::valid_utf8_concat(a2, sp());
    vstd::utf8::valid_utf8_concat(a3, v);
    assert(vstd::utf8::valid_utf8(reqline));
    assert(reqline =~= m + sp() + (p + sp() + v));
    lemma_split_sp_cons(m, p + sp() + v);
    lemma_split_sp_cons(p, v);
    lemma_split_sp_single(v);
    let toks = split_sp(reqline);
    assert(toks == seq![m] + (seq![p] + seq![v]));
    assert(toks.len() == 3 && toks[0] == m && toks[1] == p && toks[2] == v);
    assert(lines.len() - 1 == hs.len());
    assert forall|i: int| 0 <= i < hs.len() implies lines[1 + i] == line_of(#[trigger] hs[i]) by {
        assert(header_lines(hs)[i] == line_of(hs[i]));
        assert(lines[1 + i] == header_lines(hs)[i]);
    }
    lemma_reparse_headers(hs, lines, 1);
    assert(parse_headers_from(lines, 1) == Ok::<(Seq<HeaderModel>, Option<Seq<u8>>), ParseError>(
        (hs, Some(r.host)),
    ));
    assert(parse_spec(w) == finish_parse(toks, bp, parse_headers_from(lines, 1)));
}

/// The round-trip law: a request parsed from any buffer, serialized and
/// parsed again, comes back with the same method, path, version, header
/// list and host. The reparsed body carries the trailing line break that
/// serialization appends to a non-empty body; the suppressed header was
/// already dropped by the first parse, so the header lists agree exactly.
pub proof fn lemma_parse_write_round_trip(buf: Seq<u8>)
    ensures
        parse_spec(buf) matches Ok(r) ==> parse_spec(wire(r)) == Ok::<RequestModel, ParseError>(
            RequestModel {
                method: r.method,
                path: r.path,
                version: r.version,
                headers: r.headers,
                host: r.host,
                body: if r.body.len() > 0 {
                    r.body + crlf()
                } else {
                    Seq::<u8>::empty()
                },
            },
        ),
{
    lemma_parse_spec_wf(buf);
    match parse_spec(buf) {
        Ok(r) => lemma_reparse(r),
        Err(_) => {},
    }
}


/// The header one line carries, before any suppression: the trimmed key,
/// the colon separator, and the value with leading spaces stripped.
pub open spec fn line_header(line: Seq<u8>) -> HeaderModel {
    match find_at(line, colon_sep()) {
        Some(ci) => if 0 <= ci && ci < line.len() {
            HeaderModel {
                key: trimmed_ws(line.take(ci)),
                colon: colon_sep(),
                value: trim_spaces(line.skip(ci + 1)),
            }
        } else {
            HeaderModel { key: Seq::empty(), colon: colon_sep(), value: Seq::empty() }
        },
        None => HeaderModel { key: Seq::empty(), colon: colon_sep(), value: Seq::empty() },
    }
}

/// The headers of all lines from `k` on, in wire order, none dropped.
pub open spec fn raw_headers(lines: Seq<Seq<u8>>, k: int) -> Seq<HeaderModel>
    decreases lines.len() - k,
{
    if k < 0 || k >= lines.len() {
        Seq::empty()
    } else {
        seq![line_header(lines[k])] + raw_headers(lines, k + 1)
    }
}

/// Filtering past a first element keeps or drops it and filters the rest.
proof fn lemma_filter_cons(x: HeaderModel, s: Seq<HeaderModel>)
    ensures
        (seq![x] + s).filter(|h: HeaderModel| h.key != upgrade_key()) == (if x.key
            != upgrade_key() {
            seq![x]
        } else {
            Seq::<HeaderModel>::empty()
        }) + s.filter(|h: HeaderModel| h.key != upgrade_key()),
{
    let pred = |h: HeaderModel| h.key != upgrade_key();
    Seq::<HeaderModel>::filter_distributes_over_add(seq![x], s, pred);
    assert(seq![x].filter(pred) == (if x.key != upgrade_key() {
        seq![x]
    } else {
        Seq::<HeaderModel>::empty()
    })) by {
        reveal_with_fuel(Seq::filter, 2);
        assert(seq![x].drop_last() =~= Seq::<HeaderModel>::empty());
        assert(seq![x].last() == x);
        assert(Seq::<HeaderModel>::empty().push(x) =~= seq![x]);
    }
}

/// The header scan keeps every line's header, in wire order, dropping
/// exactly those keyed `Upgrade-Insecure-Requests`.
proof fn lemma_parse_headers_order(lines: Seq<Seq<u8>>, k: int)
    ensures
        parse_headers_from(lines, k) matches Ok(p) ==> p.0 == raw_headers(lines, k).filter(
            |h: HeaderModel| h.key != upgrade_key(),
        ),
    decreases lines.len() - k,
{
    let pred = |h: HeaderModel| h.key != upgrade_key();
    if k < 0 || k >= lines.len() {
        assert(Seq::<HeaderModel>::empty().filter(pred) == Seq::<HeaderModel>::empty()) by {
            reveal_with_fuel(Seq::filter, 1);
        }
    } else {
        lemma_parse_headers_order(lines, k + 1);
        let line = lines[k];
        match find_at(line, colon_sep()) {
            None => {},
            Some(ci) => {
                if 0 <= ci && ci < line.len() && vstd::utf8::valid_utf8(line.take(ci)) {
                    match parse_headers_from(lines, k + 1) {
                        Err(_) => {},
                        Ok(p) => {
                            let hm = line_header(line);
                            lemma_filter_cons(hm, raw_headers(lines, k + 1));
                            if hm.key == upgrade_key() {
                                assert(Seq::<HeaderModel>::empty() + raw_headers(
                                    lines,
                                    k + 1,
                                ).filter(pred) =~= raw_headers(lines, k + 1).filter(pred));
                            }
                        },
                    }
                }
            },
        }
    }
}

/// The header-order law: headers come out in wire order, none reordered,
/// and the only line ever dropped is the one keyed
/// `Upgrade-Insecure-Requests`.
pub proof fn lemma_headers_in_wire_order(buf: Seq<u8>)
    ensures
        parse_spec(buf) matches Ok(r) ==> r.headers == raw_headers(
            split_by(header_block(buf), crlf()),
            1,
        ).filter(|h: HeaderModel| h.key != upgrade_key()),
{
    lemma_parse_headers_order(split_by(header_block(buf), crlf()), 1);
}

} // verus!
