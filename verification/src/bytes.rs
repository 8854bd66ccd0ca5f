//! Byte-buffer utilities under the parser: substring search, splitting on a
//! delimiter, whitespace trimming, and byte-wise equality.
//!
//! Request data is never decoded here; every operation works on raw bytes,
//! specified over `Seq<u8>`.

use vstd::prelude::*;

verus! {

/// `pat` occurs in `s` as a contiguous subsequence starting at index `i`.
pub open spec fn matches_at(s: Seq<u8>, pat: Seq<u8>, i: int) -> bool {
    0 <= i && i + pat.len() <= s.len() && s.subrange(i, i + pat.len() as int) == pat
}

/// Index of the first occurrence of `pat` in `s`, or `None` when `pat` does
/// not occur. An empty `pat` occurs at index 0.
pub open spec fn find_at(s: Seq<u8>, pat: Seq<u8>) -> Option<int>
    decreases s.len(),
{
    if matches_at(s, pat, 0) {
        Some(0int)
    } else if s.len() == 0 {
        None
    } else {
        match find_at(s.skip(1), pat) {
            Some(i) => Some(i + 1),
            None => None,
        }
    }
}

/// `find_at` returns the first match: a match where it points, and no match
/// anywhere earlier; `None` exactly when there is no match at all.
pub proof fn lemma_find_at_spec(s: Seq<u8>, pat: Seq<u8>)
    ensures
        match find_at(s, pat) {
            Some(i) => matches_at(s, pat, i) && forall|j: int| 0 <= j < i ==> !matches_at(s, pat, j),
            None => forall|j: int| !matches_at(s, pat, j),
        },
    decreases s.len(),
{
    if matches_at(s, pat, 0) {
    } else if s.len() == 0 {
        assert forall|j: int| !matches_at(s, pat, j) by {
            if matches_at(s, pat, j) {
                assert(j == 0);
            }
        }
    } else {
        lemma_find_at_spec(s.skip(1), pat);
        assert forall|j: int| 0 <= j implies (matches_at(s, pat, j + 1) == matches_at(
            s.skip(1),
            pat,
            j,
        )) by {
            if j + 1 + pat.len() <= s.len() {
                assert(s.skip(1).subrange(j, j + pat.len() as int) =~= s.subrange(
                    j + 1,
                    j + 1 + pat.len() as int,
                ));
            }
        }
        match find_at(s.skip(1), pat) {
            Some(i) => {
                assert(matches_at(s, pat, i + 1));
                assert forall|j: int| 0 <= j < i + 1 implies !matches_at(s, pat, j) by {
                    if j > 0 {
                        assert(!matches_at(s.skip(1), pat, j - 1));
                    }
                }
            },
            None => {
                assert forall|j: int| !matches_at(s, pat, j) by {
                    if matches_at(s, pat, j) {
                        assert(j > 0);
                        assert(matches_at(s.skip(1), pat, j - 1));
                    }
                }
            },
        }
    }
}

/// A found occurrence lies within the buffer.
pub proof fn lemma_find_at_bounds(s: Seq<u8>, pat: Seq<u8>)
    ensures
        find_at(s, pat) matches Some(i) ==> 0 <= i && i + pat.len() <= s.len(),
{
    lemma_find_at_spec(s, pat);
}

/// Whether `sub` occurs anywhere in `s`.
pub open spec fn contains_sub(s: Seq<u8>, sub: Seq<u8>) -> bool {
    exists|i: int| matches_at(s, sub, i)
}

fn match_at(buf: &[u8], pat: &[u8], i: usize) -> (r: bool)
    requires
        i + pat@.len() <= buf@.len(),
    ensures
        r == matches_at(buf@, pat@, i as int),
{
    let n = buf.len();
    let mut j: usize = 0;
    while j < pat.len()
        invariant
            0 <= j <= pat@.len(),
            i + pat@.len() <= buf@.len(),
            n == buf@.len(),
            forall|k: int| 0 <= k < j ==> buf@[i + k] == pat@[k],
        decreases pat@.len() - j,
    {
        if buf[i + j] != pat[j] {
            assert(!matches_at(buf@, pat@, i as int)) by {
                if buf@.subrange(i as int, i + pat@.len() as int) == pat@ {
                    assert(buf@.subrange(i as int, i + pat@.len() as int)[j as int] == pat@[
                        j as int
                    ]);
                }
            }
            return false;
        }
        j = j + 1;
    }
    assert(buf@.subrange(i as int, i + pat@.len() as int) =~= pat@);
    true
}

/// Index of the first occurrence of `pat` in `buf`, if any.
pub fn find(buf: &[u8], pat: &[u8]) -> (r: Option<usize>)
    ensures
        match r {
            Some(i) => find_at(buf@, pat@) == Some(i as int),
            None => find_at(buf@, pat@) is None,
        },
{
    proof {
        lemma_find_at_spec(buf@, pat@);
    }
    if pat.len() == 0 {
        assert(buf@.subrange(0, 0) =~= pat@);
        return Some(0);
    }
    if pat.len() > buf.len() {
        return None;
    }
    let last = buf.len() - pat.len();
    let mut i: usize = 0;
    loop
        invariant
            0 <= i <= last + 1,
            last + pat@.len() == buf@.len(),
            buf@.len() <= usize::MAX,
            0 < pat@.len() <= buf@.len(),
            forall|j: int| 0 <= j < i ==> !matches_at(buf@, pat@, j),
        ensures
            match find_at(buf@, pat@) {
                Some(k) => matches_at(buf@, pat@, k) && forall|j: int|
                    0 <= j < k ==> !matches_at(buf@, pat@, j),
                None => forall|j: int| !matches_at(buf@, pat@, j),
            },
        decreases last + 1 - i,
    {
        proof {
            lemma_find_at_spec(buf@, pat@);
        }
        if i > last {
            assert forall|j: int| !matches_at(buf@, pat@, j) by {
                if matches_at(buf@, pat@, j) {
                    assert(0 <= j < i);
                }
            }
            return None;
        }
        if match_at(buf, pat, i) {
            assert(find_at(buf@, pat@) == Some(i as int)) by {
                match find_at(buf@, pat@) {
                    Some(k) => {
                        if k < i {
                            assert(!matches_at(buf@, pat@, k));
                        }
                        if k > i {
                            assert(!matches_at(buf@, pat@, i as int));
                        }
                    },
                    None => {
                        assert(!matches_at(buf@, pat@, i as int));
                    },
                }
            }
            return Some(i);
        }
        i = i + 1;
    }
}

/// The views of a sequence of owned byte buffers.
pub open spec fn views(vs: Seq<Vec<u8>>) -> Seq<Seq<u8>> {
    vs.map_values(|v: Vec<u8>| v@)
}

/// Pieces of `s` cut at each occurrence of `pat`, scanning left to right.
/// A trailing empty piece is not produced: a buffer that ends with `pat`
/// yields the same pieces as one that merely ends there, and an empty
/// buffer yields no piece at all.
pub open spec fn split_by(s: Seq<u8>, pat: Seq<u8>) -> Seq<Seq<u8>>
    decreases s.len(),
{
    if pat.len() == 0 {
        Seq::empty()
    } else {
        match find_at(s, pat) {
            Some(i) => if 0 <= i && i + pat.len() <= s.len() {
                seq![s.take(i)] + split_by(s.skip(i + pat.len() as int), pat)
            } else {
                Seq::empty()
            },
            None => if s.len() > 0 {
                seq![s]
            } else {
                Seq::empty()
            },
        }
    }
}

/// Pieces of `s` cut at every space byte, keeping empty pieces, as a
/// string split does: there is always at least one piece, and consecutive
/// or trailing spaces produce empty pieces.
pub open spec fn split_sp(s: Seq<u8>) -> Seq<Seq<u8>>
    decreases s.len(),
{
    match find_at(s, seq![32u8]) {
        Some(i) => if 0 <= i && i < s.len() {
            seq![s.take(i)] + split_sp(s.skip(i + 1))
        } else {
            seq![s]
        },
        None => seq![s],
    }
}

/// Splits `buf` at each occurrence of `pat`, dropping a trailing empty piece.
pub fn split(buf: &[u8], pat: &[u8]) -> (r: Vec<Vec<u8>>)
    requires
        pat@.len() > 0,
    ensures
        views(r@) == split_by(buf@, pat@),
{
    let mut out: Vec<Vec<u8>> = Vec::new();
    let mut pos: usize = 0;
    let n = buf.len();
    assert(buf@.skip(0) =~= buf@);
    assert(views(out@) + split_by(buf@, pat@) =~= split_by(buf@, pat@));
    loop
        invariant
            0 <= pos <= n,
            n == buf@.len(),
            pat@.len() > 0,
            split_by(buf@, pat@) == views(out@) + split_by(buf@.skip(pos as int), pat@),
        ensures
            views(out@) == split_by(buf@, pat@),
        decreases n - pos,
    {
        let ghost rest_spec = buf@.skip(pos as int);
        let rest = vstd::slice::slice_subrange(buf, pos, n);
        assert(rest@ =~= rest_spec);
        match find(rest, pat) {
            Some(i) => {
                proof {
                    lemma_find_at_bounds(rest_spec, pat@);
                }
                let piece = vstd::slice::slice_to_vec(vstd::slice::slice_subrange(rest, 0, i));
                assert(piece@ =~= rest_spec.take(i as int));
                let ghost old_out = out@;
                out.push(piece);
                assert(views(out@) =~= views(old_out) + seq![rest_spec.take(i as int)]);
                pos = pos + i + pat.len();
                assert(rest_spec.skip(i + pat@.len() as int) =~= buf@.skip(pos as int));
                assert(split_by(buf@, pat@) =~= views(out@) + split_by(
                    buf@.skip(pos as int),
                    pat@,
                ));
            },
            None => {
                if pos < n {
                    let ghost old_out = out@;
                    let piece = vstd::slice::slice_to_vec(rest);
                    out.push(piece);
                    assert(views(out@) =~= views(old_out) + seq![rest_spec]);
                    assert(split_by(rest_spec, pat@) == seq![rest_spec]);
                } else {
                    assert(rest_spec.len() == 0);
                    assert(split_by(rest_spec, pat@) == Seq::<Seq<u8>>::empty());
                }
                assert(views(out@) =~= split_by(buf@, pat@));
                return out;
            },
        }
    }
}

/// Splits `buf` at every space byte, keeping empty pieces.
pub fn split_tokens(buf: &[u8]) -> (r: Vec<Vec<u8>>)
    ensures
        views(r@) == split_sp(buf@),
        r@.len() >= 1,
{
    let mut sp: Vec<u8> = Vec::new();
    sp.push(32u8);
    assert(sp@ =~= seq![32u8]);
    let mut out: Vec<Vec<u8>> = Vec::new();
    let mut pos: usize = 0;
    let n = buf.len();
    assert(buf@.skip(0) =~= buf@);
    assert(views(out@) + split_sp(buf@) =~= split_sp(buf@));
    loop
        invariant
            0 <= pos <= n,
            n == buf@.len(),
            sp@ == seq![32u8],
            split_sp(buf@) == views(out@) + split_sp(buf@.skip(pos as int)),
        ensures
            views(out@) == split_sp(buf@),
            out@.len() >= 1,
        decreases n - pos,
    {
        let ghost rest_spec = buf@.skip(pos as int);
        let rest = vstd::slice::slice_subrange(buf, pos, n);
        assert(rest@ =~= rest_spec);
        match find(rest, sp.as_slice()) {
            Some(i) => {
                proof {
                    lemma_find_at_bounds(rest_spec, seq![32u8]);
                }
                let piece = vstd::slice::slice_to_vec(vstd::slice::slice_subrange(rest, 0, i));
                assert(piece@ =~= rest_spec.take(i as int));
                let ghost old_out = out@;
                out.push(piece);
                assert(views(out@) =~= views(old_out) + seq![rest_spec.take(i as int)]);
                pos = pos + i + 1;
                assert(rest_spec.skip(i + 1) =~= buf@.skip(pos as int));
                assert(split_sp(buf@) =~= views(out@) + split_sp(buf@.skip(pos as int)));
            },
            None => {
                let ghost old_out = out@;
                let piece = vstd::slice::slice_to_vec(rest);
                out.push(piece);
                assert(views(out@) =~= views(old_out) + seq![rest_spec]);
                assert(split_sp(rest_spec) == seq![rest_spec]);
                assert(views(out@) =~= split_sp(buf@));
                return out;
            },
        }
    }
}

/// `s` with every leading space byte removed; nothing else changes.
pub open spec fn trim_spaces(s: Seq<u8>) -> Seq<u8>
    decreases s.len(),
{
    if s.len() > 0 && s[0] == 32 {
        trim_spaces(s.skip(1))
    } else {
        s
    }
}

/// An ASCII whitespace byte: space, tab, line feed, vertical tab, form
/// feed or carriage return.
pub open spec fn is_ws(b: u8) -> bool {
    b == 32 || (9 <= b && b <= 13)
}

/// `s` with leading ASCII whitespace removed.
pub open spec fn trim_ws_start(s: Seq<u8>) -> Seq<u8>
    decreases s.len(),
{
    if s.len() > 0 && is_ws(s[0]) {
        trim_ws_start(s.skip(1))
    } else {
        s
    }
}

/// `s` with trailing ASCII whitespace removed.
pub open spec fn trim_ws_end(s: Seq<u8>) -> Seq<u8>
    decreases s.len(),
{
    if s.len() > 0 && is_ws(s.last()) {
        trim_ws_end(s.take(s.len() - 1))
    } else {
        s
    }
}

/// `s` with ASCII whitespace removed from both ends.
pub open spec fn trimmed_ws(s: Seq<u8>) -> Seq<u8> {
    trim_ws_end(trim_ws_start(s))
}

/// Copy of `buf` with leading space bytes removed.
pub fn trim(buf: &[u8]) -> (r: Vec<u8>)
    ensures
        r@ == trim_spaces(buf@),
{
    let n = buf.len();
    let mut i: usize = 0;
    assert(buf@.skip(0) =~= buf@);
    while i < n && buf[i] == 32
        invariant
            0 <= i <= n,
            n == buf@.len(),
            trim_spaces(buf@) == trim_spaces(buf@.skip(i as int)),
        decreases n - i,
    {
        assert(buf@.skip(i as int).skip(1) =~= buf@.skip(i + 1));
        i = i + 1;
    }
    let r = vstd::slice::slice_to_vec(vstd::slice::slice_subrange(buf, i, n));
    assert(r@ =~= buf@.skip(i as int));
    r
}

/// Copy of `buf` with ASCII whitespace removed from both ends.
pub fn trim_ws(buf: &[u8]) -> (r: Vec<u8>)
    ensures
        r@ == trimmed_ws(buf@),
{
    let n = buf.len();
    let mut a: usize = 0;
    assert(buf@.skip(0) =~= buf@);
    while a < n && is_ws_byte(buf[a])
        invariant
            0 <= a <= n,
            n == buf@.len(),
            trim_ws_start(buf@) == trim_ws_start(buf@.skip(a as int)),
        decreases n - a,
    {
        assert(buf@.skip(a as int).skip(1) =~= buf@.skip(a + 1));
        a = a + 1;
    }
    let ghost t = buf@.skip(a as int);
    assert(trim_ws_start(buf@) == t);
    let mut b: usize = n;
    assert(t.take(n - a) =~= t);
    while b > a && is_ws_byte(buf[b - 1])
        invariant
            a <= b <= n,
            n == buf@.len(),
            t == buf@.skip(a as int),
            trim_ws_end(t) == trim_ws_end(t.take(b - a)),
        decreases b,
    {
        assert(t.take(b - a).last() == buf@[b - 1]);
        assert(t.take(b - a).take(b - a - 1) =~= t.take(b - 1 - a));
        b = b - 1;
    }
    let r = vstd::slice::slice_to_vec(vstd::slice::slice_subrange(buf, a, b));
    assert(r@ =~= t.take(b - a));
    assert(trim_ws_end(t.take(b - a)) == t.take(b - a));
    r
}

/// Whether `b` is an ASCII whitespace byte.
pub fn is_ws_byte(b: u8) -> (r: bool)
    ensures
        r == is_ws(b),
{
    b == 32 || (9 <= b && b <= 13)
}

/// When a first match and its minimality are known, `find_at` returns it.
pub proof fn lemma_find_at_is(s: Seq<u8>, pat: Seq<u8>, i: int)
    requires
        matches_at(s, pat, i),
        forall|j: int| 0 <= j < i ==> !matches_at(s, pat, j),
    ensures
        find_at(s, pat) == Some(i),
{
    lemma_find_at_spec(s, pat);
    match find_at(s, pat) {
        Some(k) => {
            if k < i {
                assert(!matches_at(s, pat, k));
            }
            if k > i {
                assert(!matches_at(s, pat, i));
            }
        },
        None => {
            assert(!matches_at(s, pat, i));
        },
    }
}

/// A single-byte pattern matches exactly where that byte stands.
pub proof fn lemma_matches_at_single(s: Seq<u8>, b: u8, j: int)
    ensures
        matches_at(s, seq![b], j) <==> (0 <= j < s.len() && s[j] == b),
{
    if 0 <= j < s.len() {
        if s[j] == b {
            assert(s.subrange(j, j + 1) =~= seq![b]);
        } else {
            if s.subrange(j, j + 1) == seq![b] {
                assert(s.subrange(j, j + 1)[0] == b);
            }
        }
    }
}

/// A match inside a subrange is a match in the whole buffer.
pub proof fn lemma_contains_sub_subrange(s: Seq<u8>, q: Seq<u8>, a: int, b: int)
    requires
        0 <= a <= b <= s.len(),
        contains_sub(s.subrange(a, b), q),
    ensures
        contains_sub(s, q),
{
    let j = choose|j: int| matches_at(s.subrange(a, b), q, j);
    assert(s.subrange(a + j, a + j + q.len() as int) =~= s.subrange(a, b).subrange(
        j,
        j + q.len() as int,
    ));
    assert(matches_at(s, q, a + j));
}

/// Every piece of `split_by` is free of the delimiter, and contains a
/// pattern only where the whole buffer does.
pub proof fn lemma_split_by_pieces(s: Seq<u8>, pat: Seq<u8>, q: Seq<u8>)
    requires
        pat.len() > 0,
    ensures
        forall|k: int|
            0 <= k < split_by(s, pat).len() ==> !contains_sub(
                #[trigger] split_by(s, pat)[k],
                pat,
            ) && (contains_sub(split_by(s, pat)[k], q) ==> contains_sub(s, q)),
    decreases s.len(),
{
    lemma_find_at_spec(s, pat);
    match find_at(s, pat) {
        Some(i) => {
            let rest = s.skip(i + pat.len() as int);
            lemma_split_by_pieces(rest, pat, q);
            assert forall|k: int| 0 <= k < split_by(s, pat).len() implies !contains_sub(
                #[trigger] split_by(s, pat)[k],
                pat,
            ) && (contains_sub(split_by(s, pat)[k], q) ==> contains_sub(s, q)) by {
                if k == 0 {
                    assert(split_by(s, pat)[0] == s.take(i));
                    if contains_sub(s.take(i), pat) {
                        let j = choose|j: int| matches_at(s.take(i), pat, j);
                        assert(s.subrange(j, j + pat.len() as int) =~= s.take(i).subrange(
                            j,
                            j + pat.len() as int,
                        ));
                        assert(matches_at(s, pat, j));
                        assert(j < i);
                    }
                    if contains_sub(s.take(i), q) {
                        assert(s.take(i) =~= s.subrange(0, i));
                        lemma_contains_sub_subrange(s, q, 0, i);
                    }
                } else {
                    assert(split_by(s, pat)[k] == split_by(rest, pat)[k - 1]);
                    if contains_sub(split_by(rest, pat)[k - 1], q) {
                        assert(rest =~= s.subrange(i + pat.len() as int, s.len() as int));
                        lemma_contains_sub_subrange(s, q, i + pat.len() as int, s.len() as int);
                    }
                }
            }
        },
        None => {
            if s.len() > 0 {
                assert forall|k: int| 0 <= k < split_by(s, pat).len() implies !contains_sub(
                    #[trigger] split_by(s, pat)[k],
                    pat,
                ) && (contains_sub(split_by(s, pat)[k], q) ==> contains_sub(s, q)) by {
                    assert(split_by(s, pat)[0] == s);
                }
            }
        },
    }
}

/// Every piece of `split_sp` is free of space bytes, and contains a
/// pattern only where the whole buffer does.
pub proof fn lemma_split_sp_pieces(s: Seq<u8>, q: Seq<u8>)
    ensures
        forall|k: int|
            0 <= k < split_sp(s).len() ==> !contains_sub(#[trigger] split_sp(s)[k], sp_seq()) && (
            contains_sub(split_sp(s)[k], q) ==> contains_sub(s, q)),
    decreases s.len(),
{
    lemma_find_at_spec(s, sp_seq());
    match find_at(s, sp_seq()) {
        Some(i) => {
            let rest = s.skip(i + 1);
            lemma_split_sp_pieces(rest, q);
            assert forall|k: int| 0 <= k < split_sp(s).len() implies !contains_sub(
                #[trigger] split_sp(s)[k],
                sp_seq(),
            ) && (contains_sub(split_sp(s)[k], q) ==> contains_sub(s, q)) by {
                if k == 0 {
                    assert(split_sp(s)[0] == s.take(i));
                    if contains_sub(s.take(i), sp_seq()) {
                        let j = choose|j: int| matches_at(s.take(i), sp_seq(), j);
                        assert(s.subrange(j, j + 1) =~= s.take(i).subrange(j, j + 1));
                        assert(matches_at(s, sp_seq(), j));
                        assert(j < i);
                    }
                    if contains_sub(s.take(i), q) {
                        assert(s.take(i) =~= s.subrange(0, i));
                        lemma_contains_sub_subrange(s, q, 0, i);
                    }
                } else {
                    assert(split_sp(s)[k] == split_sp(rest)[k - 1]);
                    if contains_sub(split_sp(rest)[k - 1], q) {
                        assert(rest =~= s.subrange(i + 1, s.len() as int));
                        lemma_contains_sub_subrange(s, q, i + 1, s.len() as int);
                    }
                }
            }
        },
        None => {
            assert forall|k: int| 0 <= k < split_sp(s).len() implies !contains_sub(
                #[trigger] split_sp(s)[k],
                sp_seq(),
            ) && (contains_sub(split_sp(s)[k], q) ==> contains_sub(s, q)) by {
                assert(split_sp(s)[0] == s);
                if contains_sub(s, sp_seq()) {
                    let j = choose|j: int| matches_at(s, sp_seq(), j);
                }
            }
        },
    }
}

/// The space byte as a one-byte pattern.
pub open spec fn sp_seq() -> Seq<u8> {
    seq![32u8]
}

/// Every piece of `split_sp` over a valid UTF-8 buffer is valid UTF-8.
pub proof fn lemma_split_sp_utf8(s: Seq<u8>)
    requires
        vstd::utf8::valid_utf8(s),
    ensures
        forall|k: int|
            0 <= k < split_sp(s).len() ==> vstd::utf8::valid_utf8(#[trigger] split_sp(s)[k]),
    decreases s.len(),
{
    lemma_find_at_spec(s, sp_seq());
    match find_at(s, sp_seq()) {
        Some(i) => {
            assert(matches_at(s, sp_seq(), i));
            assert(s.subrange(i, i + 1)[0] == s[i]);
            assert(s[i] == 32);
            let rest = s.skip(i + 1);
            assert(!vstd::utf8::is_continuation_byte(s[i]));
            vstd::utf8::is_char_boundary_iff_not_is_continuation_byte(s, i);
            vstd::utf8::valid_utf8_split(s, i);
            let suffix = s.subrange(i, s.len() as int);
            assert(vstd::utf8::valid_utf8(suffix));
            assert(suffix.len() > 0);
            assert(vstd::utf8::is_leading_byte_width_1(suffix[0]));
            assert(vstd::utf8::length_of_first_scalar(suffix) == 1);
            assert(vstd::utf8::pop_first_scalar(suffix) =~= rest);
            assert(vstd::utf8::valid_utf8(rest));
            lemma_split_sp_utf8(rest);
            assert forall|k: int| 0 <= k < split_sp(s).len() implies vstd::utf8::valid_utf8(
                #[trigger] split_sp(s)[k],
            ) by {
                if k == 0 {
                    assert(split_sp(s)[0] == s.take(i));
                    assert(s.take(i) =~= s.subrange(0, i));
                } else {
                    assert(split_sp(s)[k] == split_sp(rest)[k - 1]);
                }
            }
        },
        None => {
            assert forall|k: int| 0 <= k < split_sp(s).len() implies vstd::utf8::valid_utf8(
                #[trigger] split_sp(s)[k],
            ) by {
                assert(split_sp(s)[0] == s);
            }
        },
    }
}

/// `trim_spaces` returns a suffix of its argument.
pub proof fn lemma_trim_spaces_suffix(s: Seq<u8>)
    ensures
        exists|a: int| 0 <= a <= s.len() && trim_spaces(s) == s.skip(a),
    decreases s.len(),
{
    if s.len() > 0 && s[0] == 32 {
        lemma_trim_spaces_suffix(s.skip(1));
        let a = choose|a: int| 0 <= a <= s.skip(1).len() && trim_spaces(s.skip(1)) == s.skip(1).skip(
            a,
        );
        assert(s.skip(1).skip(a) =~= s.skip(1 + a));
        assert(trim_spaces(s) == s.skip(1 + a));
    } else {
        assert(s.skip(0) =~= s);
        assert(trim_spaces(s) == s.skip(0));
    }
}

/// `trim_spaces` leaves no leading space.
pub proof fn lemma_trim_spaces_no_leading(s: Seq<u8>)
    ensures
        trim_spaces(s).len() > 0 ==> trim_spaces(s)[0] != 32,
    decreases s.len(),
{
    if s.len() > 0 && s[0] == 32 {
        lemma_trim_spaces_no_leading(s.skip(1));
    }
}

/// `trim_ws_start` returns a suffix of its argument.
pub proof fn lemma_trim_ws_start_suffix(s: Seq<u8>)
    ensures
        exists|a: int| 0 <= a <= s.len() && trim_ws_start(s) == s.skip(a),
    decreases s.len(),
{
    if s.len() > 0 && is_ws(s[0]) {
        lemma_trim_ws_start_suffix(s.skip(1));
        let a = choose|a: int|
            0 <= a <= s.skip(1).len() && trim_ws_start(s.skip(1)) == s.skip(1).skip(a);
        assert(s.skip(1).skip(a) =~= s.skip(1 + a));
        assert(trim_ws_start(s) == s.skip(1 + a));
    } else {
        assert(s.skip(0) =~= s);
        assert(trim_ws_start(s) == s.skip(0));
    }
}

/// `trim_ws_end` returns a prefix of its argument.
pub proof fn lemma_trim_ws_end_prefix(s: Seq<u8>)
    ensures
        exists|b: int| 0 <= b <= s.len() && trim_ws_end(s) == s.take(b),
    decreases s.len(),
{
    if s.len() > 0 && is_ws(s.last()) {
        let pre = s.take(s.len() - 1);
        lemma_trim_ws_end_prefix(pre);
        let b = choose|b: int| 0 <= b <= pre.len() && trim_ws_end(pre) == pre.take(b);
        assert(pre.take(b) =~= s.take(b));
        assert(trim_ws_end(s) == s.take(b));
    } else {
        assert(s.take(s.len() as int) =~= s);
        assert(trim_ws_end(s) == s.take(s.len() as int));
    }
}

/// Whether `s` carries no whitespace at either end.
pub open spec fn ws_trimmed(s: Seq<u8>) -> bool {
    s.len() > 0 ==> (!is_ws(s[0]) && !is_ws(s.last()))
}

/// `trim_ws_start` leaves no leading whitespace.
proof fn lemma_trim_ws_start_first(s: Seq<u8>)
    ensures
        trim_ws_start(s).len() > 0 ==> !is_ws(trim_ws_start(s)[0]),
    decreases s.len(),
{
    if s.len() > 0 && is_ws(s[0]) {
        lemma_trim_ws_start_first(s.skip(1));
    }
}

/// `trim_ws_end` leaves no trailing whitespace.
proof fn lemma_trim_ws_end_last(s: Seq<u8>)
    ensures
        trim_ws_end(s).len() > 0 ==> !is_ws(trim_ws_end(s).last()),
    decreases s.len(),
{
    if s.len() > 0 && is_ws(s.last()) {
        lemma_trim_ws_end_last(s.take(s.len() - 1));
    }
}

/// What `trimmed_ws` returns carries no whitespace at either end.
pub proof fn lemma_trimmed_ws_trimmed(s: Seq<u8>)
    ensures
        ws_trimmed(trimmed_ws(s)),
{
    let t1 = trim_ws_start(s);
    lemma_trim_ws_start_first(s);
    lemma_trim_ws_end_last(t1);
    lemma_trim_ws_end_prefix(t1);
    let b = choose|b: int| 0 <= b <= t1.len() && trim_ws_end(t1) == t1.take(b);
    if trim_ws_end(t1).len() > 0 {
        assert(trim_ws_end(t1)[0] == t1[0]);
    }
}

/// Trimming what is already trimmed changes nothing.
pub proof fn lemma_trimmed_ws_of_trimmed(s: Seq<u8>)
    requires
        ws_trimmed(s),
    ensures
        trimmed_ws(s) == s,
{
    assert(trim_ws_start(s) == s);
    assert(trim_ws_end(s) == s);
}

/// Stripping leading spaces first does not change a both-sides trim.
pub proof fn lemma_trimmed_ws_trim_spaces(s: Seq<u8>)
    ensures
        trimmed_ws(trim_spaces(s)) == trimmed_ws(s),
    decreases s.len(),
{
    if s.len() > 0 && s[0] == 32 {
        lemma_trimmed_ws_trim_spaces(s.skip(1));
        assert(trim_ws_start(s) == trim_ws_start(s.skip(1)));
    }
}

/// A single ASCII byte is valid UTF-8 on its own.
pub proof fn lemma_ascii_singleton_utf8(b: u8)
    requires
        b < 0x80,
    ensures
        vstd::utf8::valid_utf8(seq![b]),
{
    let s = seq![b];
    assert(b & 0x7f <= 0x7f) by (bit_vector);
    assert(vstd::utf8::valid_first_scalar(s));
    assert(vstd::utf8::length_of_first_scalar(s) == 1);
    assert(vstd::utf8::pop_first_scalar(s) =~= Seq::<u8>::empty());
    assert(vstd::utf8::valid_utf8(Seq::<u8>::empty()));
}

/// Trimming leading whitespace keeps a buffer valid UTF-8.
pub proof fn lemma_trim_ws_start_utf8(s: Seq<u8>)
    requires
        vstd::utf8::valid_utf8(s),
    ensures
        vstd::utf8::valid_utf8(trim_ws_start(s)),
    decreases s.len(),
{
    if s.len() > 0 && is_ws(s[0]) {
        assert(vstd::utf8::valid_first_scalar(s));
        assert(vstd::utf8::is_leading_byte_width_1(s[0]));
        assert(vstd::utf8::length_of_first_scalar(s) == 1);
        assert(vstd::utf8::pop_first_scalar(s) =~= s.skip(1));
        assert(vstd::utf8::valid_utf8(s.skip(1)));
        lemma_trim_ws_start_utf8(s.skip(1));
    }
}

/// Trimming trailing whitespace keeps a buffer valid UTF-8.
pub proof fn lemma_trim_ws_end_utf8(s: Seq<u8>)
    requires
        vstd::utf8::valid_utf8(s),
    ensures
        vstd::utf8::valid_utf8(trim_ws_end(s)),
    decreases s.len(),
{
    if s.len() > 0 && is_ws(s.last()) {
        assert(!vstd::utf8::is_continuation_byte(s.last()));
        vstd::utf8::is_char_boundary_iff_not_is_continuation_byte(s, s.len() - 1);
        vstd::utf8::valid_utf8_split(s, s.len() - 1);
        assert(s.subrange(0, s.len() - 1) =~= s.take(s.len() - 1));
        lemma_trim_ws_end_utf8(s.take(s.len() - 1));
    }
}

/// Trimming whitespace at both ends keeps a buffer valid UTF-8.
pub proof fn lemma_trimmed_ws_utf8(s: Seq<u8>)
    requires
        vstd::utf8::valid_utf8(s),
    ensures
        vstd::utf8::valid_utf8(trimmed_ws(s)),
{
    lemma_trim_ws_start_utf8(s);
    lemma_trim_ws_end_utf8(trim_ws_start(s));
}

/// Examines the scalar encoding that starts at `buf[i]`. Returns the byte
/// length of a well-formed UTF-8 scalar there, or `None` when the bytes at
/// `i` do not begin a well-formed scalar.
fn scalar_len_at(buf: &[u8], i: usize) -> (r: Option<usize>)
    requires
        i < buf@.len(),
    ensures
        ({
            let s = buf@.skip(i as int);
            match r {
                Some(l) => vstd::utf8::valid_first_scalar(s) && l
                    == vstd::utf8::length_of_first_scalar(s) && i + l <= buf@.len(),
                None => !vstd::utf8::valid_first_scalar(s),
            }
        }),
{
    let ghost s = buf@.skip(i as int);
    let n = buf.len();
    let b0 = buf[i];
    assert(s[0] == b0);
    assert(s.len() == n - i);
    if b0 < 0x80 {
        proof {
            assert(b0 & 0x7f <= 0x7f) by (bit_vector);
        }
        return Some(1);
    }
    if b0 < 0xc2 {
        // a continuation byte in lead position, or an overlong 2-byte form
        proof {
            if vstd::utf8::valid_first_scalar(s) {
                if vstd::utf8::is_leading_byte_width_2(b0) {
                    let c1 = s[1];
                    assert((((b0 & 0x1f) as u32) << 6) | ((c1 & 0x3f) as u32) <= 0x7f)
                        by (bit_vector)
                        requires
                            0xc0 <= b0 <= 0xc1,
                    ;
                }
            }
        }
        return None;
    }
    if b0 <= 0xdf {
        if i + 1 >= n {
            return None;
        }
        let c1 = buf[i + 1];
        assert(s[1] == c1);
        if c1 < 0x80 || c1 > 0xbf {
            return None;
        }
        proof {
            assert(0x80 <= (((b0 & 0x1f) as u32) << 6) | ((c1 & 0x3f) as u32) && ((((b0
                & 0x1f) as u32) << 6) | ((c1 & 0x3f) as u32)) <= 0x7ff)
                by (bit_vector)
                requires
                    0xc2 <= b0 <= 0xdf,
            ;
        }
        return Some(2);
    }
    if b0 <= 0xef {
        if n - i < 3 {
            return None;
        }
        let c1 = buf[i + 1];
        let c2 = buf[i + 2];
        assert(s[1] == c1 && s[2] == c2);
        let c1_ok: bool = if b0 == 0xe0 {
            0xa0 <= c1 && c1 <= 0xbf
        } else if b0 == 0xed {
            0x80 <= c1 && c1 <= 0x9f
        } else {
            0x80 <= c1 && c1 <= 0xbf
        };
        if !c1_ok || c2 < 0x80 || c2 > 0xbf {
            proof {
                if vstd::utf8::valid_first_scalar(s) {
                    let cp = (((b0 & 0x0f) as u32) << 12) | (((c1 & 0x3f) as u32) << 6) | ((c2
                        & 0x3f) as u32);
                    if b0 == 0xe0 {
                        assert(cp <= 0x7ff) by (bit_vector)
                            requires
                                b0 == 0xe0,
                                0x80 <= c1 <= 0x9f,
                                cp == (((b0 & 0x0f) as u32) << 12) | (((c1 & 0x3f) as u32) << 6) | (
                                (c2 & 0x3f) as u32),
                        ;
                    } else if b0 == 0xed {
                        assert(0xd800 <= cp <= 0xdfff) by (bit_vector)
                            requires
                                b0 == 0xed,
                                0xa0 <= c1 <= 0xbf,
                                cp == (((b0 & 0x0f) as u32) << 12) | (((c1 & 0x3f) as u32) << 6) | (
                                (c2 & 0x3f) as u32),
                        ;
                    }
                }
            }
            return None;
        }
        proof {
            let cp = (((b0 & 0x0f) as u32) << 12) | (((c1 & 0x3f) as u32) << 6) | ((c2
                & 0x3f) as u32);
            if b0 == 0xe0 {
                assert(0x800 <= cp <= 0xfff) by (bit_vector)
                    requires
                        b0 == 0xe0,
                        0xa0 <= c1 <= 0xbf,
                        cp == (((b0 & 0x0f) as u32) << 12) | (((c1 & 0x3f) as u32) << 6) | ((c2
                        & 0x3f) as u32),
                ;
            } else if b0 == 0xed {
                assert(0x800 <= cp <= 0xd7ff) by (bit_vector)
                    requires
                        b0 == 0xed,
                        0x80 <= c1 <= 0x9f,
                        cp == (((b0 & 0x0f) as u32) << 12) | (((c1 & 0x3f) as u32) << 6) | ((c2
                        & 0x3f) as u32),
                ;
            } else {
                assert(0x800 <= cp && (cp < 0xd800 || cp > 0xdfff)) by (bit_vector)
                    requires
                        0xe1 <= b0 <= 0xef && b0 != 0xed,
                        0x80 <= c1 <= 0xbf,
                        cp == (((b0 & 0x0f) as u32) << 12) | (((c1 & 0x3f) as u32) << 6) | ((c2
                        & 0x3f) as u32),
                ;
            }
        }
        return Some(3);
    }
    if b0 <= 0xf4 {
        if n - i < 4 {
            return None;
        }
        let c1 = buf[i + 1];
        let c2 = buf[i + 2];
        let c3 = buf[i + 3];
        assert(s[1] == c1 && s[2] == c2 && s[3] == c3);
        let c1_ok: bool = if b0 == 0xf0 {
            0x90 <= c1 && c1 <= 0xbf
        } else if b0 == 0xf4 {
            0x80 <= c1 && c1 <= 0x8f
        } else {
            0x80 <= c1 && c1 <= 0xbf
        };
        if !c1_ok || c2 < 0x80 || c2 > 0xbf || c3 < 0x80 || c3 > 0xbf {
            proof {
                if vstd::utf8::valid_first_scalar(s) {
                    let cp = (((b0 & 0x07) as u32) << 18) | (((c1 & 0x3f) as u32) << 12) | (((c2
                        & 0x3f) as u32) << 6) | ((c3 & 0x3f) as u32);
                    if b0 == 0xf0 {
                        assert(cp <= 0xffff) by (bit_vector)
                            requires
                                b0 == 0xf0,
                                0x80 <= c1 <= 0x8f,
                                cp == (((b0 & 0x07) as u32) << 18) | (((c1 & 0x3f) as u32) << 12)
                                    | (((c2 & 0x3f) as u32) << 6) | ((c3 & 0x3f) as u32),
                        ;
                    } else if b0 == 0xf4 {
                        assert(cp >= 0x110000) by (bit_vector)
                            requires
                                b0 == 0xf4,
                                0x90 <= c1 <= 0xbf,
                                cp == (((b0 & 0x07) as u32) << 18) | (((c1 & 0x3f) as u32) << 12)
                                    | (((c2 & 0x3f) as u32) << 6) | ((c3 & 0x3f) as u32),
                        ;
                    }
                }
            }
            return None;
        }
        proof {
            let cp = (((b0 & 0x07) as u32) << 18) | (((c1 & 0x3f) as u32) << 12) | (((c2
                & 0x3f) as u32) << 6) | ((c3 & 0x3f) as u32);
            if b0 == 0xf0 {
                assert(0x10000 <= cp <= 0x3ffff) by (bit_vector)
                    requires
                        b0 == 0xf0,
                        0x90 <= c1 <= 0xbf,
                        cp == (((b0 & 0x07) as u32) << 18) | (((c1 & 0x3f) as u32) << 12) | (((c2
                        & 0x3f) as u32) << 6) | ((c3 & 0x3f) as u32),
                ;
            } else if b0 == 0xf4 {
                assert(0x100000 <= cp <= 0x10ffff) by (bit_vector)
                    requires
                        b0 == 0xf4,
                        0x80 <= c1 <= 0x8f,
                        cp == (((b0 & 0x07) as u32) << 18) | (((c1 & 0x3f) as u32) << 12) | (((c2
                        & 0x3f) as u32) << 6) | ((c3 & 0x3f) as u32),
                ;
            } else {
                assert(0x40000 <= cp <= 0xfffff) by (bit_vector)
                    requires
                        0xf1 <= b0 <= 0xf3,
                        0x80 <= c1 <= 0xbf,
                        cp == (((b0 & 0x07) as u32) << 18) | (((c1 & 0x3f) as u32) << 12) | (((c2
                        & 0x3f) as u32) << 6) | ((c3 & 0x3f) as u32),
                ;
            }
        }
        return Some(4);
    }
    // 0xf5..0xf7 would encode past the last scalar value; 0xf8.. is no lead byte
    proof {
        if vstd::utf8::valid_first_scalar(s) {
            if vstd::utf8::is_leading_byte_width_4(b0) {
                let c1 = s[1];
                let c2 = s[2];
                let c3 = s[3];
                let cp = (((b0 & 0x07) as u32) << 18) | (((c1 & 0x3f) as u32) << 12) | (((c2
                    & 0x3f) as u32) << 6) | ((c3 & 0x3f) as u32);
                assert(cp >= 0x140000) by (bit_vector)
                    requires
                        0xf5 <= b0 <= 0xf7,
                        cp == (((b0 & 0x07) as u32) << 18) | (((c1 & 0x3f) as u32) << 12) | (((c2
                        & 0x3f) as u32) << 6) | ((c3 & 0x3f) as u32),
                ;
            }
        }
    }
    None
}

/// Whether `buf` is a well-formed UTF-8 encoding.
pub fn check_utf8(buf: &[u8]) -> (r: bool)
    ensures
        r == vstd::utf8::valid_utf8(buf@),
{
    let n = buf.len();
    let mut i: usize = 0;
    proof {
        assert(buf@.subrange(0, 0) =~= Seq::<u8>::empty());
    }
    while i < n
        invariant
            0 <= i <= n,
            n == buf@.len(),
            vstd::utf8::partial_valid_utf8(buf@, i as int),
        decreases n - i,
    {
        let ghost s = buf@.skip(i as int);
        assert(s =~= buf@.subrange(i as int, n as int));
        match scalar_len_at(buf, i) {
            Some(l) => {
                proof {
                    vstd::utf8::partial_valid_utf8_extend(buf@, i as int);
                }
                i = i + l;
            },
            None => {
                proof {
                    assert(!vstd::utf8::valid_utf8(s));
                    vstd::utf8::partial_valid_partial_invalid_utf8(buf@, i as int);
                }
                return false;
            },
        }
    }
    proof {
        assert(buf@.subrange(0, n as int) =~= buf@);
    }
    true
}

/// Whether two byte buffers hold the same bytes.
pub fn bytes_eq(a: &[u8], b: &[u8]) -> (r: bool)
    ensures
        r == (a@ == b@),
{
    let n = a.len();
    if n != b.len() {
        return false;
    }
    let mut i: usize = 0;
    while i < n
        invariant
            0 <= i <= n,
            n == a@.len() == b@.len(),
            forall|k: int| 0 <= k < i ==> a@[k] == b@[k],
        decreases n - i,
    {
        if a[i] != b[i] {
            return false;
        }
        i = i + 1;
    }
    proof {
        assert(a@ =~= b@);
    }
    true
}

} // verus!
