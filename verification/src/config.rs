//! Run-time configuration: the blacklists and the redirect table, plus the
//! values the surrounding process needs (port, log path, verbosity, worker
//! count). The configuration is built once at start and read-only after;
//! host names and IP literals are kept as raw bytes, matched exactly.

use vstd::prelude::*;

use crate::bytes::{bytes_eq, views};

verus! {

/// A host-redirection rule: requests whose host equals `from` are rewritten
/// to go to `to` instead.
pub struct Redirect {
    pub from: Vec<u8>,
    pub to: Vec<u8>,
}

/// Mathematical view of a `Redirect`.
pub ghost struct RedirectModel {
    pub from: Seq<u8>,
    pub to: Seq<u8>,
}

impl View for Redirect {
    type V = RedirectModel;

    open spec fn view(&self) -> RedirectModel {
        RedirectModel { from: self.from@, to: self.to@ }
    }
}

/// The filter section: blocked destination host names and blocked source IP
/// literals, each matched by exact byte comparison.
pub struct Filter {
    pub website: Vec<Vec<u8>>,
    pub ip: Vec<Vec<u8>>,
}

/// The whole configuration.
pub struct Config {
    pub port: String,
    pub log: String,
    pub verbose: bool,
    pub thread: usize,
    pub filter: Filter,
    pub redirect: Vec<Redirect>,
}

/// The views of a redirect table.
pub open spec fn redirect_views(rs: Seq<Redirect>) -> Seq<RedirectModel> {
    rs.map_values(|r: Redirect| r@)
}

/// Whether `x` occurs in the list `l`.
pub open spec fn in_list(l: Seq<Seq<u8>>, x: Seq<u8>) -> bool {
    exists|i: int| 0 <= i < l.len() && l[i] == x
}

/// The `to` host of the first rule whose `from` equals `host`, scanning in
/// order, or `None` when no rule matches.
pub open spec fn first_redirect(rules: Seq<RedirectModel>, host: Seq<u8>) -> Option<Seq<u8>>
    decreases rules.len(),
{
    if rules.len() == 0 {
        None
    } else if rules[0].from == host {
        Some(rules[0].to)
    } else {
        first_redirect(rules.skip(1), host)
    }
}

/// Whether `x` occurs in `l`, by exact byte comparison.
pub fn list_contains(l: &Vec<Vec<u8>>, x: &[u8]) -> (r: bool)
    ensures
        r == in_list(views(l@), x@),
{
    let n = l.len();
    let mut i: usize = 0;
    while i < n
        invariant
            0 <= i <= n,
            n == l@.len(),
            forall|k: int| 0 <= k < i ==> views(l@)[k] != x@,
        decreases n - i,
    {
        if bytes_eq(l[i].as_slice(), x) {
            assert(views(l@)[i as int] == x@);
            return true;
        }
        assert(views(l@)[i as int] != x@);
        i = i + 1;
    }
    false
}

/// The `to` host of the first matching redirect rule, or `None`.
pub fn find_redirect(rules: &Vec<Redirect>, host: &[u8]) -> (r: Option<Vec<u8>>)
    ensures
        match r {
            Some(to) => first_redirect(redirect_views(rules@), host@) == Some(to@),
            None => first_redirect(redirect_views(rules@), host@) is None,
        },
{
    let ghost rviews = redirect_views(rules@);
    let n = rules.len();
    let mut i: usize = 0;
    assert(rviews.skip(0) =~= rviews);
    while i < n
        invariant
            0 <= i <= n,
            n == rules@.len(),
            rviews == redirect_views(rules@),
            first_redirect(rviews, host@) == first_redirect(rviews.skip(i as int), host@),
        decreases n - i,
    {
        assert(rviews.skip(i as int)[0] == rviews[i as int]);
        if bytes_eq(rules[i].from.as_slice(), host) {
            let to = vstd::slice::slice_to_vec(rules[i].to.as_slice());
            return Some(to);
        }
        assert(rviews.skip(i as int).skip(1) =~= rviews.skip(i + 1));
        i = i + 1;
    }
    assert(rviews.skip(n as int).len() == 0);
    None
}

} // verus!
