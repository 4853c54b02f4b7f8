//! Scopes: a variable is either global or bound to a directory, and a
//! directory scope applies to every working directory below it.
//!
//! Paths are handled exactly as given, as strings; resolving symlinks or
//! relative paths is the caller's concern, done before a path reaches the
//! store. A path `a` counts as an ancestor of `b` when `a` is a prefix of
//! `b` that ends on a component boundary, so `/proj` is an ancestor of
//! `/proj/sub` and of `/proj`, but not of `/projx`.

use vstd::prelude::*;

verus! {

/// The visibility domain of a variable: everywhere, or below one directory.
#[derive(Debug)]
pub enum Scope {
    Global,
    Dir(String),
}

/// The mathematical shape of a `Scope`: the directory as a character sequence.
pub enum ScopeView {
    Global,
    Dir(Seq<char>),
}

impl View for Scope {
    type V = ScopeView;

    open spec fn view(&self) -> ScopeView {
        match self {
            Scope::Global => ScopeView::Global,
            Scope::Dir(p) => ScopeView::Dir(p@),
        }
    }
}

/// `a` is a path-component prefix of `b`: every character of `a` matches,
/// and the match ends at a component boundary of `b`.
pub open spec fn is_ancestor_of(a: Seq<char>, b: Seq<char>) -> bool {
    &&& a.len() <= b.len()
    &&& b.take(a.len() as int) == a
    &&& (a.len() == b.len() || b[a.len() as int] == '/' || (a.len() > 0 && a[a.len()
        - 1] == '/'))
}

/// Whether a scope contributes variables to the view from `pwd`.
pub open spec fn scope_applies(s: ScopeView, pwd: Seq<char>) -> bool {
    match s {
        ScopeView::Global => true,
        ScopeView::Dir(d) => is_ancestor_of(d, pwd),
    }
}

/// Whether directory `a` is an ancestor of directory `b` (`a == b` counts).
pub fn is_ancestor(a: &str, b: &str) -> (r: bool)
    ensures
        r == is_ancestor_of(a@, b@),
{
    let alen = a.unicode_len();
    let blen = b.unicode_len();
    if alen > blen {
        return false;
    }
    let mut i: usize = 0;
    while i < alen
        invariant
            0 <= i <= alen,
            alen == a@.len(),
            blen == b@.len(),
            alen <= blen,
            forall|j: int| 0 <= j < i ==> a@[j] == b@[j],
        decreases alen - i,
    {
        if a.get_char(i) != b.get_char(i) {
            proof {
                assert(b@.take(alen as int)[i as int] == b@[i as int]);
            }
            return false;
        }
        i = i + 1;
    }
    proof {
        assert(b@.take(alen as int) =~= a@);
    }
    if alen == blen {
        return true;
    }
    if b.get_char(alen) == '/' {
        return true;
    }
    alen > 0 && a.get_char(alen - 1) == '/'
}

/// Components of the suffix of `p` that starts at `i`: positions at or past
/// `i` where a path component begins.
pub open spec fn depth_from(p: Seq<char>, i: int) -> nat
    decreases p.len() - i,
{
    if i < 0 || i >= p.len() {
        0
    } else {
        (if p[i] != '/' && (i == 0 || p[i - 1] == '/') {
            1nat
        } else {
            0nat
        }) + depth_from(p, i + 1)
    }
}

/// How many path components `p` has: `/proj/sub` has two, `/` has none.
/// A deeper directory scope wins over a shallower one.
pub open spec fn path_depth(p: Seq<char>) -> nat {
    depth_from(p, 0)
}

/// Counts the path components of `p`.
pub fn path_component_count(p: &str) -> (r: usize)
    ensures
        r == path_depth(p@),
{
    let len = p.unicode_len();
    let mut i: usize = len;
    let mut r: usize = 0;
    while i > 0
        invariant
            0 <= i <= len,
            len == p@.len(),
            r == depth_from(p@, i as int),
            r <= len - i,
        decreases i,
    {
        i = i - 1;
        let c = p.get_char(i);
        if c != '/' && (i == 0 || p.get_char(i - 1) == '/') {
            r = r + 1;
        }
    }
    r
}

} // verus!
