//! Parsing `.env`-style text into key/value pairs: one `KEY=VALUE` per
//! line, blank lines and `#` comments skipped, an optional `export ` prefix
//! dropped, names and values trimmed, and one pair of surrounding quotes
//! stripped from a value. Whitespace here is the ASCII kind: space, tab,
//! carriage return, newline, vertical tab and form feed.

use vstd::prelude::*;
use crate::script::{is_valid_key, valid_key};

verus! {

/// ASCII whitespace.
pub open spec fn is_space(c: char) -> bool {
    c == ' ' || c == '\t' || c == '\r' || c == '\n' || c == '\u{b}' || c == '\u{c}'
}

/// `s` without leading whitespace.
pub open spec fn trim_front(s: Seq<char>) -> Seq<char>
    decreases s.len(),
{
    if s.len() > 0 && is_space(s[0]) {
        trim_front(s.skip(1))
    } else {
        s
    }
}

/// `s` without trailing whitespace.
pub open spec fn trim_back(s: Seq<char>) -> Seq<char>
    decreases s.len(),
{
    if s.len() > 0 && is_space(s.last()) {
        trim_back(s.drop_last())
    } else {
        s
    }
}

/// `s` without surrounding whitespace.
pub open spec fn trimmed(s: Seq<char>) -> Seq<char> {
    trim_back(trim_front(s))
}

/// The position of the first `c` in `s`, or the length when there is none.
pub open spec fn find_idx(s: Seq<char>, c: char) -> int
    decreases s.len(),
{
    if s.len() == 0 {
        0
    } else if s[0] == c {
        0
    } else {
        1 + find_idx(s.skip(1), c)
    }
}

/// Where the first `c` stands: nothing before it matches, and it matches
/// unless `s` has no `c` at all.
pub proof fn lemma_find_idx(s: Seq<char>, c: char)
    ensures
        0 <= find_idx(s, c) <= s.len(),
        forall|j: int| 0 <= j < find_idx(s, c) ==> s[j] != c,
        find_idx(s, c) < s.len() ==> s[find_idx(s, c)] == c,
    decreases s.len(),
{
    if s.len() > 0 && s[0] != c {
        lemma_find_idx(s.skip(1), c);
        assert(forall|j: int| 0 <= j < find_idx(s.skip(1), c) ==> s.skip(1)[j] != c);
        assert(forall|j: int| 1 <= j < find_idx(s, c) ==> s[j] == s.skip(1)[j - 1]);
    }
}

/// Trimming the front removes exactly the leading run of whitespace.
proof fn lemma_trim_front_at(s: Seq<char>, lo: int)
    requires
        0 <= lo <= s.len(),
        forall|j: int| 0 <= j < lo ==> is_space(#[trigger] s[j]),
        lo < s.len() ==> !is_space(s[lo]),
    ensures
        trim_front(s) == s.skip(lo),
    decreases lo,
{
    if lo == 0 {
        assert(s.skip(0) =~= s);
    } else {
        assert(is_space(s[0]));
        assert(forall|j: int| 0 <= j < lo - 1 ==> s.skip(1)[j] == s[j + 1]);
        lemma_trim_front_at(s.skip(1), lo - 1);
        assert(s.skip(1).skip(lo - 1) =~= s.skip(lo));
    }
}

/// Trimming the back removes exactly the trailing run of whitespace.
proof fn lemma_trim_back_at(s: Seq<char>, hi: int)
    requires
        0 <= hi <= s.len(),
        forall|j: int| hi <= j < s.len() ==> is_space(#[trigger] s[j]),
        hi > 0 ==> !is_space(s[hi - 1]),
    ensures
        trim_back(s) == s.take(hi),
    decreases s.len() - hi,
{
    if hi == s.len() {
        assert(s.take(hi) =~= s);
        if s.len() > 0 {
            assert(!is_space(s.last()));
        }
    } else {
        assert(is_space(s.last()));
        assert(forall|j: int| hi <= j < s.len() - 1 ==> s.drop_last()[j] == s[j]);
        lemma_trim_back_at(s.drop_last(), hi);
        assert(s.drop_last().take(hi) =~= s.take(hi));
    }
}

/// Whether `c` is ASCII whitespace.
fn is_space_char(c: char) -> (r: bool)
    ensures
        r == is_space(c),
{
    c == ' ' || c == '\t' || c == '\r' || c == '\n' || c == '\u{b}' || c == '\u{c}'
}

/// `s` without surrounding ASCII whitespace.
pub fn trim_slice<'a>(s: &'a str) -> (r: &'a str)
    ensures
        r@ == trimmed(s@),
{
    let n = s.unicode_len();
    let mut lo: usize = 0;
    while lo < n
        invariant
            0 <= lo <= n,
            n == s@.len(),
            forall|j: int| 0 <= j < lo ==> is_space(#[trigger] s@[j]),
        ensures
            0 <= lo <= n,
            forall|j: int| 0 <= j < lo ==> is_space(#[trigger] s@[j]),
            lo < n ==> !is_space(s@[lo as int]),
        decreases n - lo,
    {
        if !is_space_char(s.get_char(lo)) {
            break;
        }
        lo = lo + 1;
    }
    let mut hi: usize = n;
    while hi > lo
        invariant
            lo <= hi <= n,
            n == s@.len(),
            forall|j: int| hi <= j < n ==> is_space(#[trigger] s@[j]),
        ensures
            lo <= hi <= n,
            forall|j: int| hi <= j < n ==> is_space(#[trigger] s@[j]),
            hi > lo ==> !is_space(s@[hi - 1]),
        decreases hi,
    {
        if !is_space_char(s.get_char(hi - 1)) {
            break;
        }
        hi = hi - 1;
    }
    let r = s.substring_char(lo, hi);
    proof {
        lemma_trim_front_at(s@, lo as int);
        let t = s@.skip(lo as int);
        assert(forall|j: int| hi - lo <= j < t.len() ==> t[j] == s@[j + lo]);
        if hi > lo {
            assert(t[hi - lo - 1] == s@[hi - 1]);
        }
        lemma_trim_back_at(t, hi - lo);
        assert(t.take(hi - lo) =~= s@.subrange(lo as int, hi as int));
    }
    r
}

/// The value with one pair of surrounding quotes (single or double)
/// stripped; anything else, a lone quote included, stays as it is.
pub open spec fn strip_quotes_spec(v: Seq<char>) -> Seq<char> {
    if v.len() >= 2 && ((v[0] == '"' && v.last() == '"') || (v[0] == '\'' && v.last() == '\'')) {
        v.subrange(1, v.len() - 1)
    } else {
        v
    }
}

/// Strips one pair of surrounding quotes from a value, if both are there.
pub fn strip_quotes(s: &str) -> (r: String)
    ensures
        r@ == strip_quotes_spec(s@),
{
    let n = s.unicode_len();
    if n >= 2 {
        let first = s.get_char(0);
        let last = s.get_char(n - 1);
        if (first == '"' && last == '"') || (first == '\'' && last == '\'') {
            return s.substring_char(1, n - 1).to_owned();
        }
    }
    s.to_owned()
}

/// The line with a leading `export ` dropped.
pub open spec fn strip_export(t: Seq<char>) -> Seq<char> {
    if t.len() >= 7 && t.take(7) == "export "@ {
        t.skip(7)
    } else {
        t
    }
}

/// What one line of `.env` text means.
pub enum LineParse {
    /// Nothing: empty after trimming, or a `#` comment.
    Blank,
    /// One key/value pair.
    Entry(Seq<char>, Seq<char>),
    /// A `KEY=VALUE` shape whose key is no valid variable name.
    BadKey,
    /// No `=` at all.
    NoEquals,
}

/// Parses one line: trim, skip blanks and comments, drop `export `, split at
/// the first `=`, trim both sides, unquote the value, check the key.
pub open spec fn parse_line(l: Seq<char>) -> LineParse {
    let t = trimmed(l);
    if t.len() == 0 || t[0] == '#' {
        LineParse::Blank
    } else {
        let u = strip_export(t);
        let i = find_idx(u, '=');
        if i == u.len() {
            LineParse::NoEquals
        } else {
            let k = trimmed(u.take(i));
            let v = strip_quotes_spec(trimmed(u.skip(i + 1)));
            if valid_key(k) {
                LineParse::Entry(k, v)
            } else {
                LineParse::BadKey
            }
        }
    }
}

/// The lines of `s`: pieces between newlines, with no extra empty line when
/// `s` ends in a newline.
pub open spec fn split_lines(s: Seq<char>) -> Seq<Seq<char>>
    decreases s.len(),
    via split_lines_decreases
{
    if s.len() == 0 {
        Seq::empty()
    } else {
        let i = find_idx(s, '\n');
        if i == s.len() {
            seq![s]
        } else {
            seq![s.take(i)] + split_lines(s.skip(i + 1))
        }
    }
}

#[via_fn]
proof fn split_lines_decreases(s: Seq<char>) {
    lemma_find_idx(s, '\n');
}

/// Why a parse failed, and on which (1-based) line.
pub enum DotenvIssue {
    BadKey(int),
    BadLine(int),
}

/// Parses lines in order, numbering them from `no`: the entries of the
/// `Entry` lines, or the issue of the first bad line.
pub open spec fn parse_lines_spec(lines: Seq<Seq<char>>, no: int) -> Result<
    Seq<(Seq<char>, Seq<char>)>,
    DotenvIssue,
>
    decreases lines.len(),
{
    if lines.len() == 0 {
        Ok(Seq::empty())
    } else {
        match parse_line(lines[0]) {
            LineParse::Blank => parse_lines_spec(lines.skip(1), no + 1),
            LineParse::Entry(k, v) => match parse_lines_spec(lines.skip(1), no + 1) {
                Ok(rest) => Ok(seq![(k, v)] + rest),
                Err(e) => Err(e),
            },
            LineParse::BadKey => Err(DotenvIssue::BadKey(no)),
            LineParse::NoEquals => Err(DotenvIssue::BadLine(no)),
        }
    }
}

/// What a whole `.env` text means: its entries in order, or the first
/// failure.
pub open spec fn parse_dotenv_spec(s: Seq<char>) -> Result<
    Seq<(Seq<char>, Seq<char>)>,
    DotenvIssue,
> {
    parse_lines_spec(split_lines(s), 1)
}

/// A rejected `.env` line, numbered from one.
#[derive(Debug)]
pub enum DotenvError {
    /// The key before the `=` is no valid variable name.
    InvalidKey { line: usize },
    /// The line has no `=`.
    InvalidLine { line: usize },
}

/// The issue a `DotenvError` reports.
pub open spec fn issue_of(e: DotenvError) -> DotenvIssue {
    match e {
        DotenvError::InvalidKey { line } => DotenvIssue::BadKey(line as int),
        DotenvError::InvalidLine { line } => DotenvIssue::BadLine(line as int),
    }
}

/// The views of a sequence of key/value pairs.
pub open spec fn pairs_view(v: Seq<(String, String)>) -> Seq<(Seq<char>, Seq<char>)> {
    v.map_values(|p: (String, String)| (p.0@, p.1@))
}

/// The position of the first `c` at or after `from` in `s`, or the length.
pub(crate) fn find_char_from(s: &str, c: char, from: usize) -> (r: usize)
    requires
        from <= s@.len(),
    ensures
        from <= r <= s@.len(),
        forall|j: int| from <= j < r ==> s@[j] != c,
        r < s@.len() ==> s@[r as int] == c,
    decreases s@.len() - from,
{
    let n = s.unicode_len();
    let mut i: usize = from;
    while i < n
        invariant
            from <= i <= n,
            n == s@.len(),
            forall|j: int| from <= j < i ==> s@[j] != c,
        ensures
            from <= i <= n,
            forall|j: int| from <= j < i ==> s@[j] != c,
            i < n ==> s@[i as int] == c,
        decreases n - i,
    {
        if s.get_char(i) == c {
            break;
        }
        i = i + 1;
    }
    i
}

/// Parses `.env`-style text into its key/value pairs, in order. Rejects the
/// first line that has no `=`, or whose key is no valid variable name, and
/// reports its 1-based number.
pub fn parse_dotenv(s: &str) -> (r: Result<Vec<(String, String)>, DotenvError>)
    ensures
        match r {
            Ok(entries) => parse_dotenv_spec(s@) == Ok::<_, DotenvIssue>(pairs_view(entries@)),
            Err(e) => parse_dotenv_spec(s@) == Err::<Seq<(Seq<char>, Seq<char>)>, _>(issue_of(e)),
        },
{
    let n = s.unicode_len();
    let mut out: Vec<(String, String)> = Vec::new();
    let mut pos: usize = 0;
    let mut lineno: usize = 0;
    proof {
        assert(s@.skip(0) =~= s@);
        match parse_lines_spec(split_lines(s@), 1) {
            Ok(rest) => {
                assert(pairs_view(out@) + rest =~= rest);
            },
            Err(_) => {},
        }
    }
    while pos < n
        invariant
            0 <= pos <= n,
            n == s@.len(),
            lineno <= pos,
            parse_dotenv_spec(s@) == (match parse_lines_spec(
                split_lines(s@.skip(pos as int)),
                lineno + 1,
            ) {
                Ok(rest) => Ok::<Seq<(Seq<char>, Seq<char>)>, DotenvIssue>(
                    pairs_view(out@) + rest,
                ),
                Err(e) => Err(e),
            }),
        decreases n - pos,
    {
        let ghost tail = s@.skip(pos as int);
        let end = find_char_from(s, '\n', pos);
        let line = s.substring_char(pos, end);
        proof {
            lemma_find_idx(tail, '\n');
            assert(forall|j: int| 0 <= j < tail.len() ==> tail[j] == s@[j + pos]);
            let f = find_idx(tail, '\n');
            assert(f == end - pos) by {
                if f < end - pos {
                    assert(s@[f + pos] != '\n');
                    assert(tail[f] == s@[f + pos]);
                } else if f > end - pos {
                    assert(tail[end - pos] == '\n');
                }
            }
            assert(line@ =~= tail.take(end - pos));
            if end == n {
                assert(line@ =~= tail);
                assert(split_lines(tail) == seq![line@]);
            } else {
                assert(split_lines(tail) == seq![line@] + split_lines(tail.skip(end - pos + 1)));
                assert(tail.skip(end - pos + 1) =~= s@.skip(end + 1int));
            }
        }
        let ghost rest_lines = if end == n {
            Seq::<Seq<char>>::empty()
        } else {
            split_lines(s@.skip(end + 1int))
        };
        proof {
            assert(split_lines(tail) == seq![line@] + rest_lines) by {
                if end == n {
                    assert(seq![line@] + rest_lines =~= seq![line@]);
                }
            }
            assert((seq![line@] + rest_lines).skip(1) =~= rest_lines);
            assert((seq![line@] + rest_lines)[0] == line@);
        }
        let t = trim_slice(line);
        let tn = t.unicode_len();
        let blank = tn == 0 || t.get_char(0) == '#';
        if !blank {
            let u = if tn >= 7 && crate::strutil::str_eq(t.substring_char(0, 7), "export ") {
                t.substring_char(7, tn)
            } else {
                t
            };
            proof {
                assert(t@.subrange(0, 7int) =~= t@.take(7)) by {
                    if tn >= 7 {
                    }
                }
                assert(u@ == strip_export(t@)) by {
                    if tn >= 7 {
                        assert(t@.subrange(7int, t@.len() as int) =~= t@.skip(7));
                    }
                }
            }
            let un = u.unicode_len();
            let eq = find_char_from(u, '=', 0);
            proof {
                lemma_find_idx(u@, '=');
                let f = find_idx(u@, '=');
                assert(f == eq) by {
                    if f < eq {
                        assert(u@[f] != '=');
                    } else if f > eq {
                        assert(u@[eq as int] == '=');
                    }
                }
            }
            if eq == un {
                proof {
                    assert(parse_line(line@) == LineParse::NoEquals);
                }
                return Err(DotenvError::InvalidLine { line: lineno + 1 });
            }
            let kpart = u.substring_char(0, eq);
            let key = trim_slice(kpart);
            let vpart = u.substring_char(eq + 1, un);
            let vtrim = trim_slice(vpart);
            let val = strip_quotes(vtrim);
            proof {
                assert(kpart@ =~= u@.take(eq as int));
                assert(vpart@ =~= u@.skip(eq + 1int));
            }
            if !is_valid_key(key) {
                proof {
                    assert(parse_line(line@) == LineParse::BadKey);
                }
                return Err(DotenvError::InvalidKey { line: lineno + 1 });
            }
            proof {
                assert(parse_line(line@) == LineParse::Entry(key@, val@));
            }
            let ghost out0 = out@;
            out.push((key.to_owned(), val));
            proof {
                assert(pairs_view(out@) =~= pairs_view(out0).push((key@, val@)));
                match parse_lines_spec(rest_lines, lineno + 2int) {
                    Ok(rest) => {
                        assert(pairs_view(out0) + (seq![(key@, val@)] + rest) =~= pairs_view(out@)
                            + rest);
                    },
                    Err(_) => {},
                }
            }
        } else {
            proof {
                assert(parse_line(line@) == LineParse::Blank);
            }
        }
        if end == n {
            pos = n;
            proof {
                assert(s@.skip(n as int) =~= Seq::<char>::empty());
                assert(split_lines(s@.skip(n as int)) =~= Seq::<Seq<char>>::empty());
            }
        } else {
            pos = end + 1;
        }
        lineno = lineno + 1;
    }
    proof {
        assert(s@.skip(pos as int) =~= Seq::<char>::empty());
        match parse_lines_spec(split_lines(s@.skip(pos as int)), lineno + 1) {
            Ok(rest) => {
                assert(pairs_view(out@) + rest =~= pairs_view(out@));
            },
            Err(_) => {},
        }
    }
    Ok(out)
}

} // verus!
