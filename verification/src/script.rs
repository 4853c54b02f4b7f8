//! Rendering an action list into a shell script: safe single-quoting of
//! values, validation of variable names, and the final statement that
//! records the new baseline generation.

use vstd::prelude::*;
use crate::shell::ShellKind;

verus! {

/// Whether `c` may start a variable name: a letter or an underscore.
pub open spec fn is_ident_start(c: char) -> bool {
    c == '_' || ('a' as u32 <= c as u32 && c as u32 <= 'z' as u32) || ('A' as u32 <= c as u32
        && c as u32 <= 'Z' as u32)
}

/// Whether `c` may continue a variable name: a letter, digit or underscore.
pub open spec fn is_ident_char(c: char) -> bool {
    is_ident_start(c) || ('0' as u32 <= c as u32 && c as u32 <= '9' as u32)
}

/// A valid variable name: nonempty, starting with a letter or underscore,
/// continuing with letters, digits and underscores.
pub open spec fn valid_key(k: Seq<char>) -> bool {
    &&& k.len() > 0
    &&& is_ident_start(k[0])
    &&& forall|i: int| 0 <= i < k.len() ==> is_ident_char(#[trigger] k[i])
}

/// Checks that `k` is a valid variable name.
pub fn is_valid_key(k: &str) -> (r: bool)
    ensures
        r == valid_key(k@),
{
    let n = k.unicode_len();
    if n == 0 {
        return false;
    }
    let first = k.get_char(0);
    if !(first == '_' || (('a' as u32) <= (first as u32) && (first as u32) <= ('z' as u32)) || ((
    'A' as u32) <= (first as u32) && (first as u32) <= ('Z' as u32))) {
        return false;
    }
    let mut i: usize = 0;
    while i < n
        invariant
            0 <= i <= n,
            n == k@.len(),
            forall|j: int| 0 <= j < i ==> is_ident_char(#[trigger] k@[j]),
        decreases n - i,
    {
        let c = k.get_char(i);
        let ok = c == '_' || (('a' as u32) <= (c as u32) && (c as u32) <= ('z' as u32)) || (('A'
            as u32) <= (c as u32) && (c as u32) <= ('Z' as u32)) || (('0' as u32) <= (c as u32) && (
        c as u32) <= ('9' as u32));
        if !ok {
            return false;
        }
        i = i + 1;
    }
    true
}

/// The body of a single-quoted rendering of `v`: every character as it is,
/// except that a single quote becomes the four characters `'\''` (close the
/// quotes, escape one quote, reopen them).
pub open spec fn quote_escaped(v: Seq<char>) -> Seq<char>
    decreases v.len(),
{
    if v.len() == 0 {
        Seq::empty()
    } else {
        (if v[0] == '\'' {
            seq!['\'', '\\', '\'', '\'']
        } else {
            seq![v[0]]
        }) + quote_escaped(v.skip(1))
    }
}

/// `v` rendered as one single-quoted shell word.
pub open spec fn sh_quoted(v: Seq<char>) -> Seq<char> {
    seq!['\''] + quote_escaped(v) + seq!['\'']
}

/// Appending one character extends the escaped body at the end.
proof fn lemma_quote_escaped_push(v: Seq<char>, c: char)
    ensures
        quote_escaped(v.push(c)) == quote_escaped(v) + (if c == '\'' {
            seq!['\'', '\\', '\'', '\'']
        } else {
            seq![c]
        }),
    decreases v.len(),
{
    let piece = if c == '\'' {
        seq!['\'', '\\', '\'', '\'']
    } else {
        seq![c]
    };
    if v.len() == 0 {
        assert(v.push(c)[0] == c);
        assert(v.push(c).skip(1) =~= Seq::<char>::empty());
        assert(quote_escaped(Seq::<char>::empty()) == Seq::<char>::empty());
        assert(quote_escaped(v.push(c)) =~= quote_escaped(v) + piece);
    } else {
        assert(v.push(c).skip(1) =~= v.skip(1).push(c));
        lemma_quote_escaped_push(v.skip(1), c);
        assert(v.push(c)[0] == v[0]);
        assert(quote_escaped(v.push(c)) =~= quote_escaped(v) + piece);
    }
}

/// Quotes `val` for a POSIX shell: wraps it in single quotes, rendering each
/// embedded single quote as `'\''`.
pub fn sh_single_quote(val: &str) -> (r: String)
    ensures
        r@ == sh_quoted(val@),
{
    let n = val.unicode_len();
    let mut out = String::new();
    out.push('\'');
    let mut i: usize = 0;
    while i < n
        invariant
            0 <= i <= n,
            n == val@.len(),
            out@ == seq!['\''] + quote_escaped(val@.take(i as int)),
        decreases n - i,
    {
        let c = val.get_char(i);
        let ghost before = val@.take(i as int);
        if c == '\'' {
            out.push('\'');
            out.push('\\');
            out.push('\'');
            out.push('\'');
        } else {
            out.push(c);
        }
        proof {
            lemma_quote_escaped_push(before, c);
            assert(val@.take(i + 1int) =~= before.push(c));
            assert(out@ =~= seq!['\''] + quote_escaped(val@.take(i + 1int)));
        }
        i = i + 1;
    }
    out.push('\'');
    proof {
        assert(val@.take(n as int) =~= val@);
        assert(out@ =~= sh_quoted(val@));
    }
    out
}

/// The meaning of a word under POSIX quoting, outside quotes, restricted to
/// the two constructs the renderer emits: a backslash escapes the next
/// character, a single quote opens a quoted segment. `None` when a quote is
/// left open or a backslash ends the word.
pub open spec fn sh_eval_unquoted(s: Seq<char>) -> Option<Seq<char>>
    decreases s.len(), 0int,
{
    if s.len() == 0 {
        Some(Seq::empty())
    } else if s[0] == '\\' {
        if s.len() < 2 {
            None
        } else {
            match sh_eval_unquoted(s.skip(2)) {
                Some(r) => Some(seq![s[1]] + r),
                None => None,
            }
        }
    } else if s[0] == '\'' {
        sh_eval_quoted(s.skip(1))
    } else {
        match sh_eval_unquoted(s.skip(1)) {
            Some(r) => Some(seq![s[0]] + r),
            None => None,
        }
    }
}

/// The meaning of the rest of a word inside single quotes: every character
/// stands for itself until the closing quote.
pub open spec fn sh_eval_quoted(s: Seq<char>) -> Option<Seq<char>>
    decreases s.len(), 1int,
{
    if s.len() == 0 {
        None
    } else if s[0] == '\'' {
        sh_eval_unquoted(s.skip(1))
    } else {
        match sh_eval_quoted(s.skip(1)) {
            Some(r) => Some(seq![s[0]] + r),
            None => None,
        }
    }
}

/// Inside quotes, an escaped body followed by the closing quote and a tail
/// evaluates to the original value followed by the tail's meaning.
proof fn lemma_quoted_eval(v: Seq<char>, t: Seq<char>)
    ensures
        sh_eval_quoted(quote_escaped(v) + seq!['\''] + t) == (match sh_eval_unquoted(t) {
            Some(r) => Some(v + r),
            None => None::<Seq<char>>,
        }),
    decreases v.len(),
{
    let s = quote_escaped(v) + seq!['\''] + t;
    if v.len() == 0 {
        assert(s =~= seq!['\''] + t);
        assert(s[0] == '\'');
        assert(s.skip(1) =~= t);
        match sh_eval_unquoted(t) {
            Some(r) => {
                assert(v + r =~= r);
            },
            None => {},
        }
    } else {
        let c = v[0];
        let v1 = v.skip(1);
        lemma_quoted_eval(v1, t);
        if c == '\'' {
            assert(s =~= seq!['\'', '\\', '\'', '\''] + (quote_escaped(v1) + seq!['\''] + t));
            assert(s[0] == '\'');
            let s1 = s.skip(1);
            assert(s1 =~= seq!['\\', '\'', '\''] + (quote_escaped(v1) + seq!['\''] + t));
            assert(s1[0] == '\\');
            assert(s1.len() >= 2);
            assert(s1[1] == '\'');
            let s2 = s1.skip(2);
            assert(s2 =~= seq!['\''] + (quote_escaped(v1) + seq!['\''] + t));
            assert(s2[0] == '\'');
            assert(s2.skip(1) =~= quote_escaped(v1) + seq!['\''] + t);
            match sh_eval_unquoted(t) {
                Some(r) => {
                    assert(sh_eval_quoted(s2.skip(1)) == Some(v1 + r));
                    assert(sh_eval_unquoted(s2) == Some(v1 + r));
                    assert(sh_eval_unquoted(s1) == Some(seq!['\''] + (v1 + r)));
                    assert(seq!['\''] + (v1 + r) =~= v + r);
                    assert(sh_eval_quoted(s) == Some(v + r));
                },
                None => {
                    assert(sh_eval_quoted(s2.skip(1)) == None::<Seq<char>>);
                },
            }
        } else {
            assert(s =~= seq![c] + (quote_escaped(v1) + seq!['\''] + t));
            assert(s[0] == c);
            assert(s.skip(1) =~= quote_escaped(v1) + seq!['\''] + t);
            match sh_eval_unquoted(t) {
                Some(r) => {
                    assert(seq![c] + (v1 + r) =~= v + r);
                },
                None => {},
            }
        }
    }
}

/// Law: a value rendered as a single-quoted word and then read back the way
/// a POSIX shell reads it is reproduced exactly, whatever quotes it holds.
pub proof fn lemma_quote_round_trip(v: Seq<char>)
    ensures
        sh_eval_unquoted(sh_quoted(v)) == Some(v),
{
    lemma_quoted_eval(v, Seq::empty());
    let s = sh_quoted(v);
    assert(s[0] == '\'');
    assert(s.skip(1) =~= quote_escaped(v) + seq!['\''] + Seq::<char>::empty());
    assert(sh_eval_unquoted(Seq::<char>::empty()) == Some(Seq::<char>::empty()));
    assert(v + Seq::<char>::empty() =~= v);
}

/// The decimal digit character for `d`.
pub open spec fn dec_digit(d: int) -> char {
    if d == 0 {
        '0'
    } else if d == 1 {
        '1'
    } else if d == 2 {
        '2'
    } else if d == 3 {
        '3'
    } else if d == 4 {
        '4'
    } else if d == 5 {
        '5'
    } else if d == 6 {
        '6'
    } else if d == 7 {
        '7'
    } else if d == 8 {
        '8'
    } else {
        '9'
    }
}

/// The decimal rendering of a nonnegative number, most significant digit
/// first, without leading zeros (a single `0` for zero).
pub open spec fn dec_str(n: int) -> Seq<char>
    decreases n,
{
    if n < 10 {
        seq![dec_digit(n)]
    } else {
        dec_str(n / 10).push(dec_digit(n % 10))
    }
}

/// The character for one digit.
fn digit_char(d: u64) -> (c: char)
    requires
        d < 10,
    ensures
        c == dec_digit(d as int),
{
    match d {
        0 => '0',
        1 => '1',
        2 => '2',
        3 => '3',
        4 => '4',
        5 => '5',
        6 => '6',
        7 => '7',
        8 => '8',
        _ => '9',
    }
}

/// Renders `n` in decimal.
pub fn u64_to_dec(n: u64) -> (r: String)
    ensures
        r@ == dec_str(n as int),
    decreases n,
{
    if n < 10 {
        let mut s = String::new();
        s.push(digit_char(n));
        proof {
            assert(s@ =~= dec_str(n as int));
        }
        s
    } else {
        let mut s = u64_to_dec(n / 10);
        s.push(digit_char(n % 10));
        s
    }
}

/// The script line one action produces: an assignment for a value, a removal
/// for an absent one; a key that is not a valid variable name is skipped.
pub open spec fn action_line(shell: ShellKind, k: Seq<char>, v: Option<Seq<char>>) -> Seq<char> {
    if !valid_key(k) {
        Seq::empty()
    } else {
        match shell {
            ShellKind::Bash => match v {
                Some(val) => "export "@ + k + "="@ + sh_quoted(val) + "\n"@,
                None => "unset -v "@ + k + "\n"@,
            },
            ShellKind::Zsh => match v {
                Some(val) => "export "@ + k + "="@ + sh_quoted(val) + "\n"@,
                None => "unset -v "@ + k + "\n"@,
            },
            ShellKind::Fish => match v {
                Some(val) => "set -x "@ + k + " "@ + sh_quoted(val) + "\n"@,
                None => "set -e "@ + k + "\n"@,
            },
        }
    }
}

/// The closing statement that records the new baseline generation, present
/// in every script.
pub open spec fn stamp_line(shell: ShellKind, g: int) -> Seq<char> {
    match shell {
        ShellKind::Bash => "export ENVCTL_GEN="@ + dec_str(g) + "\n"@,
        ShellKind::Zsh => "export ENVCTL_GEN="@ + dec_str(g) + "\n"@,
        ShellKind::Fish => "set -x ENVCTL_GEN "@ + dec_str(g) + "\n"@,
    }
}

/// The lines of the first `n` actions, in order.
pub open spec fn script_prefix(
    shell: ShellKind,
    actions: Seq<(String, Option<String>)>,
    n: int,
) -> Seq<char>
    decreases n,
{
    if n <= 0 {
        Seq::empty()
    } else {
        script_prefix(shell, actions, n - 1) + action_line(
            shell,
            actions[n - 1].0@,
            actions[n - 1].1.deep_view(),
        )
    }
}

/// The whole script for an action list: one line per action, then the
/// generation stamp.
pub open spec fn render_spec(
    shell: ShellKind,
    actions: Seq<(String, Option<String>)>,
    g: int,
) -> Seq<char> {
    script_prefix(shell, actions, actions.len() as int) + stamp_line(shell, g)
}

/// The first `n` lines depend on the actions only through their views.
proof fn lemma_script_prefix_congruent(
    shell: ShellKind,
    a: Seq<(String, Option<String>)>,
    b: Seq<(String, Option<String>)>,
    n: int,
)
    requires
        n <= a.len(),
        a.len() == b.len(),
        forall|i: int|
            0 <= i < a.len() ==> (#[trigger] a[i]).0@ == b[i].0@ && a[i].1.deep_view()
                == b[i].1.deep_view(),
    ensures
        script_prefix(shell, a, n) == script_prefix(shell, b, n),
    decreases n,
{
    if n > 0 {
        lemma_script_prefix_congruent(shell, a, b, n - 1);
    }
}

/// Rendering depends on the action list only through its views: equal names
/// and values give the very same script.
pub proof fn lemma_render_congruent(
    shell: ShellKind,
    a: Seq<(String, Option<String>)>,
    b: Seq<(String, Option<String>)>,
    g: int,
)
    requires
        a.len() == b.len(),
        forall|i: int|
            0 <= i < a.len() ==> (#[trigger] a[i]).0@ == b[i].0@ && a[i].1.deep_view()
                == b[i].1.deep_view(),
    ensures
        render_spec(shell, a, g) == render_spec(shell, b, g),
{
    lemma_script_prefix_congruent(shell, a, b, a.len() as int);
}

/// Renders the action list as a script for `shell`: an assignment with the
/// value single-quoted for each present value, a removal for each absent
/// one, and the generation stamp last. Keys that are not valid variable
/// names are silently omitted.
pub fn render_script(shell: ShellKind, actions: &Vec<(String, Option<String>)>, new_gen: u64) -> (r:
    String)
    ensures
        r@ == render_spec(shell, actions@, new_gen as int),
{
    let mut out = String::new();
    let n = actions.len();
    let mut i: usize = 0;
    proof {
        assert(out@ =~= script_prefix(shell, actions@, 0));
    }
    while i < n
        invariant
            0 <= i <= n,
            n == actions@.len(),
            out@ == script_prefix(shell, actions@, i as int),
        decreases n - i,
    {
        let ghost before = out@;
        let k = &actions[i].0;
        if is_valid_key(k.as_str()) {
            match shell {
                ShellKind::Bash | ShellKind::Zsh => {
                    match &actions[i].1 {
                        Some(val) => {
                            out.append("export ");
                            out.append(k.as_str());
                            out.append("=");
                            let q = sh_single_quote(val.as_str());
                            out.append(q.as_str());
                            out.append("\n");
                        },
                        None => {
                            out.append("unset -v ");
                            out.append(k.as_str());
                            out.append("\n");
                        },
                    }
                },
                ShellKind::Fish => {
                    match &actions[i].1 {
                        Some(val) => {
                            out.append("set -x ");
                            out.append(k.as_str());
                            out.append(" ");
                            let q = sh_single_quote(val.as_str());
                            out.append(q.as_str());
                            out.append("\n");
                        },
                        None => {
                            out.append("set -e ");
                            out.append(k.as_str());
                            out.append("\n");
                        },
                    }
                },
            }
        }
        proof {
            assert(out@ =~= before + action_line(
                shell,
                actions@[i as int].0@,
                actions@[i as int].1.deep_view(),
            ));
        }
        i = i + 1;
    }
    match shell {
        ShellKind::Bash | ShellKind::Zsh => {
            out.append("export ENVCTL_GEN=");
            let g = u64_to_dec(new_gen);
            out.append(g.as_str());
            out.append("\n");
        },
        ShellKind::Fish => {
            out.append("set -x ENVCTL_GEN ");
            let g = u64_to_dec(new_gen);
            out.append(g.as_str());
            out.append("\n");
        },
    }
    proof {
        assert(out@ =~= render_spec(shell, actions@, new_gen as int));
    }
    out
}

} // verus!
