//! The diff engine: given a session's last-known generation and its working
//! directory, scan the history for qualifying changes, resolve each affected
//! key's current effective value, and render the ordered action list as a
//! script that ends with the new baseline generation.

use vstd::prelude::*;
use crate::scope::{is_ancestor, scope_applies, Scope};
use crate::script::{render_script, render_spec, stamp_line};
use crate::shell::ShellKind;
use crate::store::State;
use crate::strutil::{lemma_lex_lt_transitive, lemma_lex_lt_trichotomy, lex_lt, str_eq, str_lt};

verus! {

/// The distinct views of a sequence of keys.
pub open spec fn key_set(s: Seq<String>) -> Set<Seq<char>> {
    Set::new(|k: Seq<char>| exists|i: int| 0 <= i < s.len() && (#[trigger] s[i])@ == k)
}

/// Strictly ascending keys, hence pairwise distinct.
pub open spec fn sorted_distinct(s: Seq<String>) -> bool {
    forall|i: int, j: int| 0 <= i < j < s.len() ==> lex_lt((#[trigger] s[i])@, (#[trigger] s[j])@)
}

/// Puts `k` into a sorted key list, keeping it sorted; a key already present
/// stays single.
fn insert_key_sorted(keys: &mut Vec<String>, k: String)
    requires
        sorted_distinct(old(keys)@),
    ensures
        sorted_distinct(final(keys)@),
        key_set(final(keys)@) == key_set(old(keys)@).insert(k@),
{
    let n = keys.len();
    let mut i: usize = 0;
    while i < n
        invariant
            0 <= i <= n,
            n == keys@.len(),
            *keys == *old(keys),
            forall|j: int| 0 <= j < i ==> lex_lt((#[trigger] keys@[j])@, k@),
        ensures
            0 <= i <= n,
            i < n ==> !lex_lt(keys@[i as int]@, k@),
        decreases n - i,
    {
        if !str_lt(keys[i].as_str(), k.as_str()) {
            break;
        }
        i = i + 1;
    }
    if i < n && str_eq(keys[i].as_str(), k.as_str()) {
        proof {
            assert(key_set(keys@).contains(k@));
            assert(key_set(keys@).insert(k@) =~= key_set(keys@));
        }
        return;
    }
    let ghost s0 = keys@;
    proof {
        if i < s0.len() {
            lemma_lex_lt_trichotomy(s0[i as int]@, k@);
        }
    }
    keys.insert(i, k);
    proof {
        let s1 = keys@;
        assert(forall|j: int| 0 <= j < i ==> s1[j] == s0[j]);
        assert(s1[i as int]@ == k@);
        assert(forall|j: int| i < j < s1.len() ==> s1[j] == s0[j - 1]);
        assert forall|a: int, b: int| 0 <= a < b < s1.len() implies lex_lt(
            (#[trigger] s1[a])@,
            (#[trigger] s1[b])@,
        ) by {
            if b < i {
            } else if b == i {
                assert(lex_lt(s0[a]@, k@));
            } else if a < i {
                if b - 1 == a {
                    assert(false);
                } else {
                    assert(lex_lt(s0[a]@, s0[b - 1]@));
                }
            } else if a == i {
                if b - 1 == i {
                    assert(lex_lt(k@, s0[i as int]@));
                } else {
                    assert(lex_lt(k@, s0[i as int]@));
                    assert(lex_lt(s0[i as int]@, s0[b - 1]@));
                    lemma_lex_lt_transitive(k@, s0[i as int]@, s0[b - 1]@);
                }
            } else {
                assert(lex_lt(s0[a - 1]@, s0[b - 1]@));
            }
        }
        assert forall|x: Seq<char>| key_set(s1).contains(x) implies key_set(s0).insert(
            k@,
        ).contains(x) by {
            let j = choose|j: int| 0 <= j < s1.len() && (#[trigger] s1[j])@ == x;
            if j < i {
                assert(s0[j]@ == x);
            } else if j > i {
                assert(s0[j - 1]@ == x);
            }
        }
        assert forall|x: Seq<char>| key_set(s0).insert(k@).contains(x) implies key_set(
            s1,
        ).contains(x) by {
            if x == k@ {
                assert(s1[i as int]@ == x);
            } else {
                let j = choose|j: int| 0 <= j < s0.len() && (#[trigger] s0[j])@ == x;
                if j < i {
                    assert(s1[j]@ == x);
                } else {
                    assert(s1[j + 1]@ == x);
                }
            }
        }
        assert(key_set(s1) =~= key_set(s0).insert(k@));
    }
}

/// Whether some action in `s` names key `k`.
pub open spec fn has_key(s: Seq<(String, Option<String>)>, k: Seq<char>) -> bool {
    exists|i: int| 0 <= i < s.len() && (#[trigger] s[i]).0@ == k
}

/// Sorted action lists with the same key set list the same keys in the same
/// places.
proof fn lemma_sorted_same_keys(a: Seq<(String, Option<String>)>, b: Seq<(String, Option<String>)>)
    requires
        forall|i: int, j: int|
            0 <= i < j < a.len() ==> lex_lt((#[trigger] a[i]).0@, (#[trigger] a[j]).0@),
        forall|i: int, j: int|
            0 <= i < j < b.len() ==> lex_lt((#[trigger] b[i]).0@, (#[trigger] b[j]).0@),
        forall|k: Seq<char>| #[trigger] has_key(a, k) == has_key(b, k),
    ensures
        a.len() == b.len(),
        forall|i: int| 0 <= i < a.len() ==> (#[trigger] a[i]).0@ == b[i].0@,
    decreases a.len(),
{
    if a.len() == 0 {
        if b.len() > 0 {
            assert(has_key(b, b[0].0@));
            assert(has_key(a, b[0].0@));
            assert(false);
        }
    } else if b.len() == 0 {
        assert(has_key(a, a[0].0@));
        assert(has_key(b, a[0].0@));
        assert(false);
    } else {
        assert(has_key(a, a[0].0@));
        assert(has_key(b, a[0].0@));
        let j0 = choose|j: int| 0 <= j < b.len() && (#[trigger] b[j]).0@ == a[0].0@;
        assert(has_key(b, b[0].0@));
        assert(has_key(a, b[0].0@));
        let i0 = choose|i: int| 0 <= i < a.len() && (#[trigger] a[i]).0@ == b[0].0@;
        if i0 > 0 && j0 > 0 {
            assert(lex_lt(a[0].0@, a[i0].0@));
            assert(lex_lt(b[0].0@, b[j0].0@));
            lemma_lex_lt_trichotomy(a[0].0@, b[0].0@);
            assert(false);
        }
        assert(a[0].0@ == b[0].0@);
        let a1 = a.skip(1);
        let b1 = b.skip(1);
        assert(forall|i: int| 0 <= i < a1.len() ==> (#[trigger] a1[i]) == a[i + 1]);
        assert(forall|j: int| 0 <= j < b1.len() ==> (#[trigger] b1[j]) == b[j + 1]);
        assert forall|k: Seq<char>| #[trigger] has_key(a1, k) == has_key(b1, k) by {
            if has_key(a1, k) {
                let i = choose|i: int| 0 <= i < a1.len() && (#[trigger] a1[i]).0@ == k;
                assert(a[i + 1].0@ == k);
                assert(has_key(a, k));
                assert(lex_lt(a[0].0@, k));
                let j = choose|j: int| 0 <= j < b.len() && (#[trigger] b[j]).0@ == k;
                lemma_lex_lt_trichotomy(b[0].0@, k);
                assert(j != 0);
                assert(b1[j - 1].0@ == k);
                assert(has_key(b1, k));
            }
            if has_key(b1, k) {
                let j = choose|j: int| 0 <= j < b1.len() && (#[trigger] b1[j]).0@ == k;
                assert(b[j + 1].0@ == k);
                assert(has_key(b, k));
                assert(lex_lt(b[0].0@, k));
                assert(has_key(a, k));
                let i = choose|i: int| 0 <= i < a.len() && (#[trigger] a[i]).0@ == k;
                lemma_lex_lt_trichotomy(a[0].0@, k);
                assert(i != 0);
                assert(a1[i - 1].0@ == k);
                assert(has_key(a1, k));
            }
        }
        lemma_sorted_same_keys(a1, b1);
        assert forall|i: int| 0 <= i < a.len() implies (#[trigger] a[i]).0@ == b[i].0@ by {
            if i > 0 {
                assert(a1[i - 1].0@ == b1[i - 1].0@);
            }
        }
    }
}

impl State {
    /// The keys with at least one qualifying event among the first `n`: a
    /// later generation than `since`, in a scope that `pwd` sees.
    pub open spec fn affected_upto(self, since: u64, pwd: Seq<char>, n: int) -> Set<Seq<char>> {
        Set::new(
            |k: Seq<char>|
                exists|e: int|
                    0 <= e < n && (#[trigger] self.history@[e])@.generation > since
                        && scope_applies(self.history@[e]@.scope, pwd)
                        && self.history@[e]@.key == k,
        )
    }

    /// The keys a sync from `since` at `pwd` must carry: those with any
    /// qualifying event in the whole history. A key changed many times
    /// collapses to one entry; only the present state matters.
    pub open spec fn affected_keys(self, since: u64, pwd: Seq<char>) -> Set<Seq<char>> {
        self.affected_upto(since, pwd, self.history@.len() as int)
    }

    /// A correct action list for a sync from `since` at `pwd`: keys strictly
    /// ascending, exactly the affected ones, each paired with its current
    /// effective value (`None`: no longer visible, remove it).
    pub open spec fn is_action_list(
        self,
        acts: Seq<(String, Option<String>)>,
        since: u64,
        pwd: Seq<char>,
    ) -> bool {
        &&& forall|i: int, j: int|
            0 <= i < j < acts.len() ==> lex_lt((#[trigger] acts[i]).0@, (#[trigger] acts[j]).0@)
        &&& forall|i: int|
            0 <= i < acts.len() ==> self.affected_keys(since, pwd).contains(
                (#[trigger] acts[i]).0@,
            )
        &&& forall|k: Seq<char>|
            self.affected_keys(since, pwd).contains(k) ==> exists|i: int|
                0 <= i < acts.len() && (#[trigger] acts[i]).0@ == k
        &&& forall|i: int|
            0 <= i < acts.len() ==> (#[trigger] acts[i]).1.deep_view() == self.effective(
                acts[i].0@,
                pwd,
            )
    }

    /// The ordered action list for a sync from `since` at `pwd`: every
    /// affected key, sorted by name, with its current effective value.
    pub fn export_actions(&self, since: u64, pwd: &str) -> (r: Vec<(String, Option<String>)>)
        requires
            self.wf(),
        ensures
            self.is_action_list(r@, since, pwd@),
    {
        let mut keys: Vec<String> = Vec::new();
        let n = self.history.len();
        let mut e: usize = 0;
        proof {
            assert(key_set(keys@) =~= self.affected_upto(since, pwd@, 0));
        }
        while e < n
            invariant
                0 <= e <= n,
                n == self.history@.len(),
                sorted_distinct(keys@),
                key_set(keys@) == self.affected_upto(since, pwd@, e as int),
            decreases n - e,
        {
            let ghost before = key_set(keys@);
            let applies = if self.history[e].generation > since {
                match &self.history[e].scope {
                    Scope::Global => true,
                    Scope::Dir(dir) => is_ancestor(dir.as_str(), pwd),
                }
            } else {
                false
            };
            proof {
                assert(applies == ((self.history@[e as int])@.generation > since && scope_applies(
                    self.history@[e as int]@.scope,
                    pwd@,
                )));
            }
            if applies {
                insert_key_sorted(&mut keys, self.history[e].key.clone());
                proof {
                    assert forall|x: Seq<char>|
                        self.affected_upto(since, pwd@, e + 1int).contains(x) implies before.insert(
                        self.history@[e as int]@.key,
                    ).contains(x) by {
                        let e2 = choose|e2: int|
                            0 <= e2 < e + 1 && (#[trigger] self.history@[e2])@.generation > since
                                && scope_applies(self.history@[e2]@.scope, pwd@)
                                && self.history@[e2]@.key == x;
                        if e2 < e {
                            assert(self.affected_upto(since, pwd@, e as int).contains(x));
                        }
                    }
                    assert forall|x: Seq<char>|
                        before.insert(self.history@[e as int]@.key).contains(x) implies
                        self.affected_upto(since, pwd@, e + 1int).contains(x) by {
                        if x == self.history@[e as int]@.key {
                            assert((self.history@[e as int])@.generation > since && scope_applies(
                                self.history@[e as int]@.scope,
                                pwd@,
                            ) && self.history@[e as int]@.key == x);
                        } else {
                            let e2 = choose|e2: int|
                                0 <= e2 < e && (#[trigger] self.history@[e2])@.generation > since
                                    && scope_applies(self.history@[e2]@.scope, pwd@)
                                    && self.history@[e2]@.key == x;
                            assert(0 <= e2 < e + 1);
                        }
                    }
                    assert(key_set(keys@) =~= self.affected_upto(since, pwd@, e + 1int));
                }
            } else {
                proof {
                    assert forall|x: Seq<char>|
                        self.affected_upto(since, pwd@, e + 1int).contains(x) implies
                        before.contains(x) by {
                        let e2 = choose|e2: int|
                            0 <= e2 < e + 1 && (#[trigger] self.history@[e2])@.generation > since
                                && scope_applies(self.history@[e2]@.scope, pwd@)
                                && self.history@[e2]@.key == x;
                        assert(e2 < e);
                        assert(self.affected_upto(since, pwd@, e as int).contains(x));
                    }
                    assert forall|x: Seq<char>| before.contains(x) implies self.affected_upto(
                        since,
                        pwd@,
                        e + 1int,
                    ).contains(x) by {
                        let e2 = choose|e2: int|
                            0 <= e2 < e && (#[trigger] self.history@[e2])@.generation > since
                                && scope_applies(self.history@[e2]@.scope, pwd@)
                                && self.history@[e2]@.key == x;
                        assert(0 <= e2 < e + 1);
                    }
                    assert(key_set(keys@) =~= self.affected_upto(since, pwd@, e + 1int));
                }
            }
            e = e + 1;
        }
        let m = keys.len();
        let mut acts: Vec<(String, Option<String>)> = Vec::new();
        let mut i: usize = 0;
        while i < m
            invariant
                0 <= i <= m,
                m == keys@.len(),
                self.wf(),
                acts@.len() == i,
                forall|j: int| 0 <= j < i ==> (#[trigger] acts@[j]).0 == keys@[j],
                forall|j: int|
                    0 <= j < i ==> (#[trigger] acts@[j]).1.deep_view() == self.effective(
                        keys@[j]@,
                        pwd@,
                    ),
            decreases m - i,
        {
            let k = keys[i].clone();
            let v = self.get_effective(k.as_str(), pwd);
            acts.push((k, v));
            i = i + 1;
        }
        proof {
            assert forall|k: Seq<char>|
                self.affected_keys(since, pwd@).contains(k) implies exists|j: int|
                0 <= j < acts@.len() && (#[trigger] acts@[j]).0@ == k by {
                assert(key_set(keys@).contains(k));
                let j = choose|j: int| 0 <= j < keys@.len() && (#[trigger] keys@[j])@ == k;
                assert(acts@[j].0@ == k);
            }
            assert forall|j: int| 0 <= j < acts@.len() implies self.affected_keys(
                since,
                pwd@,
            ).contains((#[trigger] acts@[j]).0@) by {
                assert(keys@[j]@ == acts@[j].0@);
                assert(key_set(keys@).contains(keys@[j]@));
            }
        }
        acts
    }

    /// Computes the synchronization script for `shell`, for a session whose
    /// last-seen generation is `since` and whose working directory is `pwd`:
    /// the rendered action list, and the new baseline generation it records.
    pub fn export_since(&self, shell: ShellKind, since: u64, pwd: &str) -> (r: (String, u64))
        requires
            self.wf(),
        ensures
            r.1 == self.generation,
            exists|acts: Seq<(String, Option<String>)>|
                #[trigger] self.is_action_list(acts, since, pwd@) && r.0@ == render_spec(
                    shell,
                    acts,
                    self.generation as int,
                ),
    {
        let acts = self.export_actions(since, pwd);
        let script = render_script(shell, &acts, self.generation);
        proof {
            assert(self.is_action_list(acts@, since, pwd@) && script@ == render_spec(
                shell,
                acts@,
                self.generation as int,
            ));
        }
        (script, self.generation)
    }

    /// Law: the action list is determined. Any two correct lists for the
    /// same sync name the same keys in the same order with the same values,
    /// and render to the very same script: the output never depends on the
    /// order in which the engine walked its internal structures.
    pub proof fn lemma_action_list_determined(
        self,
        a: Seq<(String, Option<String>)>,
        b: Seq<(String, Option<String>)>,
        since: u64,
        pwd: Seq<char>,
    )
        requires
            self.is_action_list(a, since, pwd),
            self.is_action_list(b, since, pwd),
        ensures
            a.len() == b.len(),
            forall|i: int|
                0 <= i < a.len() ==> (#[trigger] a[i]).0@ == b[i].0@ && a[i].1.deep_view()
                    == b[i].1.deep_view(),
            forall|shell: ShellKind, g: int|
                #[trigger] render_spec(shell, a, g) == render_spec(shell, b, g),
    {
        assert forall|k: Seq<char>| #[trigger] has_key(a, k) == has_key(b, k) by {
            if has_key(a, k) {
                let i = choose|i: int| 0 <= i < a.len() && (#[trigger] a[i]).0@ == k;
                assert(self.affected_keys(since, pwd).contains(a[i].0@));
                assert(has_key(b, k));
            }
            if has_key(b, k) {
                let j = choose|j: int| 0 <= j < b.len() && (#[trigger] b[j]).0@ == k;
                assert(self.affected_keys(since, pwd).contains(b[j].0@));
                assert(has_key(a, k));
            }
        }
        lemma_sorted_same_keys(a, b);
        assert forall|i: int| 0 <= i < a.len() implies (#[trigger] a[i]).0@ == b[i].0@
            && a[i].1.deep_view() == b[i].1.deep_view() by {
            assert(a[i].1.deep_view() == self.effective(a[i].0@, pwd));
            assert(b[i].1.deep_view() == self.effective(b[i].0@, pwd));
        }
        assert forall|shell: ShellKind, g: int| #[trigger] render_spec(shell, a, g) == render_spec(
            shell,
            b,
            g,
        ) by {
            crate::script::lemma_render_congruent(shell, a, b, g);
        }
    }

    /// Law: a sync from the current generation is a steady state. Its action
    /// list is empty, and its script is the generation stamp alone, so a
    /// second export right after a first one, with the generation the first
    /// returned and no change in between, applies nothing.
    pub proof fn lemma_export_idempotent(
        self,
        acts: Seq<(String, Option<String>)>,
        pwd: Seq<char>,
    )
        requires
            self.wf(),
            self.is_action_list(acts, self.generation, pwd),
        ensures
            acts == Seq::<(String, Option<String>)>::empty(),
            forall|shell: ShellKind, g: int|
                #[trigger] render_spec(shell, acts, g) == stamp_line(shell, g),
    {
        self.lemma_history_bounded();
        if acts.len() > 0 {
            assert(self.affected_keys(self.generation, pwd).contains(acts[0].0@));
            let e = choose|e: int|
                0 <= e < self.history@.len() && (#[trigger] self.history@[e])@.generation
                    > self.generation && scope_applies(self.history@[e]@.scope, pwd)
                    && self.history@[e]@.key == acts[0].0@;
            assert(false);
        }
        assert(acts =~= Seq::<(String, Option<String>)>::empty());
        assert forall|shell: ShellKind, g: int| #[trigger] render_spec(shell, acts, g)
            == stamp_line(shell, g) by {
            assert(render_spec(shell, acts, g) =~= stamp_line(shell, g));
        }
    }

    /// Law: a sync from generation zero reports exactly what is visible at
    /// `pwd`. An action carries a value precisely for the keys of the
    /// effective map, with the matching value; a key once changed and since
    /// removed appears as a removal.
    pub proof fn lemma_export_bootstrap(
        self,
        acts: Seq<(String, Option<String>)>,
        pwd: Seq<char>,
    )
        requires
            self.wf(),
            self.is_action_list(acts, 0, pwd),
        ensures
            forall|i: int|
                0 <= i < acts.len() ==> ((#[trigger] acts[i]).1 is Some <==> self.effective_map(
                    pwd,
                ).contains_key(acts[i].0@)),
            forall|i: int|
                0 <= i < acts.len() && (#[trigger] acts[i]).1 is Some ==> acts[i].1.deep_view()
                    == Some(self.effective_map(pwd)[acts[i].0@]),
            forall|k: Seq<char>|
                #[trigger] self.effective_map(pwd).contains_key(k) ==> exists|i: int|
                    0 <= i < acts.len() && (#[trigger] acts[i]).0@ == k,
    {
        assert forall|i: int| 0 <= i < acts.len() implies ((#[trigger] acts[i]).1 is Some
            <==> self.effective_map(pwd).contains_key(acts[i].0@)) && (acts[i].1 is Some
            ==> acts[i].1.deep_view() == Some(self.effective_map(pwd)[acts[i].0@])) by {
            self.lemma_effective_consistent(acts[i].0@, pwd);
        }
        let n = self.scoped@.len() as int;
        assert forall|k: Seq<char>| #[trigger] self.effective_map(pwd).contains_key(
            k,
        ) implies exists|i: int| 0 <= i < acts.len() && (#[trigger] acts[i]).0@ == k by {
            crate::store::lemma_best_scope_upto(self.scoped@, pwd, n);
            let affected = self.affected_keys(0, pwd);
            match self.best_idx(pwd) {
                Some(b) => {
                    if self.scoped@[b].1@.contains_key(k) {
                        let e = choose|e: int|
                            0 <= e < self.history@.len() && (#[trigger] self.history@[e])@.key == k
                                && self.history@[e]@.scope == crate::scope::ScopeView::Dir(
                                self.scoped@[b].0@,
                            );
                        assert(self.history@[e]@.generation >= 1);
                        assert(scope_applies(self.history@[e]@.scope, pwd));
                        assert(affected.contains(k));
                    } else {
                        assert(self.globals@.contains_key(k));
                        let e = choose|e: int|
                            0 <= e < self.history@.len() && (#[trigger] self.history@[e])@.key == k
                                && self.history@[e]@.scope == crate::scope::ScopeView::Global;
                        assert(self.history@[e]@.generation >= 1);
                        assert(affected.contains(k));
                    }
                },
                None => {
                    assert(self.globals@.contains_key(k));
                    let e = choose|e: int|
                        0 <= e < self.history@.len() && (#[trigger] self.history@[e])@.key == k
                            && self.history@[e]@.scope == crate::scope::ScopeView::Global;
                    assert(self.history@[e]@.generation >= 1);
                    assert(affected.contains(k));
                },
            }
        }
    }
}

} // verus!
