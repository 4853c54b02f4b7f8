//! The state store: the global variable map, the per-directory maps, the
//! monotonic generation counter, and the append-only change history.
//!
//! Every actual change (a `set` that writes a new value, an `unset` that
//! removes a present key) advances the generation by exactly one and appends
//! one change event; a no-op leaves the whole store untouched. The history
//! is never truncated or reordered, so its generations are strictly
//! increasing and the counter always equals the latest event's generation.

use vstd::prelude::*;
use crate::scope::{is_ancestor, is_ancestor_of, path_component_count, path_depth, Scope,
    ScopeView};
use crate::strutil::str_eq;
use crate::varmap::{map_of, VarMap};

verus! {

/// The scope the store picks for `pwd` among the first `n` directory scopes:
/// the deepest one whose directory is an ancestor of `pwd`; on equal depth
/// the earliest-created one stays. Returns its position.
pub open spec fn best_scope_upto(s: Seq<(String, VarMap)>, pwd: Seq<char>, n: int) -> Option<int>
    decreases n,
{
    if n <= 0 {
        None
    } else {
        let prev = best_scope_upto(s, pwd, n - 1);
        if is_ancestor_of(s[n - 1].0@, pwd) {
            match prev {
                None => Some(n - 1),
                Some(j) => if path_depth(s[n - 1].0@) > path_depth(s[j].0@) {
                    Some(n - 1)
                } else {
                    Some(j)
                },
            }
        } else {
            prev
        }
    }
}

/// The map after writing `entries` into `m`, in order.
pub open spec fn map_after(
    m: Map<Seq<char>, Seq<char>>,
    entries: Seq<(String, String)>,
) -> Map<Seq<char>, Seq<char>>
    decreases entries.len(),
{
    if entries.len() == 0 {
        m
    } else {
        map_after(m.insert(entries[0].0@, entries[0].1@), entries.skip(1))
    }
}

/// The keys of the entries that actually change the map when written in
/// order: an entry that rewrites the value already present contributes
/// nothing.
pub open spec fn changed_keys_of(
    m: Map<Seq<char>, Seq<char>>,
    entries: Seq<(String, String)>,
) -> Seq<Seq<char>>
    decreases entries.len(),
{
    if entries.len() == 0 {
        Seq::empty()
    } else {
        let k = entries[0].0@;
        let v = entries[0].1@;
        let rest = changed_keys_of(m.insert(k, v), entries.skip(1));
        if m.contains_key(k) && m[k] == v {
            rest
        } else {
            seq![k] + rest
        }
    }
}

/// The keys a stretch of history records, in order.
pub open spec fn keys_of_events(s: Seq<ChangeEvent>) -> Seq<Seq<char>> {
    s.map_values(|e: ChangeEvent| e@.key)
}

/// What the chosen scope is: an ancestor of `pwd`, of maximal depth, and the
/// first of that depth; `None` exactly when no scope is an ancestor.
pub proof fn lemma_best_scope_upto(s: Seq<(String, VarMap)>, pwd: Seq<char>, n: int)
    requires
        0 <= n <= s.len(),
    ensures
        match best_scope_upto(s, pwd, n) {
            None => forall|j: int| 0 <= j < n ==> !is_ancestor_of((#[trigger] s[j]).0@, pwd),
            Some(i) => 0 <= i < n && is_ancestor_of(s[i].0@, pwd) && (forall|j: int|
                0 <= j < n && is_ancestor_of((#[trigger] s[j]).0@, pwd) ==> path_depth(s[j].0@)
                    <= path_depth(s[i].0@)) && (forall|j: int|
                0 <= j < i && is_ancestor_of((#[trigger] s[j]).0@, pwd) ==> path_depth(s[j].0@)
                    < path_depth(s[i].0@)),
        },
    decreases n,
{
    if n > 0 {
        lemma_best_scope_upto(s, pwd, n - 1);
    }
}

/// Which scope wins depends only on the scope directories, never on what
/// the maps hold: two entry sequences with the same directories pick the
/// same position.
pub proof fn lemma_best_scope_from_dirs(
    a: Seq<(String, VarMap)>,
    b: Seq<(String, VarMap)>,
    pwd: Seq<char>,
    n: int,
)
    requires
        a.len() == b.len(),
        forall|i: int| 0 <= i < a.len() ==> (#[trigger] a[i]).0@ == b[i].0@,
        n <= a.len(),
    ensures
        best_scope_upto(a, pwd, n) == best_scope_upto(b, pwd, n),
    decreases n,
{
    if n > 0 {
        lemma_best_scope_from_dirs(a, b, pwd, n - 1);
        assert(a[n - 1].0@ == b[n - 1].0@);
        match best_scope_upto(a, pwd, n - 1) {
            Some(j) => {
                lemma_best_scope_upto(a, pwd, n - 1);
                assert(a[j].0@ == b[j].0@);
            },
            None => {},
        }
    }
}

impl Clone for Scope {
    /// A copy with the same view.
    fn clone(&self) -> (r: Self)
        ensures
            r@ == self@,
    {
        match self {
            Scope::Global => Scope::Global,
            Scope::Dir(p) => Scope::Dir(p.clone()),
        }
    }
}

/// One record of the append-only history: at `generation`, the variable
/// named `key` changed (was written or removed) in `scope`.
#[derive(Debug)]
pub struct ChangeEvent {
    pub generation: u64,
    pub key: String,
    pub scope: Scope,
}

/// The mathematical shape of a change event.
pub struct ChangeEventView {
    pub generation: u64,
    pub key: Seq<char>,
    pub scope: ScopeView,
}

impl View for ChangeEvent {
    type V = ChangeEventView;

    open spec fn view(&self) -> ChangeEventView {
        ChangeEventView { generation: self.generation, key: self.key@, scope: self.scope@ }
    }
}

/// The store: single source of truth for all scopes and for the history.
#[derive(Debug)]
pub struct State {
    /// Generation of the most recent change, 0 when nothing ever changed.
    pub generation: u64,
    /// Variables visible everywhere (unless a directory scope overrides).
    pub globals: VarMap,
    /// Directory-bound variable maps, in order of first `set`; one entry per
    /// directory, created lazily and never removed, even when emptied.
    pub scoped: Vec<(String, VarMap)>,
    /// Every change ever applied, in the order it happened.
    pub history: Vec<ChangeEvent>,
}

impl Default for State {
    /// The empty store: no variables, no history, generation zero.
    fn default() -> (r: State)
        ensures
            r.wf(),
            r.generation == 0,
            r.globals@ == Map::<Seq<char>, Seq<char>>::empty(),
            r.scoped@.len() == 0,
            r.history@.len() == 0,
    {
        State { generation: 0, globals: VarMap::new(), scoped: Vec::new(), history: Vec::new() }
    }
}

impl State {
    /// The directory paths that have a scope, in creation order.
    pub open spec fn dirs(self) -> Seq<Seq<char>> {
        self.scoped@.map_values(|p: (String, VarMap)| p.0@)
    }

    /// Whether directory `d` has a scope.
    pub open spec fn has_dir(self, d: Seq<char>) -> bool {
        exists|i: int| 0 <= i < self.scoped@.len() && (#[trigger] self.scoped@[i]).0@ == d
    }

    /// The variable map of directory `d`; empty when `d` has no scope.
    pub open spec fn dir_map(self, d: Seq<char>) -> Map<Seq<char>, Seq<char>> {
        if self.has_dir(d) {
            let i = choose|i: int|
                0 <= i < self.scoped@.len() && (#[trigger] self.scoped@[i]).0@ == d;
            self.scoped@[i].1@
        } else {
            Map::empty()
        }
    }

    /// The variable map a scope denotes.
    pub open spec fn scope_map(self, sv: ScopeView) -> Map<Seq<char>, Seq<char>> {
        match sv {
            ScopeView::Global => self.globals@,
            ScopeView::Dir(d) => self.dir_map(d),
        }
    }

    /// Directory scopes are well formed: paths pairwise distinct, each map
    /// unique-keyed.
    pub open spec fn scoped_wf(self) -> bool {
        &&& forall|i: int, j: int|
            0 <= i < j < self.scoped@.len() ==> (#[trigger] self.scoped@[i]).0@ != (
            #[trigger] self.scoped@[j]).0@
        &&& forall|i: int| 0 <= i < self.scoped@.len() ==> (#[trigger] self.scoped@[i]).1.wf()
    }

    /// The history is well formed: generations strictly increase, start at
    /// one, and the counter equals the latest one (or 0 with no history).
    pub open spec fn history_wf(self) -> bool {
        &&& forall|i: int, j: int|
            0 <= i < j < self.history@.len() ==> (#[trigger] self.history@[i]).generation < (
            #[trigger] self.history@[j]).generation
        &&& forall|i: int|
            0 <= i < self.history@.len() ==> (#[trigger] self.history@[i]).generation >= 1
        &&& (self.history@.len() == 0 ==> self.generation == 0)
        &&& (self.history@.len() > 0 ==> self.history@.last().generation == self.generation)
    }

    /// Every key present in some map is witnessed by a change event of that
    /// very scope: nothing enters the store without a record.
    pub open spec fn covered(self) -> bool {
        &&& forall|k: Seq<char>|
            self.globals@.contains_key(k) ==> exists|e: int|
                0 <= e < self.history@.len() && (#[trigger] self.history@[e])@.key == k
                    && self.history@[e]@.scope == ScopeView::Global
        &&& forall|j: int, k: Seq<char>|
            0 <= j < self.scoped@.len() && #[trigger] self.scoped@[j].1@.contains_key(k)
                ==> exists|e: int|
                0 <= e < self.history@.len() && (#[trigger] self.history@[e])@.key == k
                    && self.history@[e]@.scope == ScopeView::Dir(self.scoped@[j].0@)
    }

    /// The store's invariant, established by `default` and preserved by
    /// every operation.
    pub open spec fn wf(self) -> bool {
        &&& self.globals.wf()
        &&& self.scoped_wf()
        &&& self.history_wf()
        &&& self.covered()
    }

    /// Every event's generation is at most the counter.
    pub proof fn lemma_history_bounded(self)
        requires
            self.history_wf(),
        ensures
            forall|i: int|
                0 <= i < self.history@.len() ==> (#[trigger] self.history@[i]).generation
                    <= self.generation,
    {
        assert forall|i: int| 0 <= i < self.history@.len() implies (
        #[trigger] self.history@[i]).generation <= self.generation by {
            if i < self.history@.len() - 1 {
                assert(self.history@[i].generation < self.history@[self.history@.len()
                    - 1].generation);
            }
        }
    }

    /// Entry `i` is what `dir_map` returns for its directory.
    pub proof fn lemma_dir_map_at(self, i: int)
        requires
            self.scoped_wf(),
            0 <= i < self.scoped@.len(),
        ensures
            self.has_dir(self.scoped@[i].0@),
            self.dir_map(self.scoped@[i].0@) == self.scoped@[i].1@,
    {
        let d = self.scoped@[i].0@;
        assert(self.has_dir(d));
        let j = choose|j: int| 0 <= j < self.scoped@.len() && (#[trigger] self.scoped@[j]).0@ == d;
        if i < j {
            assert(self.scoped@[i].0@ != self.scoped@[j].0@);
        } else if j < i {
            assert(self.scoped@[j].0@ != self.scoped@[i].0@);
        }
    }

    /// Two states with the same scope entries have the same directory maps.
    proof fn lemma_dir_maps_eq(a: State, b: State)
        requires
            a.scoped_wf(),
            a.scoped@ == b.scoped@,
        ensures
            forall|d: Seq<char>|
                #[trigger] a.dir_map(d) == b.dir_map(d) && a.has_dir(d) == b.has_dir(d),
    {
        assert forall|d: Seq<char>|
            #[trigger] a.dir_map(d) == b.dir_map(d) && a.has_dir(d) == b.has_dir(d) by {
            if a.has_dir(d) {
                let i = choose|i: int|
                    0 <= i < a.scoped@.len() && (#[trigger] a.scoped@[i]).0@ == d;
                assert(b.scoped@[i].0@ == d);
                a.lemma_dir_map_at(i);
                b.lemma_dir_map_at(i);
            } else if b.has_dir(d) {
                let i = choose|i: int|
                    0 <= i < b.scoped@.len() && (#[trigger] b.scoped@[i]).0@ == d;
                assert(a.scoped@[i].0@ == d);
            }
        }
    }

    /// Coverage is kept when one event is appended and the maps gain at most
    /// the key/scope that the new event records.
    proof fn lemma_covered_step(pre: State, post: State, k: Seq<char>, sv: ScopeView)
        requires
            pre.covered(),
            post.history@.len() == pre.history@.len() + 1,
            post.history@.drop_last() == pre.history@,
            post.history@.last()@.key == k,
            post.history@.last()@.scope == sv,
            forall|k2: Seq<char>|
                #[trigger] post.globals@.contains_key(k2) ==> pre.globals@.contains_key(k2) || (k2
                    == k && sv == ScopeView::Global),
            forall|j: int, k2: Seq<char>|
                0 <= j < post.scoped@.len() && #[trigger] post.scoped@[j].1@.contains_key(k2)
                    ==> (j < pre.scoped@.len() && pre.scoped@[j].0@ == post.scoped@[j].0@
                    && pre.scoped@[j].1@.contains_key(k2)) || (k2 == k && sv == ScopeView::Dir(
                    post.scoped@[j].0@,
                )),
        ensures
            post.covered(),
    {
        let n = pre.history@.len() as int;
        assert(forall|e: int| 0 <= e < n ==> (#[trigger] post.history@[e]) == pre.history@[e])
            by {
            assert(forall|e: int|
                0 <= e < n ==> (#[trigger] post.history@.drop_last()[e]) == post.history@[e]);
        }
        assert(post.history@[n] == post.history@.last());
        assert forall|k2: Seq<char>| post.globals@.contains_key(k2) implies exists|e: int|
            0 <= e < post.history@.len() && (#[trigger] post.history@[e])@.key == k2
                && post.history@[e]@.scope == ScopeView::Global by {
            if pre.globals@.contains_key(k2) {
                let e = choose|e: int|
                    0 <= e < pre.history@.len() && (#[trigger] pre.history@[e])@.key == k2
                        && pre.history@[e]@.scope == ScopeView::Global;
                assert((post.history@[e])@.key == k2);
            } else {
                assert((post.history@[n])@.key == k2 && post.history@[n]@.scope
                    == ScopeView::Global);
            }
        }
        assert forall|j: int, k2: Seq<char>|
            0 <= j < post.scoped@.len()
                && #[trigger] post.scoped@[j].1@.contains_key(k2) implies exists|e: int|
            0 <= e < post.history@.len() && (#[trigger] post.history@[e])@.key == k2
                && post.history@[e]@.scope == ScopeView::Dir(post.scoped@[j].0@) by {
            if j < pre.scoped@.len() && pre.scoped@[j].0@ == post.scoped@[j].0@
                && pre.scoped@[j].1@.contains_key(k2) {
                let e = choose|e: int|
                    0 <= e < pre.history@.len() && (#[trigger] pre.history@[e])@.key == k2
                        && pre.history@[e]@.scope == ScopeView::Dir(pre.scoped@[j].0@);
                assert((post.history@[e])@.key == k2);
            } else {
                assert((post.history@[n])@.key == k2 && post.history@[n]@.scope == ScopeView::Dir(
                    post.scoped@[j].0@,
                ));
            }
        }
    }

    /// Advances the generation and records that `key` changed in `scope`.
    fn bump(&mut self, key: String, scope: Scope)
        requires
            old(self).history_wf(),
            old(self).generation < u64::MAX,
        ensures
            final(self).generation == old(self).generation + 1,
            final(self).history@.len() == old(self).history@.len() + 1,
            final(self).history@.drop_last() == old(self).history@,
            final(self).history@.last()@ == (ChangeEventView {
                generation: (old(self).generation + 1) as u64,
                key: key@,
                scope: scope@,
            }),
            final(self).history_wf(),
            final(self).globals == old(self).globals,
            final(self).scoped == old(self).scoped,
    {
        proof {
            self.lemma_history_bounded();
        }
        self.generation = self.generation + 1;
        let ghost h0 = self.history@;
        self.history.push(ChangeEvent { generation: self.generation, key, scope });
        proof {
            assert(self.history@.drop_last() =~= h0);
            assert(forall|i: int| 0 <= i < h0.len() ==> (#[trigger] self.history@[i]) == h0[i]);
        }
    }

    /// The position of directory `d`'s scope, if one exists.
    fn find_dir(&self, d: &str) -> (r: Option<usize>)
        ensures
            match r {
                Some(i) => i < self.scoped@.len() && self.scoped@[i as int].0@ == d@,
                None => !self.has_dir(d@),
            },
    {
        let n = self.scoped.len();
        let mut i: usize = 0;
        while i < n
            invariant
                0 <= i <= n,
                n == self.scoped@.len(),
                forall|j: int| 0 <= j < i ==> (#[trigger] self.scoped@[j]).0@ != d@,
            decreases n - i,
        {
            if str_eq(self.scoped[i].0.as_str(), d) {
                return Some(i);
            }
            i = i + 1;
        }
        None
    }

    /// Writes `key = value` in `scope`, creating a directory scope on first
    /// use. Reports whether the value actually changed; exactly then the
    /// generation advances by one and an event enters the history.
    pub fn set(&mut self, scope: Scope, key: String, value: String) -> (changed: bool)
        requires
            old(self).wf(),
            old(self).generation < u64::MAX,
        ensures
            final(self).wf(),
            changed == !(old(self).scope_map(scope@).contains_key(key@) && old(self).scope_map(
                scope@,
            )[key@] == value@),
            final(self).scope_map(scope@) == old(self).scope_map(scope@).insert(key@, value@),
            final(self).globals@ == (match scope@ {
                ScopeView::Global => old(self).globals@.insert(key@, value@),
                ScopeView::Dir(_) => old(self).globals@,
            }),
            forall|d: Seq<char>|
                scope@ != ScopeView::Dir(d) ==> #[trigger] final(self).dir_map(d) == old(
                    self,
                ).dir_map(d) && final(self).has_dir(d) == old(self).has_dir(d),
            final(self).dirs() == (match scope@ {
                ScopeView::Global => old(self).dirs(),
                ScopeView::Dir(d) => if old(self).has_dir(d) {
                    old(self).dirs()
                } else {
                    old(self).dirs().push(d)
                },
            }),
            match scope@ {
                ScopeView::Global => final(self).scoped == old(self).scoped,
                ScopeView::Dir(d) => final(self).has_dir(d),
            },
            final(self).generation == old(self).generation + (if changed {
                1int
            } else {
                0int
            }),
            changed ==> final(self).history@.len() == old(self).history@.len() + 1
                && final(self).history@.drop_last() == old(self).history@
                && final(self).history@.last()@ == (ChangeEventView {
                generation: (old(self).generation + 1) as u64,
                key: key@,
                scope: scope@,
            }),
            !changed ==> *final(self) == *old(self),
    {
        match scope {
            Scope::Global => {
                let changed = self.globals.insert(key.clone(), value);
                if changed {
                    self.bump(key, Scope::Global);
                    proof {
                        State::lemma_covered_step(*old(self), *self, key@, ScopeView::Global);
                        State::lemma_dir_maps_eq(*old(self), *self);
                    }
                } else {
                    proof {
                        assert(old(self).globals@.insert(key@, value@) =~= old(self).globals@);
                        assert(*self == *old(self));
                    }
                }
                changed
            },
            Scope::Dir(path) => {
                let ghost pre = *old(self);
                let ghost d = path@;
                let idx = self.find_dir(path.as_str());
                let i: usize = match idx {
                    Some(i) => {
                        proof {
                            pre.lemma_dir_map_at(i as int);
                        }
                        let same = match self.scoped[i].1.get(key.as_str()) {
                            Some(v) => str_eq(v.as_str(), value.as_str()),
                            None => false,
                        };
                        if same {
                            proof {
                                assert(old(self).scope_map(scope@).insert(key@, value@)
                                    =~= old(self).scope_map(scope@));
                            }
                            return false;
                        }
                        i
                    },
                    None => {
                        let n = self.scoped.len();
                        let ghost s0 = self.scoped@;
                        self.scoped.push((path.clone(), VarMap::new()));
                        proof {
                            assert(forall|j: int|
                                0 <= j < s0.len() ==> (#[trigger] self.scoped@[j]) == s0[j]);
                            assert(pre.dir_map(d) =~= Map::<Seq<char>, Seq<char>>::empty());
                        }
                        n
                    },
                };
                let ghost sc1 = self.scoped@;
                let mut entry = self.scoped.remove(i);
                let changed = entry.1.insert(key.clone(), value);
                self.scoped.insert(i, entry);
                proof {
                    assert(self.scoped@ =~= sc1.update(i as int, self.scoped@[i as int]));
                    assert(self.scoped@[i as int].0@ == d);
                    assert(forall|j: int|
                        0 <= j < self.scoped@.len() && j != i ==> (#[trigger] self.scoped@[j])
                            == sc1[j]);
                }
                self.bump(key, Scope::Dir(path));
                proof {
                    self.lemma_set_dir_post(pre, i as int, d, key@, value@);
                }
                changed
            },
        }
    }

    /// Removes `key` from `scope` if present. Reports whether it was;
    /// exactly then the generation advances by one and an event enters the
    /// history. Unsetting an absent key, or in an unknown directory, is a
    /// silent no-op; an emptied directory scope is kept.
    pub fn unset(&mut self, scope: Scope, key: String) -> (existed: bool)
        requires
            old(self).wf(),
            old(self).generation < u64::MAX,
        ensures
            final(self).wf(),
            existed == old(self).scope_map(scope@).contains_key(key@),
            final(self).scope_map(scope@) == old(self).scope_map(scope@).remove(key@),
            final(self).globals@ == (match scope@ {
                ScopeView::Global => old(self).globals@.remove(key@),
                ScopeView::Dir(_) => old(self).globals@,
            }),
            forall|d: Seq<char>|
                scope@ != ScopeView::Dir(d) ==> #[trigger] final(self).dir_map(d) == old(
                    self,
                ).dir_map(d) && final(self).has_dir(d) == old(self).has_dir(d),
            final(self).dirs() == old(self).dirs(),
            forall|d: Seq<char>| final(self).has_dir(d) == old(self).has_dir(d),
            (scope@ matches ScopeView::Global) ==> final(self).scoped == old(self).scoped,
            final(self).generation == old(self).generation + (if existed {
                1int
            } else {
                0int
            }),
            existed ==> final(self).history@.len() == old(self).history@.len() + 1
                && final(self).history@.drop_last() == old(self).history@
                && final(self).history@.last()@ == (ChangeEventView {
                generation: (old(self).generation + 1) as u64,
                key: key@,
                scope: scope@,
            }),
            !existed ==> *final(self) == *old(self),
    {
        match scope {
            Scope::Global => {
                let existed = self.globals.remove(key.as_str());
                if existed {
                    self.bump(key, Scope::Global);
                    proof {
                        State::lemma_covered_step(*old(self), *self, key@, ScopeView::Global);
                        State::lemma_dir_maps_eq(*old(self), *self);
                    }
                } else {
                    proof {
                        assert(old(self).globals@.remove(key@) =~= old(self).globals@);
                        assert(*self == *old(self));
                    }
                }
                existed
            },
            Scope::Dir(path) => {
                let ghost pre = *old(self);
                let ghost d = path@;
                match self.find_dir(path.as_str()) {
                    Some(i) => {
                        proof {
                            pre.lemma_dir_map_at(i as int);
                        }
                        let present = self.scoped[i].1.get(key.as_str()).is_some();
                        if !present {
                            proof {
                                assert(pre.dir_map(d).remove(key@) =~= pre.dir_map(d));
                            }
                            return false;
                        }
                        let ghost sc1 = self.scoped@;
                        let mut entry = self.scoped.remove(i);
                        let existed = entry.1.remove(key.as_str());
                        self.scoped.insert(i, entry);
                        proof {
                            assert(self.scoped@ =~= sc1.update(i as int, self.scoped@[i as int]));
                            assert(self.scoped@[i as int].0@ == d);
                            assert(forall|j: int|
                                0 <= j < self.scoped@.len() && j != i ==> (
                                #[trigger] self.scoped@[j]) == sc1[j]);
                        }
                        self.bump(key, Scope::Dir(path));
                        proof {
                            self.lemma_unset_dir_post(pre, i as int, d, key@);
                        }
                        existed
                    },
                    None => {
                        proof {
                            assert(pre.dir_map(d) =~= Map::<Seq<char>, Seq<char>>::empty());
                            assert(pre.dir_map(d).remove(key@) =~= pre.dir_map(d));
                        }
                        false
                    },
                }
            },
        }
    }

    /// Discharges the postconditions of the directory case of `unset`.
    proof fn lemma_unset_dir_post(&self, pre: State, i: int, d: Seq<char>, k: Seq<char>)
        requires
            pre.wf(),
            0 <= i < pre.scoped@.len(),
            self.scoped@.len() == pre.scoped@.len(),
            pre.scoped@[i].0@ == d,
            self.scoped@[i].0@ == d,
            self.scoped@[i].1.wf(),
            self.scoped@[i].1@ == pre.dir_map(d).remove(k),
            forall|j: int|
                0 <= j < self.scoped@.len() && j != i ==> (#[trigger] self.scoped@[j])
                    == pre.scoped@[j],
            self.globals == pre.globals,
            self.history@.len() == pre.history@.len() + 1,
            self.history@.drop_last() == pre.history@,
            self.history@.last()@.key == k,
            self.history@.last()@.scope == ScopeView::Dir(d),
        ensures
            self.scoped_wf(),
            self.covered(),
            self.dir_map(d) == pre.dir_map(d).remove(k),
            forall|d2: Seq<char>|
                d2 != d ==> #[trigger] self.dir_map(d2) == pre.dir_map(d2) && self.has_dir(d2)
                    == pre.has_dir(d2),
            self.dirs() == pre.dirs(),
            forall|d2: Seq<char>| self.has_dir(d2) == pre.has_dir(d2),
    {
        assert(self.scoped_wf()) by {
            assert forall|a: int, b: int| 0 <= a < b < self.scoped@.len() implies (
            #[trigger] self.scoped@[a]).0@ != (#[trigger] self.scoped@[b]).0@ by {
                assert(self.scoped@[a].0@ == pre.scoped@[a].0@);
                assert(self.scoped@[b].0@ == pre.scoped@[b].0@);
            }
        }
        self.lemma_dir_map_at(i);
        assert forall|d2: Seq<char>| self.has_dir(d2) == pre.has_dir(d2) by {
            if self.has_dir(d2) {
                let j = choose|j: int|
                    0 <= j < self.scoped@.len() && (#[trigger] self.scoped@[j]).0@ == d2;
                assert(pre.scoped@[j].0@ == d2);
            }
            if pre.has_dir(d2) {
                let j = choose|j: int|
                    0 <= j < pre.scoped@.len() && (#[trigger] pre.scoped@[j]).0@ == d2;
                assert(self.scoped@[j].0@ == d2);
            }
        }
        assert forall|d2: Seq<char>| d2 != d implies #[trigger] self.dir_map(d2) == pre.dir_map(
            d2,
        ) && self.has_dir(d2) == pre.has_dir(d2) by {
            if self.has_dir(d2) {
                let j = choose|j: int|
                    0 <= j < self.scoped@.len() && (#[trigger] self.scoped@[j]).0@ == d2;
                assert(j != i);
                pre.lemma_dir_map_at(j);
                self.lemma_dir_map_at(j);
            }
        }
        assert(self.dirs() =~= pre.dirs());
        assert forall|j: int, k2: Seq<char>|
            0 <= j < self.scoped@.len()
                && #[trigger] self.scoped@[j].1@.contains_key(k2) implies (j < pre.scoped@.len()
            && pre.scoped@[j].0@ == self.scoped@[j].0@ && pre.scoped@[j].1@.contains_key(k2)) || (
        k2 == k && ScopeView::Dir(d) == ScopeView::Dir(self.scoped@[j].0@)) by {
            if j == i {
                pre.lemma_dir_map_at(i);
            }
        }
        State::lemma_covered_step(pre, *self, k, ScopeView::Dir(d));
    }

    /// Writes every `(key, value)` pair of `entries` into `scope`, in order:
    /// exactly one `set` per entry, with the same change detection, so the
    /// generation advances once per entry that actually changes something.
    pub fn load(&mut self, scope: Scope, entries: Vec<(String, String)>)
        requires
            old(self).wf(),
            old(self).generation + entries@.len() <= u64::MAX,
        ensures
            final(self).wf(),
            final(self).scope_map(scope@) == map_after(old(self).scope_map(scope@), entries@),
            final(self).globals@ == (match scope@ {
                ScopeView::Global => map_after(old(self).globals@, entries@),
                ScopeView::Dir(_) => old(self).globals@,
            }),
            forall|d: Seq<char>|
                scope@ != ScopeView::Dir(d) ==> #[trigger] final(self).dir_map(d) == old(
                    self,
                ).dir_map(d) && final(self).has_dir(d) == old(self).has_dir(d),
            final(self).dirs() == (match scope@ {
                ScopeView::Global => old(self).dirs(),
                ScopeView::Dir(d) => if old(self).has_dir(d) || entries@.len() == 0 {
                    old(self).dirs()
                } else {
                    old(self).dirs().push(d)
                },
            }),
            (scope@ matches ScopeView::Global) ==> final(self).scoped == old(self).scoped,
            final(self).generation == old(self).generation + changed_keys_of(
                old(self).scope_map(scope@),
                entries@,
            ).len(),
            final(self).history@.len() == old(self).history@.len() + changed_keys_of(
                old(self).scope_map(scope@),
                entries@,
            ).len(),
            final(self).history@.take(old(self).history@.len() as int) == old(self).history@,
            keys_of_events(final(self).history@.skip(old(self).history@.len() as int))
                == changed_keys_of(old(self).scope_map(scope@), entries@),
            forall|j: int|
                old(self).history@.len() <= j < final(self).history@.len() ==> (
                #[trigger] final(self).history@[j])@.scope == scope@
                    && final(self).history@[j]@.generation == old(self).generation + (j - old(
                    self,
                ).history@.len()) + 1,
    {
        let ghost pre = *old(self);
        let ghost hlen = pre.history@.len() as int;
        proof {
            assert(entries@.skip(0) =~= entries@);
            assert(self.history@.skip(hlen) =~= Seq::<ChangeEvent>::empty());
            assert(keys_of_events(Seq::<ChangeEvent>::empty()) =~= Seq::<Seq<char>>::empty());
            assert(Seq::<Seq<char>>::empty() + changed_keys_of(self.scope_map(scope@), entries@)
                =~= changed_keys_of(self.scope_map(scope@), entries@));
            assert(self.history@.take(hlen) =~= pre.history@);
        }
        let n = entries.len();
        let mut idx: usize = 0;
        while idx < n
            invariant
                0 <= idx <= n,
                n == entries@.len(),
                pre.wf(),
                pre.generation + n <= u64::MAX,
                hlen == pre.history@.len(),
                self.wf(),
                self.history@.len() - hlen <= idx,
                self.generation == pre.generation + (self.history@.len() - hlen),
                map_after(pre.scope_map(scope@), entries@) == map_after(
                    self.scope_map(scope@),
                    entries@.skip(idx as int),
                ),
                changed_keys_of(pre.scope_map(scope@), entries@) == keys_of_events(
                    self.history@.skip(hlen),
                ) + changed_keys_of(self.scope_map(scope@), entries@.skip(idx as int)),
                self.history@.len() >= hlen,
                self.history@.take(hlen) == pre.history@,
                forall|j: int|
                    hlen <= j < self.history@.len() ==> (#[trigger] self.history@[j])@.scope
                        == scope@ && self.history@[j]@.generation == pre.generation + (j - hlen)
                        + 1,
                self.globals@ == (match scope@ {
                    ScopeView::Global => self.scope_map(scope@),
                    ScopeView::Dir(_) => pre.globals@,
                }),
                forall|d: Seq<char>|
                    scope@ != ScopeView::Dir(d) ==> #[trigger] self.dir_map(d) == pre.dir_map(d)
                        && self.has_dir(d) == pre.has_dir(d),
                self.dirs() == (match scope@ {
                    ScopeView::Global => pre.dirs(),
                    ScopeView::Dir(d) => if pre.has_dir(d) || idx == 0 {
                        pre.dirs()
                    } else {
                        pre.dirs().push(d)
                    },
                }),
                match scope@ {
                    ScopeView::Global => self.scoped == pre.scoped,
                    ScopeView::Dir(d) => (idx == 0 ==> self.has_dir(d) == pre.has_dir(d)) && (idx
                        > 0 ==> self.has_dir(d)),
                },
            decreases n - idx,
        {
            let k = entries[idx].0.clone();
            let v = entries[idx].1.clone();
            let sc = scope.clone();
            let ghost mid = *self;
            let ghost rest = entries@.skip(idx as int);
            let changed = self.set(sc, k, v);
            proof {
                assert(rest[0] == entries@[idx as int]);
                assert(rest.skip(1) =~= entries@.skip(idx as int + 1));
                if changed {
                    assert(self.history@.drop_last() == mid.history@);
                    assert(forall|j: int|
                        0 <= j < mid.history@.len() ==> (#[trigger] self.history@[j])
                            == mid.history@[j]) by {
                        assert(forall|j: int|
                            0 <= j < mid.history@.len() ==> (
                            #[trigger] self.history@.drop_last()[j]) == self.history@[j]);
                    }
                    assert(self.history@.take(hlen) =~= mid.history@.take(hlen));
                    assert(self.history@.skip(hlen) =~= mid.history@.skip(hlen).push(
                        self.history@.last(),
                    ));
                    assert(keys_of_events(self.history@.skip(hlen)) =~= keys_of_events(
                        mid.history@.skip(hlen),
                    ).push(entries@[idx as int].0@));
                    assert(keys_of_events(mid.history@.skip(hlen)) + changed_keys_of(
                        mid.scope_map(scope@),
                        rest,
                    ) =~= keys_of_events(self.history@.skip(hlen)) + changed_keys_of(
                        self.scope_map(scope@),
                        rest.skip(1),
                    ));
                } else {
                    assert(*self == mid);
                }
            }
            idx = idx + 1;
        }
        proof {
            assert(entries@.skip(n as int) =~= Seq::<(String, String)>::empty());
            assert(keys_of_events(self.history@.skip(hlen)) + changed_keys_of(
                self.scope_map(scope@),
                entries@.skip(n as int),
            ) =~= keys_of_events(self.history@.skip(hlen)));
            assert(keys_of_events(self.history@.skip(hlen)).len() == self.history@.len() - hlen);
        }
    }

    /// The scope picked for `pwd`: deepest ancestor directory, first created
    /// on (unexpected) equal depth.
    pub open spec fn best_idx(self, pwd: Seq<char>) -> Option<int> {
        best_scope_upto(self.scoped@, pwd, self.scoped@.len() as int)
    }

    /// The value `key` has when seen from `pwd`: the best-matching directory
    /// scope's value if that scope defines the key, else the global value,
    /// else none.
    pub open spec fn effective(self, key: Seq<char>, pwd: Seq<char>) -> Option<Seq<char>> {
        let global = if self.globals@.contains_key(key) {
            Some(self.globals@[key])
        } else {
            None
        };
        match self.best_idx(pwd) {
            Some(i) => if self.scoped@[i].1@.contains_key(key) {
                Some(self.scoped@[i].1@[key])
            } else {
                global
            },
            None => global,
        }
    }

    /// Everything visible from `pwd`: the global map overlaid with the
    /// best-matching directory scope's map.
    pub open spec fn effective_map(self, pwd: Seq<char>) -> Map<Seq<char>, Seq<char>> {
        match self.best_idx(pwd) {
            Some(i) => self.globals@.union_prefer_right(self.scoped@[i].1@),
            None => self.globals@,
        }
    }

    /// Point lookups agree with the overlay map, key for key.
    pub proof fn lemma_effective_consistent(self, key: Seq<char>, pwd: Seq<char>)
        ensures
            self.effective(key, pwd) == (if self.effective_map(pwd).contains_key(key) {
                Some(self.effective_map(pwd)[key])
            } else {
                None::<Seq<char>>
            }),
    {
    }

    /// Which scope wins for `pwd` depends only on `dirs()`: two states with
    /// the same scope directories pick the same position.
    pub proof fn lemma_best_idx_from_dirs(a: State, b: State, pwd: Seq<char>)
        requires
            a.dirs() == b.dirs(),
        ensures
            a.best_idx(pwd) == b.best_idx(pwd),
    {
        assert(a.scoped@.len() == b.scoped@.len()) by {
            assert(a.dirs().len() == a.scoped@.len());
            assert(b.dirs().len() == b.scoped@.len());
        }
        assert forall|i: int| 0 <= i < a.scoped@.len() implies (#[trigger] a.scoped@[i]).0@
            == b.scoped@[i].0@ by {
            assert(a.dirs()[i] == a.scoped@[i].0@);
            assert(b.dirs()[i] == b.scoped@[i].0@);
        }
        lemma_best_scope_from_dirs(a.scoped@, b.scoped@, pwd, a.scoped@.len() as int);
    }

    /// Law (precedence, defining case): when the directory scope at `i` is
    /// an ancestor of `pwd`, defines `key`, and is strictly deeper than
    /// every other ancestor scope, the effective value is its value. The
    /// depth condition is over all ancestor scopes: a deeper ancestor scope
    /// that leaves `key` undefined hides a shallower definition, and the
    /// lookup then falls back to the globals.
    pub proof fn lemma_precedence(self, key: Seq<char>, pwd: Seq<char>, i: int)
        requires
            self.wf(),
            0 <= i < self.scoped@.len(),
            is_ancestor_of(self.scoped@[i].0@, pwd),
            self.scoped@[i].1@.contains_key(key),
            forall|j: int|
                0 <= j < self.scoped@.len() && j != i && is_ancestor_of(
                    (#[trigger] self.scoped@[j]).0@,
                    pwd,
                ) ==> path_depth(self.scoped@[j].0@) < path_depth(self.scoped@[i].0@),
        ensures
            self.effective(key, pwd) == Some(self.scoped@[i].1@[key]),
    {
        let n = self.scoped@.len() as int;
        lemma_best_scope_upto(self.scoped@, pwd, n);
        match self.best_idx(pwd) {
            Some(b) => {
                if b != i {
                    assert(path_depth(self.scoped@[b].0@) < path_depth(self.scoped@[i].0@));
                    assert(path_depth(self.scoped@[i].0@) <= path_depth(self.scoped@[b].0@));
                }
            },
            None => {
                assert(!is_ancestor_of(self.scoped@[i].0@, pwd));
            },
        }
    }

    /// Law (precedence, global case): when no ancestor directory scope
    /// defines `key`, the effective value is the global one, or absent when
    /// the globals lack it too.
    pub proof fn lemma_precedence_global(self, key: Seq<char>, pwd: Seq<char>)
        requires
            self.wf(),
            forall|j: int|
                0 <= j < self.scoped@.len() && is_ancestor_of(
                    (#[trigger] self.scoped@[j]).0@,
                    pwd,
                ) ==> !self.scoped@[j].1@.contains_key(key),
        ensures
            self.effective(key, pwd) == (if self.globals@.contains_key(key) {
                Some(self.globals@[key])
            } else {
                None::<Seq<char>>
            }),
    {
        let n = self.scoped@.len() as int;
        lemma_best_scope_upto(self.scoped@, pwd, n);
    }

    /// Finds the position of the best-matching directory scope for `pwd`:
    /// the deepest one that is an ancestor, the first created on equal depth.
    fn best_scope_for_pwd(&self, pwd: &str) -> (r: Option<usize>)
        ensures
            match r {
                Some(i) => self.best_idx(pwd@) == Some(i as int) && i < self.scoped@.len(),
                None => self.best_idx(pwd@) == None::<int>,
            },
    {
        let n = self.scoped.len();
        let mut best: Option<usize> = None;
        let mut i: usize = 0;
        while i < n
            invariant
                0 <= i <= n,
                n == self.scoped@.len(),
                match best {
                    None => best_scope_upto(self.scoped@, pwd@, i as int) == None::<int>,
                    Some(b) => b < i && best_scope_upto(self.scoped@, pwd@, i as int) == Some(
                        b as int,
                    ),
                },
            decreases n - i,
        {
            if is_ancestor(self.scoped[i].0.as_str(), pwd) {
                best = match best {
                    None => Some(i),
                    Some(b) => {
                        if path_component_count(self.scoped[i].0.as_str())
                            > path_component_count(self.scoped[b].0.as_str()) {
                            Some(i)
                        } else {
                            Some(b)
                        }
                    },
                };
            }
            i = i + 1;
        }
        best
    }

    /// The value `key` resolves to at `pwd`: the best-matching directory
    /// scope's value when that scope defines the key, else the global value.
    pub fn get_effective(&self, key: &str, pwd: &str) -> (r: Option<String>)
        requires
            self.wf(),
        ensures
            r.deep_view() == self.effective(key@, pwd@),
    {
        match self.best_scope_for_pwd(pwd) {
            Some(i) => {
                match self.scoped[i].1.get(key) {
                    Some(v) => Some(v.clone()),
                    None => match self.globals.get(key) {
                        Some(v) => Some(v.clone()),
                        None => None,
                    },
                }
            },
            None => match self.globals.get(key) {
                Some(v) => Some(v.clone()),
                None => None,
            },
        }
    }

    /// A fresh map of everything visible from `pwd`: the globals, overlaid
    /// key for key with the best-matching directory scope.
    pub fn effective_for_pwd(&self, pwd: &str) -> (r: VarMap)
        requires
            self.wf(),
        ensures
            r.wf(),
            r@ == self.effective_map(pwd@),
    {
        let mut r = VarMap::new();
        let n = self.globals.entries.len();
        let mut i: usize = 0;
        while i < n
            invariant
                0 <= i <= n,
                n == self.globals.entries@.len(),
                r.wf(),
                r@ == map_of(self.globals.entries@.take(i as int)),
            decreases n - i,
        {
            let k = self.globals.entries[i].0.clone();
            let v = self.globals.entries[i].1.clone();
            let ghost before = self.globals.entries@.take(i as int);
            r.insert(k, v);
            proof {
                let after = self.globals.entries@.take(i + 1int);
                assert(after.drop_last() =~= before);
                assert(after.last() == self.globals.entries@[i as int]);
            }
            i = i + 1;
        }
        proof {
            assert(self.globals.entries@.take(n as int) =~= self.globals.entries@);
        }
        match self.best_scope_for_pwd(pwd) {
            Some(b) => {
                proof {
                    assert(self.scoped@[b as int].1.wf());
                    assert(self.globals@.union_prefer_right(map_of(Seq::empty())) =~= self.globals@);
                    assert(self.scoped@[b as int].1.entries@.take(0) =~= Seq::<(String,
                        String)>::empty());
                }
                let m = self.scoped[b].1.entries.len();
                let mut j: usize = 0;
                while j < m
                    invariant
                        0 <= j <= m,
                        b < self.scoped@.len(),
                        m == self.scoped@[b as int].1.entries@.len(),
                        r.wf(),
                        r@ == self.globals@.union_prefer_right(
                            map_of(self.scoped@[b as int].1.entries@.take(j as int)),
                        ),
                    decreases m - j,
                {
                    let k = self.scoped[b].1.entries[j].0.clone();
                    let v = self.scoped[b].1.entries[j].1.clone();
                    let ghost before = self.scoped@[b as int].1.entries@.take(j as int);
                    r.insert(k, v);
                    proof {
                        let after = self.scoped@[b as int].1.entries@.take(j + 1int);
                        assert(after.drop_last() =~= before);
                        assert(after.last() == self.scoped@[b as int].1.entries@[j as int]);
                        assert(self.globals@.union_prefer_right(map_of(after))
                            =~= self.globals@.union_prefer_right(map_of(before)).insert(
                            after.last().0@,
                            after.last().1@,
                        ));
                    }
                    j = j + 1;
                }
                proof {
                    assert(self.scoped@[b as int].1.entries@.take(m as int)
                        =~= self.scoped@[b as int].1.entries@);
                }
                r
            },
            None => r,
        }
    }

    /// Discharges the postconditions of the directory case of `set`, given
    /// the concrete shape of the mutated `scoped` vector.
    proof fn lemma_set_dir_post(&self, pre: State, i: int, d: Seq<char>, k: Seq<char>, v: Seq<char>)
        requires
            pre.wf(),
            0 <= i < self.scoped@.len(),
            self.scoped@[i].0@ == d,
            self.scoped@[i].1.wf(),
            self.scoped@[i].1@ == pre.dir_map(d).insert(k, v),
            pre.has_dir(d) ==> self.scoped@.len() == pre.scoped@.len() && i < pre.scoped@.len()
                && pre.scoped@[i].0@ == d,
            !pre.has_dir(d) ==> self.scoped@.len() == pre.scoped@.len() + 1 && i
                == pre.scoped@.len(),
            forall|j: int|
                0 <= j < self.scoped@.len() && j != i ==> j < pre.scoped@.len() && (
                #[trigger] self.scoped@[j]) == pre.scoped@[j],
            self.globals == pre.globals,
            self.history@.len() == pre.history@.len() + 1,
            self.history@.drop_last() == pre.history@,
            self.history@.last()@.key == k,
            self.history@.last()@.scope == ScopeView::Dir(d),
        ensures
            self.scoped_wf(),
            self.covered(),
            self.dir_map(d) == pre.dir_map(d).insert(k, v),
            self.has_dir(d),
            forall|d2: Seq<char>|
                d2 != d ==> #[trigger] self.dir_map(d2) == pre.dir_map(d2) && self.has_dir(d2)
                    == pre.has_dir(d2),
            self.dirs() == (if pre.has_dir(d) {
                pre.dirs()
            } else {
                pre.dirs().push(d)
            }),
    {
        assert(self.scoped_wf()) by {
            assert forall|a: int, b: int| 0 <= a < b < self.scoped@.len() implies (
            #[trigger] self.scoped@[a]).0@ != (#[trigger] self.scoped@[b]).0@ by {
                if a != i && b != i {
                    assert(pre.scoped@[a].0@ != pre.scoped@[b].0@);
                } else if a == i {
                    assert(pre.has_dir(d));
                    assert(pre.scoped@[a].0@ == d);
                    assert(pre.scoped@[a].0@ != pre.scoped@[b].0@);
                } else {
                    assert(b == i);
                    if pre.has_dir(d) {
                        assert(pre.scoped@[b].0@ == d);
                        assert(pre.scoped@[a].0@ != pre.scoped@[b].0@);
                    } else {
                        assert(self.scoped@[a] == pre.scoped@[a]);
                        if pre.scoped@[a].0@ == d {
                            assert(pre.has_dir(d));
                        }
                    }
                }
            }
        }
        self.lemma_dir_map_at(i);
        assert(self.dir_map(d) == pre.dir_map(d).insert(k, v));
        assert forall|d2: Seq<char>| d2 != d implies #[trigger] self.dir_map(d2) == pre.dir_map(
            d2,
        ) && self.has_dir(d2) == pre.has_dir(d2) by {
            if self.has_dir(d2) {
                let j = choose|j: int|
                    0 <= j < self.scoped@.len() && (#[trigger] self.scoped@[j]).0@ == d2;
                assert(j != i);
                assert(pre.scoped@[j].0@ == d2);
                assert(pre.has_dir(d2));
                pre.lemma_dir_map_at(j);
                self.lemma_dir_map_at(j);
            } else if pre.has_dir(d2) {
                let j = choose|j: int|
                    0 <= j < pre.scoped@.len() && (#[trigger] pre.scoped@[j]).0@ == d2;
                assert(j != i || !pre.has_dir(d));
                if j == i && !pre.has_dir(d) {
                    assert(pre.scoped@[j].0@ == d2 && j < pre.scoped@.len());
                    assert(false);
                }
                assert(self.scoped@[j].0@ == d2);
                assert(self.has_dir(d2));
            }
        }
        assert(self.dirs() == (if pre.has_dir(d) {
            pre.dirs()
        } else {
            pre.dirs().push(d)
        })) by {
            if pre.has_dir(d) {
                assert(self.dirs() =~= pre.dirs());
            } else {
                assert(self.dirs() =~= pre.dirs().push(d));
            }
        }
        State::lemma_covered_step(pre, *self, k, ScopeView::Dir(d));
    }
}

} // verus!
