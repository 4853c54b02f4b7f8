//! A map from variable names to values, kept as a vector of entries with
//! pairwise-distinct keys and viewed as a `Map<Seq<char>, Seq<char>>`.

use vstd::prelude::*;
use crate::strutil::str_eq;

verus! {

/// The map denoted by a sequence of key/value entries; a later entry for the
/// same key wins.
pub open spec fn map_of(s: Seq<(String, String)>) -> Map<Seq<char>, Seq<char>>
    decreases s.len(),
{
    if s.len() == 0 {
        Map::empty()
    } else {
        map_of(s.drop_last()).insert(s.last().0@, s.last().1@)
    }
}

/// No two entries share a key.
pub open spec fn unique_keys(s: Seq<(String, String)>) -> bool {
    forall|i: int, j: int| 0 <= i < j < s.len() ==> (#[trigger] s[i]).0@ != (#[trigger] s[j]).0@
}

/// A key is in the map exactly when some entry holds it.
pub proof fn lemma_map_of_contains(s: Seq<(String, String)>)
    ensures
        forall|k: Seq<char>|
            map_of(s).contains_key(k) <==> (exists|i: int|
                0 <= i < s.len() && (#[trigger] s[i]).0@ == k),
    decreases s.len(),
{
    if s.len() > 0 {
        let d = s.drop_last();
        lemma_map_of_contains(d);
        assert forall|k: Seq<char>| map_of(s).contains_key(k) implies (exists|i: int|
            0 <= i < s.len() && (#[trigger] s[i]).0@ == k) by {
            if k == s.last().0@ {
                assert((s[s.len() - 1]).0@ == k);
            } else {
                assert(map_of(d).contains_key(k));
                let i = choose|i: int| 0 <= i < d.len() && (#[trigger] d[i]).0@ == k;
                assert(d[i] == s[i]);
                assert((s[i]).0@ == k);
            }
        }
        assert forall|k: Seq<char>|
            (exists|i: int| 0 <= i < s.len() && (#[trigger] s[i]).0@ == k) implies map_of(
            s,
        ).contains_key(k) by {
            let i = choose|i: int| 0 <= i < s.len() && (#[trigger] s[i]).0@ == k;
            if i < s.len() - 1 {
                assert((d[i]).0@ == k);
                assert(map_of(d).contains_key(k));
            } else {
                assert(k == s.last().0@);
            }
        }
    }
}

/// Each entry of a unique-keyed sequence is what the map returns for its key.
pub proof fn lemma_map_of_index(s: Seq<(String, String)>, i: int)
    requires
        unique_keys(s),
        0 <= i < s.len(),
    ensures
        map_of(s).contains_key(s[i].0@),
        map_of(s)[s[i].0@] == s[i].1@,
    decreases s.len(),
{
    let d = s.drop_last();
    if i == s.len() - 1 {
    } else {
        assert(s[i].0@ != s.last().0@);
        assert(d[i] == s[i]);
        lemma_map_of_index(d, i);
    }
}

/// A unique-keyed entry sequence denotes a finite map with one key per entry.
pub proof fn lemma_map_of_dom(s: Seq<(String, String)>)
    requires
        unique_keys(s),
    ensures
        map_of(s).dom().finite(),
        map_of(s).dom().len() == s.len(),
    decreases s.len(),
{
    if s.len() == 0 {
        assert(map_of(s).dom() =~= Set::<Seq<char>>::empty());
    } else {
        let d = s.drop_last();
        lemma_map_of_dom(d);
        lemma_map_of_contains(d);
        assert(!map_of(d).contains_key(s.last().0@)) by {
            if exists|i: int| 0 <= i < d.len() && (#[trigger] d[i]).0@ == s.last().0@ {
                let i = choose|i: int| 0 <= i < d.len() && (#[trigger] d[i]).0@ == s.last().0@;
                assert(s[i].0@ == s[s.len() - 1].0@);
            }
        }
        assert(map_of(s).dom() =~= map_of(d).dom().insert(s.last().0@));
        vstd::set::axiom_set_insert_len(map_of(d).dom(), s.last().0@);
    }
}

/// Updating the entry that holds a key is, on the map, an insert for that key.
proof fn lemma_map_of_update(s: Seq<(String, String)>, i: int, kv: (String, String))
    requires
        unique_keys(s),
        0 <= i < s.len(),
        s[i].0@ == kv.0@,
    ensures
        unique_keys(s.update(i, kv)),
        map_of(s.update(i, kv)) == map_of(s).insert(kv.0@, kv.1@),
    decreases s.len(),
{
    let u = s.update(i, kv);
    assert(unique_keys(u)) by {
        assert(forall|j: int| 0 <= j < s.len() && j != i ==> (#[trigger] u[j]).0@ == s[j].0@);
    }
    if i == s.len() - 1 {
        assert(u.drop_last() =~= s.drop_last());
        assert(map_of(u) =~= map_of(s).insert(kv.0@, kv.1@));
    } else {
        assert(u.drop_last() =~= s.drop_last().update(i, kv));
        assert(s.drop_last()[i] == s[i]);
        lemma_map_of_update(s.drop_last(), i, kv);
        assert(s[i].0@ != s.last().0@);
        assert(u.last() == s.last());
        assert(map_of(u) =~= map_of(s).insert(kv.0@, kv.1@));
    }
}

/// Removing the entry that holds a key removes exactly that key from the map.
proof fn lemma_map_of_remove(s: Seq<(String, String)>, i: int)
    requires
        unique_keys(s),
        0 <= i < s.len(),
    ensures
        unique_keys(s.remove(i)),
        map_of(s.remove(i)) == map_of(s).remove(s[i].0@),
    decreases s.len(),
{
    let r = s.remove(i);
    assert(unique_keys(r)) by {
        assert(forall|j: int| 0 <= j < i ==> (#[trigger] r[j]).0@ == s[j].0@);
        assert(forall|j: int| i <= j < r.len() ==> (#[trigger] r[j]).0@ == s[j + 1].0@);
    }
    lemma_map_of_contains(s.drop_last());
    if i == s.len() - 1 {
        assert(r =~= s.drop_last());
        assert(!map_of(s.drop_last()).contains_key(s[i].0@)) by {
            if exists|j: int| 0 <= j < s.len() - 1 && (#[trigger] s.drop_last()[j]).0@ == s[i].0@ {
                let j = choose|j: int|
                    0 <= j < s.len() - 1 && (#[trigger] s.drop_last()[j]).0@ == s[i].0@;
                assert(s[j].0@ == s[i].0@);
            }
        }
        assert(map_of(r) =~= map_of(s).remove(s[i].0@));
    } else {
        assert(r.drop_last() =~= s.drop_last().remove(i));
        assert(s.drop_last()[i] == s[i]);
        lemma_map_of_remove(s.drop_last(), i);
        assert(s[i].0@ != s.last().0@);
        assert(r.last() == s.last());
        assert(map_of(r) =~= map_of(s).remove(s[i].0@));
    }
}

/// A map from variable names to values; at most one entry per name.
#[derive(Debug)]
pub struct VarMap {
    pub entries: Vec<(String, String)>,
}

impl View for VarMap {
    type V = Map<Seq<char>, Seq<char>>;

    open spec fn view(&self) -> Map<Seq<char>, Seq<char>> {
        map_of(self.entries@)
    }
}

impl VarMap {
    /// All entry keys are pairwise distinct.
    pub open spec fn wf(&self) -> bool {
        unique_keys(self.entries@)
    }

    /// An empty map.
    pub fn new() -> (r: VarMap)
        ensures
            r.wf(),
            r@ == Map::<Seq<char>, Seq<char>>::empty(),
            r.entries@.len() == 0,
    {
        VarMap { entries: Vec::new() }
    }

    /// The position of the entry holding `key`, if one does.
    fn index_of(&self, key: &str) -> (r: Option<usize>)
        ensures
            match r {
                Some(i) => i < self.entries@.len() && self.entries@[i as int].0@ == key@,
                None => forall|j: int|
                    0 <= j < self.entries@.len() ==> (#[trigger] self.entries@[j]).0@ != key@,
            },
    {
        let n = self.entries.len();
        let mut i: usize = 0;
        while i < n
            invariant
                0 <= i <= n,
                n == self.entries@.len(),
                forall|j: int| 0 <= j < i ==> (#[trigger] self.entries@[j]).0@ != key@,
            decreases n - i,
        {
            if str_eq(self.entries[i].0.as_str(), key) {
                return Some(i);
            }
            i = i + 1;
        }
        None
    }

    /// The value bound to `key`, if any.
    pub fn get<'a>(&'a self, key: &str) -> (r: Option<&'a String>)
        requires
            self.wf(),
        ensures
            match r {
                Some(v) => self@.contains_key(key@) && self@[key@] == v@,
                None => !self@.contains_key(key@),
            },
    {
        proof {
            lemma_map_of_contains(self.entries@);
        }
        match self.index_of(key) {
            Some(i) => {
                proof {
                    lemma_map_of_index(self.entries@, i as int);
                }
                Some(&self.entries[i].1)
            },
            None => None,
        }
    }

    /// Binds `key` to `value`. Reports whether anything changed: the key was
    /// absent, or was bound to a different value.
    pub fn insert(&mut self, key: String, value: String) -> (changed: bool)
        requires
            old(self).wf(),
        ensures
            final(self).wf(),
            final(self)@ == old(self)@.insert(key@, value@),
            changed == !(old(self)@.contains_key(key@) && old(self)@[key@] == value@),
            !changed ==> *final(self) == *old(self),
    {
        proof {
            lemma_map_of_contains(self.entries@);
        }
        match self.index_of(key.as_str()) {
            Some(i) => {
                proof {
                    lemma_map_of_index(self.entries@, i as int);
                }
                if str_eq(self.entries[i].1.as_str(), value.as_str()) {
                    proof {
                        assert(old(self)@.insert(key@, value@) =~= old(self)@);
                    }
                    false
                } else {
                    proof {
                        lemma_map_of_update(self.entries@, i as int, (key, value));
                    }
                    let ghost s0 = self.entries@;
                    let _ = self.entries.remove(i);
                    self.entries.insert(i, (key, value));
                    proof {
                        assert(self.entries@ =~= s0.update(i as int, (key, value)));
                    }
                    true
                }
            },
            None => {
                let ghost s0 = self.entries@;
                self.entries.push((key, value));
                proof {
                    assert(self.entries@.drop_last() =~= s0);
                    assert(forall|j: int|
                        0 <= j < self.entries@.len() - 1 ==> (#[trigger] self.entries@[j])
                            == s0[j]);
                }
                true
            },
        }
    }

    /// Drops `key`. Reports whether it was bound.
    pub fn remove(&mut self, key: &str) -> (existed: bool)
        requires
            old(self).wf(),
        ensures
            final(self).wf(),
            final(self)@ == old(self)@.remove(key@),
            existed == old(self)@.contains_key(key@),
            !existed ==> *final(self) == *old(self),
    {
        proof {
            lemma_map_of_contains(self.entries@);
        }
        match self.index_of(key) {
            Some(i) => {
                proof {
                    lemma_map_of_index(self.entries@, i as int);
                    lemma_map_of_remove(self.entries@, i as int);
                }
                let _ = self.entries.remove(i);
                true
            },
            None => {
                proof {
                    assert(old(self)@.remove(key@) =~= old(self)@);
                }
                false
            },
        }
    }

    /// How many variables are bound.
    pub fn len(&self) -> (r: usize)
        requires
            self.wf(),
        ensures
            r == self@.dom().len(),
            r == self.entries@.len(),
    {
        proof {
            lemma_map_of_dom(self.entries@);
        }
        self.entries.len()
    }
}

} // verus!
