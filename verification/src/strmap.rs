//! A map from strings to strings, kept as a list of pairs with distinct keys.

use vstd::prelude::*;

use crate::text::str_eq;

verus! {

/// The pairs of a list as character sequences.
pub open spec fn pairs_view(s: Seq<(String, String)>) -> Seq<(Seq<char>, Seq<char>)> {
    s.map_values(|p: (String, String)| (p.0@, p.1@))
}

/// No key occurs twice.
pub open spec fn keys_unique(s: Seq<(Seq<char>, Seq<char>)>) -> bool {
    forall|i: int, j: int| 0 <= i < s.len() && 0 <= j < s.len() && i != j ==> s[i].0 != s[j].0
}

/// Whether some pair has key `k`.
pub open spec fn has_key(s: Seq<(Seq<char>, Seq<char>)>, k: Seq<char>) -> bool {
    exists|i: int| 0 <= i < s.len() && #[trigger] s[i].0 == k
}

/// The map that a list of pairs with distinct keys stands for.
pub open spec fn assoc_map(s: Seq<(Seq<char>, Seq<char>)>) -> Map<Seq<char>, Seq<char>> {
    Map::new(
        |k: Seq<char>| has_key(s, k),
        |k: Seq<char>| s[choose|i: int| 0 <= i < s.len() && #[trigger] s[i].0 == k].1,
    )
}

proof fn lemma_assoc_at(s: Seq<(Seq<char>, Seq<char>)>, i: int)
    requires
        keys_unique(s),
        0 <= i < s.len(),
    ensures
        assoc_map(s).contains_key(s[i].0),
        assoc_map(s)[s[i].0] == s[i].1,
{
    let k = s[i].0;
    assert(has_key(s, k));
    let j = choose|j: int| 0 <= j < s.len() && #[trigger] s[j].0 == k;
    assert(j == i);
}

/// A string-to-string map. Its view is the map it stands for.
pub struct StrMap {
    entries: Vec<(String, String)>,
}

impl StrMap {
    #[verifier::type_invariant]
    spec fn inv(self) -> bool {
        keys_unique(pairs_view(self.entries@))
    }

    /// The map, as plain values.
    pub closed spec fn as_map(self) -> Map<Seq<char>, Seq<char>> {
        assoc_map(pairs_view(self.entries@))
    }

    /// An empty map.
    pub fn new() -> (m: Self)
        ensures
            m@ == Map::<Seq<char>, Seq<char>>::empty(),
    {
        let m = StrMap { entries: Vec::new() };
        assert(m.as_map() =~= Map::<Seq<char>, Seq<char>>::empty());
        m
    }

    fn find(&self, key: &str) -> (r: Option<usize>)
        ensures
            match r {
                Some(i) => i < self.entries@.len() && self.entries@[i as int].0@ == key@,
                None => !has_key(pairs_view(self.entries@), key@),
            },
    {
        let n = self.entries.len();
        let mut i: usize = 0;
        while i < n
            invariant
                n == self.entries@.len(),
                i <= n,
                forall|j: int| 0 <= j < i ==> self.entries@[j].0@ != key@,
            decreases n - i,
        {
            if str_eq(self.entries[i].0.as_str(), key) {
                return Some(i);
            }
            i = i + 1;
        }
        let ghost s = pairs_view(self.entries@);
        assert forall|j: int| 0 <= j < s.len() implies #[trigger] s[j].0 != key@ by {
            assert(s[j].0 == self.entries@[j].0@);
        }
        None
    }

    /// The value stored under `key`, if any.
    pub fn get(&self, key: &str) -> (r: Option<String>)
        ensures
            match r {
                Some(v) => self@.contains_key(key@) && self@[key@] == v@,
                None => !self@.contains_key(key@),
            },
    {
        proof {
            use_type_invariant(self);
        }
        match self.find(key) {
            Some(i) => {
                proof {
                    lemma_assoc_at(pairs_view(self.entries@), i as int);
                }
                Some(self.entries[i].1.clone())
            },
            None => None,
        }
    }

    /// Stores (or overwrites) `value` under `key`.
    pub fn insert(&mut self, key: String, value: String)
        ensures
            final(self)@ == old(self)@.insert(key@, value@),
    {
        proof {
            use_type_invariant(&*self);
        }
        let ghost old_s = pairs_view(self.entries@);
        let mut entries: Vec<(String, String)> = Vec::new();
        std::mem::swap(&mut entries, &mut self.entries);
        let ghost kv = key@;
        let ghost vv = value@;
        match self.find_in(&entries, key.as_str()) {
            Some(i) => {
                entries.set(i, (key, value));
                let ghost s = pairs_view(entries@);
                assert(s =~= old_s.update(i as int, (kv, vv)));
                assert(old_s[i as int].0 == kv);
                assert forall|j: int| 0 <= j < s.len() implies #[trigger] s[j].0 == old_s[j].0 by {}
                assert(keys_unique(s));
                assert forall|k: Seq<char>| #[trigger] has_key(s, k) == has_key(old_s, k) by {
                    if has_key(s, k) {
                        let j = choose|j: int| 0 <= j < s.len() && #[trigger] s[j].0 == k;
                        assert(old_s[j].0 == k);
                    }
                    if has_key(old_s, k) {
                        let j = choose|j: int| 0 <= j < old_s.len() && #[trigger] old_s[j].0 == k;
                        assert(s[j].0 == k);
                    }
                }
                assert forall|k: Seq<char>| #[trigger] has_key(s, k) implies assoc_map(s)[k] == assoc_map(
                    old_s,
                ).insert(kv, vv)[k] by {
                    let j = choose|j: int| 0 <= j < s.len() && #[trigger] s[j].0 == k;
                    lemma_assoc_at(s, j);
                    lemma_assoc_at(old_s, j);
                }
                assert(assoc_map(s) =~= assoc_map(old_s).insert(kv, vv));
            },
            None => {
                entries.push((key, value));
                let ghost s = pairs_view(entries@);
                assert(s =~= old_s.push((kv, vv)));
                assert(keys_unique(s)) by {
                    assert forall|a: int, b: int|
                        0 <= a < s.len() && 0 <= b < s.len() && a != b implies s[a].0 != s[b].0 by {
                        if a == old_s.len() as int {
                            assert(old_s[b].0 != kv);
                        } else if b == old_s.len() as int {
                            assert(old_s[a].0 != kv);
                        }
                    }
                }
                assert forall|k: Seq<char>| #[trigger] has_key(s, k) == (has_key(old_s, k) || k
                    == kv) by {
                    if has_key(s, k) {
                        let j = choose|j: int| 0 <= j < s.len() && #[trigger] s[j].0 == k;
                        if j < old_s.len() {
                            assert(old_s[j].0 == k);
                        }
                    }
                    if has_key(old_s, k) {
                        let j = choose|j: int| 0 <= j < old_s.len() && #[trigger] old_s[j].0 == k;
                        assert(s[j].0 == k);
                    }
                    if k == kv {
                        assert(s[old_s.len() as int].0 == k);
                    }
                }
                assert forall|k: Seq<char>| #[trigger] has_key(s, k) implies assoc_map(s)[k] == assoc_map(
                    old_s,
                ).insert(kv, vv)[k] by {
                    let j = choose|j: int| 0 <= j < s.len() && #[trigger] s[j].0 == k;
                    lemma_assoc_at(s, j);
                    if j < old_s.len() {
                        lemma_assoc_at(old_s, j);
                    }
                }
                assert(assoc_map(s) =~= assoc_map(old_s).insert(kv, vv));
            },
        }
        self.entries = entries;
    }

    fn find_in(&self, entries: &Vec<(String, String)>, key: &str) -> (r: Option<usize>)
        ensures
            match r {
                Some(i) => i < entries@.len() && entries@[i as int].0@ == key@,
                None => !has_key(pairs_view(entries@), key@),
            },
    {
        let n = entries.len();
        let mut i: usize = 0;
        while i < n
            invariant
                n == entries@.len(),
                i <= n,
                forall|j: int| 0 <= j < i ==> entries@[j].0@ != key@,
            decreases n - i,
        {
            if str_eq(entries[i].0.as_str(), key) {
                return Some(i);
            }
            i = i + 1;
        }
        let ghost s = pairs_view(entries@);
        assert forall|j: int| 0 <= j < s.len() implies #[trigger] s[j].0 != key@ by {
            assert(s[j].0 == entries@[j].0@);
        }
        None
    }

    /// Removes the value stored under `key`; no change when there is none.
    pub fn remove(&mut self, key: &str)
        ensures
            final(self)@ == old(self)@.remove(key@),
    {
        proof {
            use_type_invariant(&*self);
        }
        let ghost old_s = pairs_view(self.entries@);
        let mut entries: Vec<(String, String)> = Vec::new();
        std::mem::swap(&mut entries, &mut self.entries);
        match self.find_in(&entries, key) {
            Some(i) => {
                entries.remove(i);
                let ghost s = pairs_view(entries@);
                assert(s =~= old_s.remove(i as int));
                assert(keys_unique(s)) by {
                    assert forall|a: int, b: int|
                        0 <= a < s.len() && 0 <= b < s.len() && a != b implies s[a].0 != s[b].0 by {
                        let a2 = if a < i {
                            a
                        } else {
                            a + 1
                        };
                        let b2 = if b < i {
                            b
                        } else {
                            b + 1
                        };
                        assert(s[a] == old_s[a2]);
                        assert(s[b] == old_s[b2]);
                    }
                }
                assert forall|k: Seq<char>| #[trigger] has_key(s, k) == (has_key(old_s, k) && k
                    != key@) by {
                    if has_key(s, k) {
                        let j = choose|j: int| 0 <= j < s.len() && #[trigger] s[j].0 == k;
                        let j2 = if j < i {
                            j
                        } else {
                            j + 1
                        };
                        assert(s[j] == old_s[j2]);
                        assert(old_s[j2].0 == k);
                        assert(old_s[i as int].0 == key@);
                    }
                    if has_key(old_s, k) && k != key@ {
                        let j = choose|j: int| 0 <= j < old_s.len() && #[trigger] old_s[j].0 == k;
                        assert(j != i);
                        let j2 = if j < i {
                            j
                        } else {
                            j - 1
                        };
                        assert(s[j2] == old_s[j]);
                        assert(s[j2].0 == k);
                    }
                }
                assert forall|k: Seq<char>| #[trigger] has_key(s, k) implies assoc_map(s)[k] == assoc_map(
                    old_s,
                ).remove(key@)[k] by {
                    let j = choose|j: int| 0 <= j < s.len() && #[trigger] s[j].0 == k;
                    lemma_assoc_at(s, j);
                    let j2 = if j < i {
                        j
                    } else {
                        j + 1
                    };
                    assert(s[j] == old_s[j2]);
                    lemma_assoc_at(old_s, j2);
                }
                assert(assoc_map(s) =~= assoc_map(old_s).remove(key@));
            },
            None => {
                assert(assoc_map(old_s) =~= assoc_map(old_s).remove(key@));
            },
        }
        self.entries = entries;
    }
}

impl View for StrMap {
    type V = Map<Seq<char>, Seq<char>>;

    open spec fn view(&self) -> Map<Seq<char>, Seq<char>> {
        self.as_map()
    }
}

} // verus!
