use vstd::prelude::*;
use crate::chars::str_eq;

verus! {

/// A map keyed by strings, kept as a list of entries in order of first insertion.
/// No two entries share a key.
#[derive(Debug, PartialEq, Eq)]
pub struct StrMap<V> {
    entries: Vec<(String, V)>,
}

impl<V> StrMap<V> {
    /// The keys of the entries, in order.
    pub closed spec fn keys(&self) -> Seq<Seq<char>> {
        self.entries@.map_values(|e: (String, V)| e.0@)
    }

    /// No two entries share a key.
    #[verifier::type_invariant]
    spec fn wf(&self) -> bool {
        forall|i: int, j: int|
            0 <= i < j < self.entries@.len() ==> self.entries@[i].0@ != self.entries@[j].0@
    }

    /// The index of the entry holding `k`, if any.
    pub closed spec fn index_of(&self, k: Seq<char>) -> int {
        choose|i: int| 0 <= i < self.entries@.len() && self.entries@[i].0@ == k
    }

    pub closed spec fn view(&self) -> Map<Seq<char>, V> {
        Map::new(
            |k: Seq<char>| exists|i: int| 0 <= i < self.entries@.len() && self.entries@[i].0@ == k,
            |k: Seq<char>| self.entries@[self.index_of(k)].1,
        )
    }

    /// The empty map.
    pub fn new() -> (r: Self)
        ensures
            r@ == Map::<Seq<char>, V>::empty(),
    {
        let r = StrMap { entries: Vec::new() };
        assert(r@ =~= Map::<Seq<char>, V>::empty());
        r
    }

    proof fn lemma_at(&self, i: int)
        requires
            self.wf(),
            0 <= i < self.entries@.len(),
        ensures
            self@.contains_key(self.entries@[i].0@),
            self@[self.entries@[i].0@] == self.entries@[i].1,
    {
        let k = self.entries@[i].0@;
        assert(exists|j: int| 0 <= j < self.entries@.len() && self.entries@[j].0@ == k);
        let j = self.index_of(k);
        assert(i == j);
    }

    /// The position of `key` among the entries.
    fn find(&self, key: &str) -> (r: Option<usize>)
        requires
            self.wf(),
        ensures
            r is None <==> !self@.contains_key(key@),
            r matches Some(i) ==> i < self.entries@.len() && self.entries@[i as int].0@ == key@,
    {
        let mut i: usize = 0;
        while i < self.entries.len()
            invariant
                i <= self.entries@.len(),
                forall|j: int| 0 <= j < i ==> self.entries@[j].0@ != key@,
            decreases self.entries@.len() - i,
        {
            if str_eq(self.entries[i].0.as_str(), key) {
                return Some(i);
            }
            i = i + 1;
        }
        None
    }

    /// The value stored under `key`.
    pub fn get(&self, key: &str) -> (r: Option<&V>)
        ensures
            r is None <==> !self@.contains_key(key@),
            r matches Some(v) ==> *v == self@[key@],
    {
        proof {
            use_type_invariant(self);
        }
        match self.find(key) {
            Some(i) => {
                proof {
                    self.lemma_at(i as int);
                }
                Some(&self.entries[i].1)
            },
            None => None,
        }
    }

    /// Stores `value` under `key`, replacing what was stored there before.
    pub fn insert(&mut self, key: String, value: V)
        ensures
            final(self)@ == old(self)@.insert(key@, value),
    {
        proof {
            use_type_invariant(&*self);
        }
        let ghost k = key@;
        let ghost v = value;
        let found = self.find(key.as_str());
        let mut entries: Vec<(String, V)> = Vec::new();
        std::mem::swap(&mut entries, &mut self.entries);
        match found {
            Some(i) => {
                entries.set(i, (key, value));
                self.entries = entries;
                proof {
                    let m = old(self)@.insert(k, v);
                    assert forall|x: Seq<char>| #[trigger] self@.contains_key(x) == m.contains_key(x) by {
                        if m.contains_key(x) {
                            if x == k {
                                self.lemma_at(i as int);
                            } else {
                                let j = old(self).index_of(x);
                                self.lemma_at(j);
                            }
                        }
                        if self@.contains_key(x) {
                            let j = self.index_of(x);
                            if j != i {
                                old(self).lemma_at(j);
                            }
                        }
                    }
                    assert forall|x: Seq<char>| #[trigger] m.contains_key(x) implies self@[x] == m[x] by {
                        if x == k {
                            self.lemma_at(i as int);
                        } else {
                            let j = old(self).index_of(x);
                            old(self).lemma_at(j);
                            self.lemma_at(j);
                        }
                    }
                    assert(self@ =~= m);
                }
            },
            None => {
                entries.push((key, value));
                let ghost n = old(self).entries@.len() as int;
                assert forall|a: int, b: int|
                    0 <= a < b < entries@.len() implies entries@[a].0@ != entries@[b].0@ by {
                    if b == n {
                        old(self).lemma_at(a);
                    }
                }
                self.entries = entries;
                proof {
                    let m = old(self)@.insert(k, v);
                    assert forall|x: Seq<char>| #[trigger] self@.contains_key(x) == m.contains_key(x) by {
                        if m.contains_key(x) {
                            if x == k {
                                self.lemma_at(n);
                            } else {
                                let j = old(self).index_of(x);
                                self.lemma_at(j);
                            }
                        }
                        if self@.contains_key(x) {
                            let j = self.index_of(x);
                            if j != n {
                                old(self).lemma_at(j);
                            }
                        }
                    }
                    assert forall|x: Seq<char>| #[trigger] m.contains_key(x) implies self@[x] == m[x] by {
                        if x == k {
                            self.lemma_at(n);
                        } else {
                            let j = old(self).index_of(x);
                            old(self).lemma_at(j);
                            self.lemma_at(j);
                        }
                    }
                    assert(self@ =~= m);
                }
            },
        }
    }
}

} // verus!
