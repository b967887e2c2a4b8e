//! A map keyed by path strings.
use vstd::prelude::*;
use vstd::string::*;

verus! {

/// A finite map from paths to values, in insertion order, each path at most
/// once.
pub struct PathMap<V> {
    items: Vec<(String, V)>,
}

impl<V> PathMap<V> {
    #[verifier::type_invariant]
    spec fn keys_unique(self) -> bool {
        forall|i: int, j: int|
            0 <= i < j < self.items.len() ==> #[trigger] self.items[i].0@ != #[trigger] self.items[j].0@
    }

    spec fn has_at(self, k: Seq<char>, i: int) -> bool {
        0 <= i < self.items.len() && self.items[i].0@ == k
    }

    /// The paths and the values they map to.
    pub closed spec fn view(self) -> Map<Seq<char>, V> {
        Map::new(
            |k: Seq<char>| exists|i: int| self.has_at(k, i),
            |k: Seq<char>| self.items[choose|i: int| self.has_at(k, i)].1,
        )
    }

    proof fn lemma_view_at(self, i: int)
        requires
            self.keys_unique(),
            0 <= i < self.items.len(),
        ensures
            self.view().contains_key(self.items[i].0@),
            self.view()[self.items[i].0@] == self.items[i].1,
    {
        let k = self.items[i].0@;
        assert(self.has_at(k, i));
        let c = choose|j: int| self.has_at(k, j);
        assert(self.has_at(k, c));
        assert(c == i);
    }

    /// An empty map.
    pub fn new() -> (m: Self)
        ensures
            m.view() == Map::<Seq<char>, V>::empty(),
    {
        let m = PathMap { items: Vec::new() };
        assert(m.view() =~= Map::<Seq<char>, V>::empty());
        m
    }

    fn find(&self, key: &str) -> (r: Option<usize>)
        ensures
            match r {
                Some(i) => self.has_at(key@, i as int),
                None => forall|i: int| !self.has_at(key@, i),
            },
    {
        let k = String::from_str(key);
        let mut i: usize = 0;
        while i < self.items.len()
            invariant
                i <= self.items.len(),
                k@ == key@,
                forall|j: int| 0 <= j < i ==> !self.has_at(key@, j),
            decreases self.items.len() - i,
        {
            if self.items[i].0 == k {
                return Some(i);
            }
            i += 1;
        }
        None
    }

    /// Whether `key` is mapped.
    pub fn contains_key(&self, key: &str) -> (r: bool)
        ensures
            r == self.view().contains_key(key@),
    {
        proof {
            use_type_invariant(self);
        }
        match self.find(key) {
            Some(i) => {
                proof {
                    self.lemma_view_at(i as int);
                }
                true
            },
            None => false,
        }
    }

    /// The value `key` maps to, if any.
    pub fn get(&self, key: &str) -> (r: Option<&V>)
        ensures
            match r {
                Some(v) => self.view().contains_key(key@) && *v == self.view()[key@],
                None => !self.view().contains_key(key@),
            },
    {
        proof {
            use_type_invariant(self);
        }
        match self.find(key) {
            Some(i) => {
                proof {
                    self.lemma_view_at(i as int);
                }
                Some(&self.items[i].1)
            },
            None => None,
        }
    }

    /// The number of paths mapped.
    pub fn len(&self) -> (n: usize)
        ensures
            n == self.view().len(),
    {
        proof {
            use_type_invariant(self);
            self.lemma_len();
        }
        self.items.len()
    }

    proof fn lemma_len(self)
        requires
            self.keys_unique(),
        ensures
            self.view().len() == self.items.len(),
            self.view().dom().finite(),
    {
        let keys = self.items@.map_values(|p: (String, V)| p.0@);
        assert forall|i: int, j: int| 0 <= i < j < keys.len() implies keys[i] != keys[j] by {
            assert(self.items[i].0@ != self.items[j].0@);
        }
        assert(keys.no_duplicates());
        keys.unique_seq_to_set();
        assert(self.view().dom() =~= keys.to_set()) by {
            assert forall|k: Seq<char>| self.view().dom().contains(k) implies keys.to_set().contains(k) by {
                let i = choose|i: int| self.has_at(k, i);
                assert(keys[i] == k);
            }
            assert forall|k: Seq<char>| keys.to_set().contains(k) implies self.view().dom().contains(k) by {
                let i = choose|i: int| 0 <= i < keys.len() && keys[i] == k;
                assert(self.has_at(k, i));
            }
        }
    }

    /// Maps `key` to `value`, replacing the value of a path already mapped.
    pub fn insert(&mut self, key: String, value: V)
        ensures
            final(self).view() == old(self).view().insert(key@, value),
    {
        proof {
            use_type_invariant(&*self);
        }
        let ghost old_map = self.view();
        match self.find(key.as_str()) {
            Some(i) => {
                let ghost k = key@;
                let mut items: Vec<(String, V)> = Vec::new();
                std::mem::swap(&mut items, &mut self.items);
                items.set(i, (key, value));
                proof {
                    assert forall|a: int, b: int| 0 <= a < b < items.len() implies #[trigger] items[a].0@ != #[trigger] items[b].0@ by {
                        assert(old(self).items[a].0@ != old(self).items[b].0@);
                    }
                }
                self.items = items;
                proof {
                    assert(self.view() =~= old_map.insert(k, value)) by {
                        assert forall|q: Seq<char>| #[trigger] self.view().contains_key(q) == old_map.insert(k, value).contains_key(q) by {
                            if self.view().contains_key(q) {
                                let j = choose|j: int| self.has_at(q, j);
                                if j != i {
                                    assert(old(self).has_at(q, j));
                                }
                            }
                            if old_map.contains_key(q) {
                                let j = choose|j: int| old(self).has_at(q, j);
                                if j != i {
                                    assert(self.has_at(q, j));
                                } else {
                                    assert(self.has_at(q, i as int));
                                }
                            }
                            if q == k {
                                assert(self.has_at(q, i as int));
                            }
                        }
                        assert forall|q: Seq<char>| #[trigger] self.view().contains_key(q) implies self.view()[q] == old_map.insert(k, value)[q] by {
                            let j = choose|j: int| self.has_at(q, j);
                            self.lemma_view_at(j);
                            if q != k {
                                assert(j != i);
                                old(self).lemma_view_at(j);
                            }
                        }
                    }
                }
            },
            None => {
                let ghost k = key@;
                let mut items: Vec<(String, V)> = Vec::new();
                std::mem::swap(&mut items, &mut self.items);
                items.push((key, value));
                proof {
                    assert forall|a: int, b: int| 0 <= a < b < items.len() implies #[trigger] items[a].0@ != #[trigger] items[b].0@ by {
                        if b == items.len() - 1 {
                            assert(!old(self).has_at(k, a));
                        } else {
                            assert(old(self).items[a] == items[a]);
                            assert(old(self).items[b] == items[b]);
                        }
                    }
                }
                self.items = items;
                proof {
                    assert(self.view() =~= old_map.insert(k, value)) by {
                        let n = old(self).items.len() as int;
                        assert forall|q: Seq<char>| #[trigger] self.view().contains_key(q) == old_map.insert(k, value).contains_key(q) by {
                            if self.view().contains_key(q) {
                                let j = choose|j: int| self.has_at(q, j);
                                if j != n {
                                    assert(old(self).has_at(q, j));
                                }
                            }
                            if old_map.contains_key(q) {
                                let j = choose|j: int| old(self).has_at(q, j);
                                assert(self.has_at(q, j));
                            }
                            if q == k {
                                assert(self.has_at(q, n));
                            }
                        }
                        assert forall|q: Seq<char>| #[trigger] self.view().contains_key(q) implies self.view()[q] == old_map.insert(k, value)[q] by {
                            let j = choose|j: int| self.has_at(q, j);
                            self.lemma_view_at(j);
                            if q != k {
                                assert(j != n);
                                old(self).lemma_view_at(j);
                            } else {
                                self.lemma_view_at(n);
                            }
                        }
                    }
                }
            },
        }
    }
}

} // verus!
