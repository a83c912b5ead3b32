use vstd::prelude::*;

verus! {

/// A finite map keyed by hashes, kept as two parallel vectors in insertion order.
///
/// vstd specifies `std::collections::HashMap` only for keys that obey its key model
/// (the integer types, `bool`, and boxes of them); a hash, a struct of four 64-bit limbs,
/// is not among them, so no contract over a `HashMap` keyed by it could be proved.
pub struct LookupTable<V> {
    keys: Vec<crate::sha256::Hash>,
    values: Vec<V>,
}

/// The map that parallel key and value sequences stand for.
pub open spec fn table_map<W>(keys: Seq<crate::sha256::Hash>, values: Seq<W>) -> Map<crate::sha256::Hash, W> {
    Map::new(|k: crate::sha256::Hash| keys.contains(k), |k: crate::sha256::Hash| values[keys.index_of(k)])
}

/// In a sequence without repetitions, an element's index is the one where it stands.
pub proof fn lemma_index_of_unique<A>(s: Seq<A>, i: int)
    requires
        s.no_duplicates(),
        0 <= i < s.len(),
    ensures
        s.index_of(s[i]) == i,
{
    assert(s.contains(s[i]));
}

impl<V: View> View for LookupTable<V> {
    type V = Map<crate::sha256::Hash, V::V>;

    closed spec fn view(&self) -> Map<crate::sha256::Hash, V::V> {
        table_map(self.key_seq(), self.value_seq())
    }
}

impl<V: View> LookupTable<V> {
    /// The keys, in the order the table keeps them.
    pub closed spec fn key_seq(&self) -> Seq<crate::sha256::Hash> {
        self.keys@
    }

    /// The views of the values, in the order of `key_seq`.
    pub closed spec fn value_seq(&self) -> Seq<V::V> {
        self.values@.map_values(|v: V| v@)
    }

    /// Keys and values line up and no key occurs twice.
    pub closed spec fn wf(&self) -> bool {
        &&& self.keys@.len() == self.values@.len()
        &&& self.keys@.no_duplicates()
    }

    /// What a well-formed table's view holds: exactly the keys of `key_seq`, each with the
    /// value at the same position.
    pub proof fn lemma_view(&self)
        requires
            self.wf(),
        ensures
            self.key_seq().no_duplicates(),
            self.key_seq().len() == self.value_seq().len(),
            forall|k: crate::sha256::Hash| #[trigger] self@.contains_key(k) <==> self.key_seq().contains(k),
            forall|i: int|
                0 <= i < self.key_seq().len() ==> #[trigger] self@[self.key_seq()[i]]
                    == self.value_seq()[i],
            self@.dom().finite(),
            self@.len() == self.key_seq().len(),
    {
        assert forall|i: int| 0 <= i < self.key_seq().len() implies #[trigger] self@[self.key_seq()[i]]
            == self.value_seq()[i] by {
            lemma_index_of_unique(self.keys@, i);
        }
        assert(self@.dom() =~= self.keys@.to_set());
        self.keys@.unique_seq_to_set();
    }

    /// An empty table.
    pub fn new() -> (r: Self)
        ensures
            r.wf(),
            r@ == Map::<crate::sha256::Hash, V::V>::empty(),
            r.key_seq() == Seq::<crate::sha256::Hash>::empty(),
    {
        let r = LookupTable { keys: Vec::new(), values: Vec::new() };
        assert(r@ =~= Map::<crate::sha256::Hash, V::V>::empty());
        r
    }

    /// The number of keys.
    pub fn len(&self) -> (r: usize)
        requires
            self.wf(),
        ensures
            r == self.key_seq().len(),
    {
        self.keys.len()
    }

    /// The position of a key, if the table holds it.
    fn position(&self, k: &crate::sha256::Hash) -> (r: Option<usize>)
        requires
            self.wf(),
        ensures
            r matches Some(i) ==> i < self.keys@.len() && self.keys@[i as int] == *k,
            r is None ==> !self.keys@.contains(*k),
    {
        let mut i: usize = 0;
        while i < self.keys.len()
            invariant
                self.wf(),
                i <= self.keys@.len(),
                forall|j: int| 0 <= j < i ==> self.keys@[j] != *k,
            decreases self.keys@.len() - i,
        {
            if self.keys[i].same(k) {
                return Some(i);
            }
            i = i + 1;
        }
        None
    }

    /// Whether the table holds a key.
    pub fn contains_key(&self, k: &crate::sha256::Hash) -> (b: bool)
        requires
            self.wf(),
        ensures
            b == self@.contains_key(*k),
    {
        self.position(k).is_some()
    }

    /// The value stored under a key.
    pub fn get(&self, k: &crate::sha256::Hash) -> (r: Option<&V>)
        requires
            self.wf(),
        ensures
            r is Some <==> self@.contains_key(*k),
            r matches Some(v) ==> v@ == self@[*k],
    {
        match self.position(k) {
            Some(i) => {
                proof {
                    lemma_index_of_unique(self.keys@, i as int);
                }
                Some(&self.values[i])
            },
            None => None,
        }
    }

    /// The key at a position of `key_seq`.
    pub fn key_at(&self, i: usize) -> (r: crate::sha256::Hash)
        requires
            self.wf(),
            i < self.key_seq().len(),
        ensures
            r == self.key_seq()[i as int],
    {
        self.keys[i]
    }

    /// The value at a position of `key_seq`.
    pub fn value_at(&self, i: usize) -> (r: &V)
        requires
            self.wf(),
            i < self.key_seq().len(),
        ensures
            r@ == self.value_seq()[i as int],
    {
        &self.values[i]
    }

    /// Stores `v` under `k`, replacing what was there; returns the value it replaced.
    pub fn insert(&mut self, k: crate::sha256::Hash, v: V) -> (r: Option<V>)
        requires
            old(self).wf(),
        ensures
            final(self).wf(),
            final(self)@ == old(self)@.insert(k, v@),
            r is Some <==> old(self)@.contains_key(k),
            r matches Some(w) ==> w@ == old(self)@[k],
            old(self)@.contains_key(k) ==> final(self).key_seq() == old(self).key_seq(),
            !old(self)@.contains_key(k) ==> final(self).key_seq() == old(self).key_seq().push(k),
    {
        let ghost vv = v@;
        match self.position(&k) {
            Some(i) => {
                proof {
                    lemma_index_of_unique(self.keys@, i as int);
                }
                let mut v = v;
                std::mem::swap(&mut self.values[i], &mut v);
                proof {
                    assert(self.values@ == old(self).values@.update(i as int, self.values@[i as int]));
                    assert forall|j: int| 0 <= j < self.keys@.len() && j != i implies self.keys@[j]
                        != k by {}
                    assert(self@ =~= old(self)@.insert(k, vv)) by {
                        assert forall|kk: crate::sha256::Hash| #[trigger] self@.contains_key(kk) implies
                            self@[kk] == old(self)@.insert(k, vv)[kk] by {
                            let j = self.keys@.index_of(kk);
                            assert(self.keys@.contains(kk));
                            if kk != k {
                                assert(j != i);
                            }
                        }
                    }
                }
                Some(v)
            },
            None => {
                self.keys.push(k);
                self.values.push(v);
                proof {
                    let n = old(self).keys@.len();
                    assert(self.keys@.no_duplicates()) by {
                        assert forall|a: int, b: int|
                            0 <= a < self.keys@.len() && 0 <= b < self.keys@.len() && a != b
                            implies self.keys@[a] != self.keys@[b] by {
                            if a == n {
                                assert(old(self).keys@[b] != k);
                            } else if b == n {
                                assert(old(self).keys@[a] != k);
                            }
                        }
                    }
                    lemma_index_of_unique(self.keys@, n as int);
                    assert(self@ =~= old(self)@.insert(k, vv)) by {
                        assert forall|kk: crate::sha256::Hash| #[trigger] self@.contains_key(kk) implies
                            self@[kk] == old(self)@.insert(k, vv)[kk] by {
                            if kk != k {
                                let j = self.keys@.index_of(kk);
                                assert(self.keys@.contains(kk));
                                assert(j < n);
                                assert(old(self).keys@.contains(kk));
                                lemma_index_of_unique(old(self).keys@, j);
                            }
                        }
                        assert forall|kk: crate::sha256::Hash| #[trigger] old(self)@.insert(k, vv).contains_key(kk)
                            implies self@.contains_key(kk) by {
                            if kk != k {
                                let j = old(self).keys@.index_of(kk);
                                assert(self.keys@[j] == kk);
                            }
                        }
                    }
                    assert(self.key_seq() =~= old(self).key_seq().push(k));
                }
                None
            },
        }
    }

    /// Takes out the value stored under a key, if any.
    pub fn remove(&mut self, k: &crate::sha256::Hash) -> (r: Option<V>)
        requires
            old(self).wf(),
        ensures
            final(self).wf(),
            final(self)@ == old(self)@.remove(*k),
            r is Some <==> old(self)@.contains_key(*k),
            r matches Some(w) ==> w@ == old(self)@[*k],
    {
        match self.position(k) {
            Some(i) => {
                proof {
                    lemma_index_of_unique(self.keys@, i as int);
                }
                self.keys.remove(i);
                let w = self.values.remove(i);
                proof {
                    let ok = old(self).keys@;
                    let kk0 = *k;
                    assert(self.keys@.no_duplicates()) by {
                        assert forall|a: int, b: int|
                            0 <= a < self.keys@.len() && 0 <= b < self.keys@.len() && a != b
                            implies self.keys@[a] != self.keys@[b] by {
                            let a2 = if a < i { a } else { a + 1 };
                            let b2 = if b < i { b } else { b + 1 };
                            assert(self.keys@[a] == ok[a2]);
                            assert(self.keys@[b] == ok[b2]);
                        }
                    }
                    assert(self@ =~= old(self)@.remove(kk0)) by {
                        assert forall|kk: crate::sha256::Hash| #[trigger] self@.contains_key(kk) implies
                            old(self)@.remove(kk0).contains_key(kk) && self@[kk] == old(self)@.remove(kk0)[kk] by {
                            let j = self.keys@.index_of(kk);
                            assert(self.keys@.contains(kk));
                            let j2 = if j < i { j } else { j + 1 };
                            assert(ok[j2] == kk);
                            assert(ok.contains(kk));
                            lemma_index_of_unique(ok, j2);
                            assert(kk != kk0);
                        }
                        assert forall|kk: crate::sha256::Hash| #[trigger] old(self)@.remove(kk0).contains_key(kk)
                            implies self@.contains_key(kk) by {
                            let j = ok.index_of(kk);
                            assert(ok.contains(kk));
                            assert(j != i);
                            let j2 = if j < i { j } else { j - 1 };
                            assert(self.keys@[j2] == kk);
                        }
                    }
                }
                Some(w)
            },
            None => {
                proof {
                    assert(self@ =~= old(self)@.remove(*k));
                }
                None
            },
        }
    }
}

} // verus!
