//! A map from byte strings to values, kept as a list of bindings in the
//! order in which the keys were first bound.

use crate::text::bytes_eq;
use vstd::prelude::*;

verus! {

/// A finite map keyed by byte strings. No key is bound twice.
pub struct ByteMap<V> {
    keys: Vec<Vec<u8>>,
    vals: Vec<V>,
}

impl<V> ByteMap<V> {
    /// As many values as keys, and no key twice.
    pub closed spec fn wf(&self) -> bool {
        &&& self.keys@.len() == self.vals@.len()
        &&& forall|i: int, j: int|
            0 <= i < j < self.keys@.len() ==> (#[trigger] self.keys@[i])@ != (
            #[trigger] self.keys@[j])@
    }

    /// Whether `k` is bound.
    pub closed spec fn has(&self, k: Seq<u8>) -> bool {
        exists|i: int| 0 <= i < self.keys@.len() && (#[trigger] self.keys@[i])@ == k
    }

    /// The place of `k` among the bindings.
    pub closed spec fn place(&self, k: Seq<u8>) -> int {
        choose|i: int| 0 <= i < self.keys@.len() && (#[trigger] self.keys@[i])@ == k
    }

    /// The map that the bindings make.
    pub closed spec fn map(&self) -> Map<Seq<u8>, V> {
        Map::new(|k: Seq<u8>| self.has(k), |k: Seq<u8>| self.vals@[self.place(k)])
    }

    /// The keys, in the order in which they were first bound.
    pub closed spec fn key_seq(&self) -> Seq<Seq<u8>> {
        Seq::new(self.keys@.len(), |i: int| self.keys@[i]@)
    }

    /// The values, each at the index of its key in `key_seq`.
    pub closed spec fn val_seq(&self) -> Seq<V> {
        self.vals@
    }

    /// The list of bindings and the map say the same.
    pub proof fn lemma_bindings(&self)
        requires
            self.wf(),
        ensures
            self.key_seq().len() == self.val_seq().len(),
            self.key_seq().no_duplicates(),
            forall|i: int|
                0 <= i < self.key_seq().len() ==> self.map().contains_key(
                    #[trigger] self.key_seq()[i],
                ) && self.map()[self.key_seq()[i]] == self.val_seq()[i],
            forall|k: Seq<u8>| #[trigger]
                self.map().contains_key(k) ==> exists|i: int|
                    0 <= i < self.key_seq().len() && #[trigger] self.key_seq()[i] == k,
            self.map().dom() == self.key_seq().to_set(),
            self.map().dom().finite(),
            self.map().dom().len() == self.key_seq().len(),
    {
        let ks = self.key_seq();
        assert forall|i: int| 0 <= i < ks.len() implies self.map().contains_key(#[trigger] ks[i])
            && self.map()[ks[i]] == self.val_seq()[i] by {
            self.lemma_place(i);
        }
        assert forall|k: Seq<u8>| #[trigger] self.map().contains_key(k) implies exists|i: int|
            0 <= i < ks.len() && #[trigger] ks[i] == k by {
            let i = self.place(k);
            assert(ks[i] == k);
        }
        assert forall|i: int, j: int| 0 <= i < ks.len() && 0 <= j < ks.len() && i != j implies ks[i]
            != ks[j] by {
            if i < j {
                assert(self.keys@[i]@ != self.keys@[j]@);
            } else {
                assert(self.keys@[j]@ != self.keys@[i]@);
            }
        }
        assert(self.map().dom() =~= ks.to_set()) by {
            assert forall|k: Seq<u8>| self.map().dom().contains(k) <==> ks.to_set().contains(
                k,
            ) by {
                if self.map().dom().contains(k) {
                    let i = self.place(k);
                    assert(ks[i] == k);
                }
                if ks.to_set().contains(k) {
                    let i = choose|i: int| 0 <= i < ks.len() && ks[i] == k;
                    assert(self.keys@[i]@ == k);
                }
            }
        }
        ks.unique_seq_to_set();
        vstd::seq_lib::seq_to_set_is_finite(ks);
    }

    proof fn lemma_place(&self, i: int)
        requires
            self.wf(),
            0 <= i < self.keys@.len(),
        ensures
            self.has(self.keys@[i]@),
            self.place(self.keys@[i]@) == i,
            self.map().contains_key(self.keys@[i]@),
            self.map()[self.keys@[i]@] == self.vals@[i],
    {
        let k = self.keys@[i]@;
        let j = self.place(k);
        if j < i {
            assert(self.keys@[j]@ != self.keys@[i]@);
        } else if i < j {
            assert(self.keys@[i]@ != self.keys@[j]@);
        }
    }

    /// An empty map.
    pub fn new() -> (r: Self)
        ensures
            r.wf(),
            r.map() == Map::<Seq<u8>, V>::empty(),
            r.key_seq() == Seq::<Seq<u8>>::empty(),
            r.val_seq() == Seq::<V>::empty(),
    {
        let r = ByteMap { keys: Vec::new(), vals: Vec::new() };
        assert(r.map() =~= Map::<Seq<u8>, V>::empty());
        assert(r.key_seq() =~= Seq::<Seq<u8>>::empty());
        r
    }

    /// The number of bindings.
    pub fn len(&self) -> (r: usize)
        requires
            self.wf(),
        ensures
            r == self.key_seq().len(),
            r == self.map().dom().len(),
    {
        proof {
            self.lemma_bindings();
        }
        self.keys.len()
    }

    /// The index of `key` among the bindings.
    pub fn index_of(&self, key: &[u8]) -> (r: Option<usize>)
        requires
            self.wf(),
        ensures
            match r {
                Some(i) => i < self.key_seq().len() && self.key_seq()[i as int] == key@
                    && self.map().contains_key(key@) && self.map()[key@] == self.val_seq()[i as int],
                None => !self.map().contains_key(key@),
            },
    {
        let mut i: usize = 0;
        while i < self.keys.len()
            invariant
                self.wf(),
                i <= self.keys@.len(),
                forall|j: int| 0 <= j < i ==> (#[trigger] self.keys@[j])@ != key@,
            decreases self.keys@.len() - i,
        {
            if bytes_eq(self.keys[i].as_slice(), key) {
                proof {
                    self.lemma_place(i as int);
                }
                return Some(i);
            }
            i += 1;
        }
        None
    }

    /// Whether `key` is bound.
    pub fn contains_key(&self, key: &[u8]) -> (r: bool)
        requires
            self.wf(),
        ensures
            r == self.map().contains_key(key@),
    {
        self.index_of(key).is_some()
    }

    /// The value bound to `key`.
    pub fn get(&self, key: &[u8]) -> (r: Option<&V>)
        requires
            self.wf(),
        ensures
            match r {
                Some(v) => self.map().contains_key(key@) && *v == self.map()[key@],
                None => !self.map().contains_key(key@),
            },
    {
        match self.index_of(key) {
            Some(i) => Some(&self.vals[i]),
            None => None,
        }
    }

    /// The key at index `i`.
    pub fn key_at(&self, i: usize) -> (r: &Vec<u8>)
        requires
            self.wf(),
            i < self.key_seq().len(),
        ensures
            r@ == self.key_seq()[i as int],
            self.map().contains_key(r@),
    {
        proof {
            self.lemma_place(i as int);
        }
        &self.keys[i]
    }

    /// The value at index `i`.
    pub fn value_at(&self, i: usize) -> (r: &V)
        requires
            self.wf(),
            i < self.key_seq().len(),
        ensures
            *r == self.val_seq()[i as int],
            *r == self.map()[self.key_seq()[i as int]],
    {
        proof {
            self.lemma_place(i as int);
        }
        &self.vals[i]
    }

    /// Binds `key` to `value`; hands back what was bound before. A key that
    /// was bound keeps its place, a new one goes last.
    pub fn insert(&mut self, key: Vec<u8>, value: V) -> (r: Option<V>)
        requires
            old(self).wf(),
        ensures
            final(self).wf(),
            final(self).map() == old(self).map().insert(key@, value),
            r == (if old(self).map().contains_key(key@) {
                Some(old(self).map()[key@])
            } else {
                None
            }),
            final(self).key_seq() == (if old(self).map().contains_key(key@) {
                old(self).key_seq()
            } else {
                old(self).key_seq().push(key@)
            }),
    {
        let ghost target = self.map().insert(key@, value);
        match self.index_of(key.as_slice()) {
            Some(i) => {
                proof {
                    self.lemma_bindings();
                }
                let mut value = value;
                core::mem::swap(&mut self.vals[i], &mut value);
                proof {
                    assert(self.wf());
                    assert forall|k: Seq<u8>| self.has(k) == old(self).has(k) by {}
                    assert(self.map() =~= target) by {
                        assert forall|k: Seq<u8>| #[trigger] target.contains_key(k) implies self.map()[k]
                            == target[k] by {
                            let j = self.place(k);
                            assert(j == old(self).place(k));
                            if k == key@ {
                                old(self).lemma_place(i as int);
                            } else {
                                assert(j != i);
                            }
                        }
                    }
                    assert(self.key_seq() =~= old(self).key_seq());
                }
                Some(value)
            },
            None => {
                proof {
                    self.lemma_bindings();
                    assert forall|j: int| 0 <= j < self.keys@.len() implies (
                    #[trigger] self.keys@[j])@ != key@ by {
                        self.lemma_place(j);
                    }
                }
                self.keys.push(key);
                self.vals.push(value);
                proof {
                    assert(self.wf());
                    let n = old(self).keys@.len() as int;
                    assert(self.map() =~= target) by {
                        assert forall|k: Seq<u8>| self.has(k) == target.contains_key(k) by {
                            if self.has(k) {
                                let j = self.place(k);
                                if j < n {
                                    assert(old(self).keys@[j]@ == k);
                                }
                            }
                            if old(self).has(k) {
                                let j = old(self).place(k);
                                assert(self.keys@[j]@ == k);
                            }
                            if k == key@ {
                                assert(self.keys@[n]@ == k);
                            }
                        }
                        assert forall|k: Seq<u8>| #[trigger] target.contains_key(k) implies self.map()[k]
                            == target[k] by {
                            let j = self.place(k);
                            self.lemma_place(j);
                            if k != key@ {
                                assert(j < n);
                                old(self).lemma_place(j);
                            } else {
                                self.lemma_place(n);
                            }
                        }
                    }
                    assert(self.key_seq() =~= old(self).key_seq().push(key@));
                }
                None
            },
        }
    }

    /// Puts `value` in the place of the value at index `i`; hands back what
    /// stood there.
    pub fn replace_at(&mut self, i: usize, value: V) -> (r: V)
        requires
            old(self).wf(),
            i < old(self).key_seq().len(),
        ensures
            final(self).wf(),
            r == old(self).val_seq()[i as int],
            final(self).key_seq() == old(self).key_seq(),
            final(self).val_seq() == old(self).val_seq().update(i as int, value),
            final(self).map() == old(self).map().insert(old(self).key_seq()[i as int], value),
    {
        let ghost key = self.key_seq()[i as int];
        let ghost target = self.map().insert(key, value);
        let mut value = value;
        core::mem::swap(&mut self.vals[i], &mut value);
        proof {
            assert(self.wf());
            old(self).lemma_place(i as int);
            assert forall|k: Seq<u8>| self.has(k) == old(self).has(k) by {}
            assert(self.map() =~= target) by {
                assert forall|k: Seq<u8>| #[trigger] target.contains_key(k) implies self.map()[k]
                    == target[k] by {
                    let j = self.place(k);
                    assert(j == old(self).place(k));
                    if k != key {
                        assert(j != i);
                    }
                }
            }
            assert(self.key_seq() =~= old(self).key_seq());
        }
        value
    }

    /// Takes the binding at index `i` out. The bindings after it move up by
    /// one.
    pub fn remove_at(&mut self, i: usize) -> (r: (Vec<u8>, V))
        requires
            old(self).wf(),
            i < old(self).key_seq().len(),
        ensures
            final(self).wf(),
            r.0@ == old(self).key_seq()[i as int],
            r.1 == old(self).val_seq()[i as int],
            final(self).key_seq() == old(self).key_seq().remove(i as int),
            final(self).val_seq() == old(self).val_seq().remove(i as int),
            final(self).map() == old(self).map().remove(r.0@),
    {
        let ghost gone = self.key_seq()[i as int];
        let ghost target = self.map().remove(gone);
        let key = self.keys.remove(i);
        let value = self.vals.remove(i);
        proof {
            assert forall|a: int, b: int| 0 <= a < b < self.keys@.len() implies (
            #[trigger] self.keys@[a])@ != (#[trigger] self.keys@[b])@ by {
                let a0 = if a < i { a } else { a + 1 };
                let b0 = if b < i { b } else { b + 1 };
                assert(self.keys@[a] == old(self).keys@[a0]);
                assert(self.keys@[b] == old(self).keys@[b0]);
            }
            assert(self.wf());
            old(self).lemma_place(i as int);
            assert(self.map() =~= target) by {
                assert forall|k: Seq<u8>| self.has(k) == target.contains_key(k) by {
                    if self.has(k) {
                        let j = self.place(k);
                        let j0 = if j < i { j } else { j + 1 };
                        assert(self.keys@[j] == old(self).keys@[j0]);
                        assert(old(self).keys@[j0]@ == k);
                        old(self).lemma_place(j0);
                    }
                    if target.contains_key(k) {
                        let j0 = old(self).place(k);
                        old(self).lemma_place(j0);
                        assert(j0 != i);
                        let j = if j0 < i { j0 } else { j0 - 1 };
                        assert(self.keys@[j] == old(self).keys@[j0]);
                    }
                }
                assert forall|k: Seq<u8>| #[trigger] target.contains_key(k) implies self.map()[k]
                    == target[k] by {
                    let j = self.place(k);
                    self.lemma_place(j);
                    let j0 = if j < i { j } else { j + 1 };
                    assert(self.keys@[j] == old(self).keys@[j0]);
                    old(self).lemma_place(j0);
                    assert(self.vals@[j] == old(self).vals@[j0]);
                }
            }
            assert(self.key_seq() =~= old(self).key_seq().remove(i as int));
        }
        (key, value)
    }

    /// Unbinds `key`; hands back what was bound.
    pub fn remove(&mut self, key: &[u8]) -> (r: Option<V>)
        requires
            old(self).wf(),
        ensures
            final(self).wf(),
            final(self).map() == old(self).map().remove(key@),
            r == (if old(self).map().contains_key(key@) {
                Some(old(self).map()[key@])
            } else {
                None
            }),
    {
        match self.index_of(key) {
            Some(i) => {
                let (_, value) = self.remove_at(i);
                Some(value)
            },
            None => {
                assert(self.map().remove(key@) =~= self.map());
                None
            },
        }
    }
}

} // verus!
