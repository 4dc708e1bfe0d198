//! The value store: owned values addressed by key.
//!
//! The store is one of the two independently owned halves of the bounded
//! cache; the other is the recency engine. Its view is a map from key to
//! value, and its key order is kept as a sequence so the cache can relate
//! it to the engine's queue.

use crate::sieve::lemma_index_unique;
use vstd::prelude::*;
use vstd::string::StringExecFns;

verus! {

/// One key/value pair of the store.
struct Slot<T> {
    key: String,
    value: T,
}

/// The value store of the cache.
pub struct Store<T> {
    slots: Vec<Slot<T>>,
}

impl<T> View for Store<T> {
    type V = Map<Seq<char>, T>;

    /// The store read as a map from key to stored value.
    closed spec fn view(&self) -> Map<Seq<char>, T> {
        Map::new(
            |k: Seq<char>| self.skeys().contains(k),
            |k: Seq<char>| self.slots@[self.skeys().index_of(k)].value,
        )
    }
}

impl<T> Store<T> {
    /// The store's keys, oldest insertion first.
    pub closed spec fn skeys(self) -> Seq<Seq<char>> {
        self.slots@.map_values(|s: Slot<T>| s.key@)
    }

    /// Well-formedness: each key is held at most once.
    pub open spec fn wf(self) -> bool {
        self.skeys().no_duplicates()
    }

    /// The store's domain is exactly the set of its keys.
    pub proof fn lemma_dom(self)
        ensures
            self@.dom() =~= self.skeys().to_set(),
    {
    }

    /// A key is in the store's map exactly when it is among its keys.
    pub proof fn lemma_contains_key(self, k: Seq<char>)
        ensures
            self@.contains_key(k) == self.skeys().contains(k),
    {
    }

    /// A duplicate-free store holds as many values as keys.
    pub proof fn lemma_len(self)
        requires
            self.wf(),
        ensures
            self@.dom().finite(),
            self@.dom().len() == self.skeys().len(),
    {
        broadcast use vstd::seq_lib::seq_to_set_is_finite;

        self.lemma_dom();
        self.skeys().unique_seq_to_set();
        assert(self@.dom() == self.skeys().to_set());
    }

    /// Creates an empty store.
    pub fn new() -> (s: Store<T>)
        ensures
            s.wf(),
            s.skeys().len() == 0,
            s@ == Map::<Seq<char>, T>::empty(),
    {
        let s = Store { slots: Vec::new() };
        proof {
            assert(s@ =~= Map::<Seq<char>, T>::empty());
        }
        s
    }

    /// How many values the store holds.
    pub fn len(&self) -> (n: usize)
        ensures
            n == self.skeys().len(),
    {
        self.slots.len()
    }

    /// Finds the slot index holding `key`, if any.
    fn index_of_key(&self, key: &String) -> (r: Option<usize>)
        ensures
            match r {
                Some(i) => i < self.skeys().len() && self.skeys()[i as int] == key@,
                None => !self.skeys().contains(key@),
            },
    {
        let mut i: usize = 0;
        while i < self.slots.len()
            invariant
                i <= self.slots.len(),
                forall|j: int| 0 <= j < i ==> self.skeys()[j] != key@,
            decreases self.slots.len() - i,
        {
            if self.slots[i].key == *key {
                return Some(i);
            }
            i = i + 1;
        }
        None
    }

    /// Inserts `value` under `key`, overwriting any value already there.
    pub fn insert(&mut self, key: &str, value: T)
        requires
            old(self).wf(),
        ensures
            final(self).wf(),
            final(self)@ == old(self)@.insert(key@, value),
            old(self)@.contains_key(key@) ==> final(self).skeys() == old(self).skeys(),
            !old(self)@.contains_key(key@) ==> final(self).skeys() == old(self).skeys().push(
                key@,
            ),
    {
        let k = <String as StringExecFns>::from_str(key);
        let ghost pre = *self;
        match self.index_of_key(&k) {
            Some(i) => {
                proof {
                    lemma_index_unique(self.skeys(), i as int, key@);
                }
                let slot = &mut self.slots[i];
                slot.value = value;
                proof {
                    assert(self.skeys() =~= pre.skeys());
                    assert forall|q: Seq<char>| true implies #[trigger] self@.contains_key(q)
                        == pre.skeys().contains(q) by {}
                    assert forall|q: Seq<char>|
                        self@.contains_key(q) && q != key@ implies self@[q] == pre@[q] by {
                        let j = pre.skeys().index_of(q);
                        assert(pre.skeys().contains(q));
                        assert(pre.skeys()[j] == q);
                        assert(self.skeys().index_of(q) == j) by {
                            lemma_index_unique(self.skeys(), j, q);
                        }
                    }
                    assert(self@[key@] == value) by {
                        lemma_index_unique(self.skeys(), i as int, key@);
                    }
                    assert(self@ =~= pre@.insert(key@, value));
                }
            },
            None => {
                self.slots.push(Slot { key: k, value });
                proof {
                    assert(self.skeys() =~= pre.skeys().push(key@));
                    assert forall|a: int, b: int|
                        0 <= a < self.skeys().len() && 0 <= b < self.skeys().len() && a
                        != b implies self.skeys()[a] != self.skeys()[b] by {
                        let n = pre.skeys().len() as int;
                        if a < n && b < n {
                            assert(self.skeys()[a] == pre.skeys()[a]);
                            assert(self.skeys()[b] == pre.skeys()[b]);
                        } else {
                            let c = if a < n {
                                a
                            } else {
                                b
                            };
                            assert(self.skeys()[c] == pre.skeys()[c]);
                            assert(pre.skeys().contains(pre.skeys()[c]));
                        }
                    }
                    assert(self.skeys()[pre.skeys().len() as int] == key@);
                    assert(self.skeys().contains(key@));
                    assert forall|q: Seq<char>| true implies #[trigger] self.skeys().contains(q)
                        == (pre.skeys().contains(q) || q == key@) by {
                        if self.skeys().contains(q) {
                            let j = self.skeys().index_of(q);
                            assert(self.skeys()[j] == q);
                            if j < pre.skeys().len() {
                                assert(pre.skeys()[j] == q);
                                assert(pre.skeys().contains(q));
                            }
                        } else {
                            if pre.skeys().contains(q) {
                                let j = pre.skeys().index_of(q);
                                assert(pre.skeys()[j] == q);
                                assert(self.skeys()[j] == q);
                                assert(self.skeys().contains(q));
                            }
                        }
                    }
                    assert forall|q: Seq<char>|
                        self@.contains_key(q) && q != key@ implies self@[q] == pre@[q] by {
                        let j = pre.skeys().index_of(q);
                        assert(self.skeys().contains(q));
                        let jn = self.skeys().index_of(q);
                        assert(self.skeys()[jn] == q);
                        assert(jn < pre.skeys().len());
                        assert(pre.skeys()[jn] == q);
                        lemma_index_unique(pre.skeys(), jn, q);
                    }
                    assert(self@[key@] == value) by {
                        lemma_index_unique(self.skeys(), pre.skeys().len() as int, key@);
                    }
                    assert(self@ =~= pre@.insert(key@, value));
                }
            },
        }
    }

    /// Deletes `key` and its value, if present; absent keys are left alone.
    pub fn remove(&mut self, key: &str)
        requires
            old(self).wf(),
        ensures
            final(self).wf(),
            final(self)@ == old(self)@.remove(key@),
            !old(self)@.contains_key(key@) ==> *final(self) == *old(self),
            old(self)@.contains_key(key@) ==> final(self).skeys() == old(self).skeys().remove(
                old(self).skeys().index_of(key@),
            ),
    {
        let k = <String as StringExecFns>::from_str(key);
        let ghost pre = *self;
        let idx = match self.index_of_key(&k) {
            Some(i) => i,
            None => {
                proof {
                    assert(pre@ =~= pre@.remove(key@));
                }
                return ;
            },
        };
        proof {
            lemma_index_unique(self.skeys(), idx as int, key@);
        }
        let _slot = self.slots.remove(idx);
        proof {
            assert(self.skeys() =~= pre.skeys().remove(idx as int));
            assert forall|a: int, b: int|
                0 <= a < self.skeys().len() && 0 <= b < self.skeys().len() && a
                != b implies self.skeys()[a] != self.skeys()[b] by {
                let ka = if a < idx as int {
                    a
                } else {
                    a + 1
                };
                let kb = if b < idx as int {
                    b
                } else {
                    b + 1
                };
                assert(self.skeys()[a] == pre.skeys()[ka]);
                assert(self.skeys()[b] == pre.skeys()[kb]);
            }
            assert forall|q: Seq<char>| true implies #[trigger] self.skeys().contains(q) == (
            pre.skeys().contains(q) && q != key@) by {
                if self.skeys().contains(q) {
                    let j = self.skeys().index_of(q);
                    assert(self.skeys()[j] == q);
                    let kj = if j < idx as int {
                        j
                    } else {
                        j + 1
                    };
                    assert(pre.skeys()[kj] == q);
                    assert(pre.skeys().contains(q));
                    if q == key@ {
                        lemma_index_unique(pre.skeys(), kj, q);
                    }
                } else {
                    if pre.skeys().contains(q) && q != key@ {
                        let j = pre.skeys().index_of(q);
                        assert(pre.skeys()[j] == q);
                        lemma_index_unique(pre.skeys(), j, q);
                        if j < idx as int {
                            assert(self.skeys()[j] == q);
                        } else {
                            assert(self.skeys()[j - 1] == q);
                        }
                        assert(self.skeys().contains(q));
                    }
                }
            }
            assert forall|q: Seq<char>| self@.contains_key(q) implies self@[q] == pre@[q] by {
                let j = self.skeys().index_of(q);
                assert(self.skeys()[j] == q);
                let kj = if j < idx as int {
                    j
                } else {
                    j + 1
                };
                assert(pre.skeys()[kj] == q);
                lemma_index_unique(pre.skeys(), kj, q);
            }
            assert(self@ =~= pre@.remove(key@));
        }
    }
}

impl<T: Clone> Store<T> {
    /// Looks `key` up and hands back a clone of its value, if present.
    pub fn get(&self, key: &str) -> (r: Option<T>)
        requires
            self.wf(),
        ensures
            match r {
                Some(v) => self@.contains_key(key@) && cloned(self@[key@], v),
                None => !self@.contains_key(key@),
            },
    {
        let k = <String as StringExecFns>::from_str(key);
        match self.index_of_key(&k) {
            None => None,
            Some(i) => {
                proof {
                    lemma_index_unique(self.skeys(), i as int, key@);
                    assert(self@.contains_key(key@));
                }
                Some(self.slots[i].value.clone())
            },
        }
    }
}

} // verus!
