use vstd::prelude::*;
use vstd::multiset::Multiset;
use vstd::seq_lib::to_multiset_remove;

use crate::allocators::{ArrayAllocator, DefaultAllocator};
use crate::array::InlineArray;
use crate::fast_hash::{FastHash, KeyValuePair, SetItem, SetKey};
use crate::raw_set::RawSetEntry;
use crate::set::{differs_key_pred, matches_key_pred, FastSet};

verus! {

/// A map from unique keys to values: a `FastSet` of key/value pairs whose
/// insertion path enforces that no two stored pairs share a key.
pub struct FastMap<
    K,
    V,
    DataAlloc = DefaultAllocator,
    EntriesAlloc = DefaultAllocator,
    TableAlloc = DefaultAllocator,
>(FastSet<KeyValuePair<K, V>, DataAlloc, EntriesAlloc, TableAlloc>) where
    K: SetKey,
    DataAlloc: ArrayAllocator<KeyValuePair<K, V>>,
    EntriesAlloc: ArrayAllocator<RawSetEntry>,
    TableAlloc: ArrayAllocator<usize>;

impl<K, V, DataAlloc, EntriesAlloc, TableAlloc> View for FastMap<
    K,
    V,
    DataAlloc,
    EntriesAlloc,
    TableAlloc,
> where
    K: SetKey,
    DataAlloc: ArrayAllocator<KeyValuePair<K, V>>,
    EntriesAlloc: ArrayAllocator<RawSetEntry>,
    TableAlloc: ArrayAllocator<usize>,
{
    type V = Seq<KeyValuePair<K, V>>;

    closed spec fn view(&self) -> Seq<KeyValuePair<K, V>> {
        self.0@
    }
}

impl<K: SetKey, V> Default for FastMap<K, V> {
    fn default() -> (r: Self)
        ensures
            r@ == Seq::<KeyValuePair<K, V>>::empty(),
            r.wf(),
    {
        FastMap::new()
    }
}

impl<K: SetKey, V> FastMap<K, V> {
    pub fn new() -> (r: Self)
        ensures
            r.wf(),
            r@ == Seq::<KeyValuePair<K, V>>::empty(),
    {
        FastMap(FastSet::new())
    }
}

impl<K, V, DataAlloc, EntriesAlloc, TableAlloc> FastMap<K, V, DataAlloc, EntriesAlloc, TableAlloc> where
    K: SetKey,
    DataAlloc: ArrayAllocator<KeyValuePair<K, V>>,
    EntriesAlloc: ArrayAllocator<RawSetEntry>,
    TableAlloc: ArrayAllocator<usize>,
 {
    /// The underlying set is consistent and no two stored pairs share a
    /// key.
    pub closed spec fn wf(&self) -> bool {
        &&& self.0.wf()
        &&& (forall|i: int, j: int|
            #![trigger self@[i].key_spec().key_eq_spec(&self@[j].key_spec())]
            0 <= i < self@.len() && 0 <= j < self@.len() && i != j
                ==> !self@[i].key_spec().key_eq_spec(&self@[j].key_spec()))
    }

    /// The reserved capacity, in elements.
    pub closed spec fn cap_spec(&self) -> int {
        self.0.cap_spec()
    }

    /// Whether some stored pair carries `key`.
    pub open spec fn contains_spec(&self, key: K) -> bool {
        exists|i: int|
            0 <= i < self@.len() && (#[trigger] self@[i]).key_spec().key_eq_spec(&key)
    }

    /// The slot of the pair carrying `key` (meaningful when present).
    pub open spec fn key_index(&self, key: K) -> int {
        choose|i: int| 0 <= i < self@.len() && (#[trigger] self@[i]).key_spec().key_eq_spec(&key)
    }

    /// The value stored under `key` (meaningful when present).
    pub open spec fn value_of(&self, key: K) -> V {
        self@[self.key_index(key)].value_spec()
    }

    /// Under well-formedness, `key_index` is the single slot whose key
    /// matches.
    pub proof fn lemma_key_index_unique(&self, key: K)
        requires
            self.wf(),
            self.contains_spec(key),
        ensures
            0 <= self.key_index(key) < self@.len(),
            self@[self.key_index(key)].key_spec().key_eq_spec(&key),
            forall|i: int|
                0 <= i < self@.len() && (#[trigger] self@[i]).key_spec().key_eq_spec(&key) ==> i
                    == self.key_index(key),
    {
        let ki = self.key_index(key);
        assert(0 <= ki < self@.len() && self@[ki].key_spec().key_eq_spec(&key));
        assert forall|i: int|
            0 <= i < self@.len() && (#[trigger] self@[i]).key_spec().key_eq_spec(&key) implies i
            == ki by {
            if i != ki {
                let a = self@[i].key_spec();
                let b = self@[ki].key_spec();
                b.lemma_key_eq_symmetric(&key);
                a.lemma_key_eq_transitive(&key, &b);
                assert(a.key_eq_spec(&b));
            }
        }
    }

    /// The set-level matches of `key` decide `contains_spec`, and pick out
    /// `key_index` when present.
    proof fn lemma_matches_bridge(&self, key: K)
        requires
            self.wf(),
        ensures
            self.0.key_matches(key).len() > 0 <==> self.contains_spec(key),
            self.contains_spec(key) ==> self.0.key_matches(key)[0] == self.key_index(key),
            self.contains_spec(key) ==> 0 <= self.0.key_matches(key)[0] < self@.len(),
            self@.len() < usize::MAX as int,
    {
        let km = self.0.key_matches(key);
        self.0.lemma_key_matches_characterize(key);
        if km.len() > 0 {
            assert(km.contains(km[0]));
            assert(0 <= km[0] < self@.len());
            assert(self@[km[0]].key_spec().key_eq_spec(&key));
            assert(self.contains_spec(key));
            self.lemma_key_index_unique(key);
        }
        if self.contains_spec(key) {
            let ki = self.key_index(key);
            assert(self@[ki].key_spec().key_eq_spec(&key));
            assert(km.contains(ki));
            assert(km.len() > 0);
        }
    }

    pub fn custom_allocators() -> (r: Self)
        ensures
            r.wf(),
            r@ == Seq::<KeyValuePair<K, V>>::empty(),
    {
        FastMap(FastSet::custom_allocators())
    }

    pub fn capacity(&self) -> (r: usize)
        ensures
            r as int == self.cap_spec(),
    {
        self.0.capacity()
    }

    pub fn set_capacity(&mut self, capacity: usize)
        requires
            old(self).wf(),
        ensures
            final(self).wf(),
            final(self)@ == old(self)@,
    {
        self.0.set_capacity(capacity);
        proof {
            // Key uniqueness carries over: the stored pairs are untouched.
            assert(self@ == old(self)@);
        }
    }

    pub fn reserve(&mut self, additional: usize)
        requires
            old(self).wf(),
            old(self)@.len() + additional <= usize::MAX,
        ensures
            final(self).wf(),
            final(self)@ == old(self)@,
    {
        self.0.reserve(additional);
    }

    pub fn num(&self) -> (r: usize)
        requires
            self.wf(),
        ensures
            r as int == self@.len(),
    {
        self.0.num()
    }

    pub fn is_empty(&self) -> (r: bool)
        requires
            self.wf(),
        ensures
            r == (self@.len() == 0),
    {
        self.0.is_empty()
    }

    pub fn contains(&self, key: &K) -> (r: bool)
        requires
            self.wf(),
        ensures
            r == self.contains_spec(*key),
    {
        proof {
            self.lemma_matches_bridge(*key);
        }
        self.0.find_first_index(key) != usize::MAX
    }

    /// Bind `value` to `key`: when the key is already present its value is
    /// swapped out and handed back, so the key stays unique; otherwise the
    /// new pair is appended.
    pub fn insert(&mut self, key: K, value: V) -> (r: Option<V>)
        requires
            old(self).wf(),
            old(self)@.len() + 1 < usize::MAX,
        ensures
            final(self).wf(),
            old(self).contains_spec(key) ==> {
                &&& r == Some(old(self).value_of(key))
                &&& final(self)@ == old(self)@.update(
                    old(self).key_index(key),
                    final(self)@[old(self).key_index(key)],
                )
                &&& final(self)@.len() == old(self)@.len()
                &&& final(self)@[old(self).key_index(key)].key_spec() == old(self)@[old(
                    self,
                ).key_index(key)].key_spec()
                &&& final(self)@[old(self).key_index(key)].value_spec() == value
            },
            !old(self).contains_spec(key) ==> {
                &&& r == None::<V>
                &&& final(self)@.len() == old(self)@.len() + 1
                &&& final(self)@.drop_last() == old(self)@
                &&& final(self)@.last().key_spec() == key
                &&& final(self)@.last().value_spec() == value
            },
            final(self).contains_spec(key),
            final(self).value_of(key) == value,
    {
        proof {
            self.lemma_matches_bridge(key);
        }
        let existing_pair_index = self.0.find_first_index(&key);
        if existing_pair_index == usize::MAX {
            let ghost pre = *self;
            let idx = self.0.insert(KeyValuePair::new(key, value));
            proof {
                assert(final(self)@.drop_last() =~= old(self)@);
                pre.0.lemma_key_matches_characterize(key);
                // The appended key was absent, so uniqueness holds.
                assert forall|i: int, j: int|
                    #![trigger self@[i].key_spec().key_eq_spec(&self@[j].key_spec())]
                    0 <= i < self@.len() && 0 <= j < self@.len() && i != j implies !self@[
                i].key_spec().key_eq_spec(&self@[j].key_spec()) by {
                    let n = pre@.len() as int;
                    if i < n && j < n {
                    } else if i == n {
                        // A match from the new key to an old one would put
                        // the old one in the (empty) match list.
                        if self@[i].key_spec().key_eq_spec(&self@[j].key_spec()) {
                            let a = self@[i].key_spec();
                            let b = self@[j].key_spec();
                            a.lemma_key_eq_symmetric(&b);
                            assert(pre@[j].key_spec().key_eq_spec(&key));
                            assert(pre.contains_spec(key));
                        }
                    } else {
                        if self@[i].key_spec().key_eq_spec(&self@[j].key_spec()) {
                            assert(pre@[i].key_spec().key_eq_spec(&key));
                            assert(pre.contains_spec(key));
                        }
                    }
                }
                assert(self@[self@.len() - 1].key_spec().key_eq_spec(&key)) by {
                    key.lemma_key_eq_reflexive();
                }
                assert(self.contains_spec(key));
                self.lemma_key_index_unique(key);
            }
            None
        } else {
            let ghost ki = old(self).key_index(key);
            proof {
                assert(existing_pair_index as int == ki);
            }
            let pair = self.0.index_mut(existing_pair_index);
            let r = pair.swap_value(value);
            proof {
                assert(final(self)@ == old(self)@.update(ki, final(self)@[ki])) by {
                    assert(final(self)@ =~= old(self)@.update(ki, final(self)@[ki]));
                }
                // Keys are untouched, so uniqueness and the probe's
                // consistency both survive.
                assert forall|i: int, j: int|
                    #![trigger self@[i].key_spec().key_eq_spec(&self@[j].key_spec())]
                    0 <= i < self@.len() && 0 <= j < self@.len() && i != j implies !self@[
                i].key_spec().key_eq_spec(&self@[j].key_spec()) by {
                    assert(self@[i].key_spec() == old(self)@[i].key_spec());
                    assert(self@[j].key_spec() == old(self)@[j].key_spec());
                }
                assert(self@[ki].key_spec().key_eq_spec(&key));
                assert(self.contains_spec(key));
                self.lemma_key_index_unique(key);
            }
            Some(r)
        }
    }

    /// Take `key`'s pair out (swap-with-last), handing its value back.
    pub fn remove(&mut self, key: &K) -> (r: Option<V>)
        requires
            old(self).wf(),
        ensures
            final(self).wf(),
            old(self).contains_spec(*key) ==> {
                &&& r == Some(old(self).value_of(*key))
                &&& final(self)@.len() == old(self)@.len() - 1
                &&& !final(self).contains_spec(*key)
                &&& final(self)@.to_multiset() == old(self)@.to_multiset().filter(
                    differs_key_pred::<KeyValuePair<K, V>>(*key),
                )
            },
            !old(self).contains_spec(*key) ==> r == None::<V> && final(self)@ == old(self)@,
    {
        broadcast use vstd::seq_lib::group_to_multiset_ensures;
        broadcast use vstd::multiset::group_multiset_axioms;

        let ghost pre = *self;
        let mut pair_array: InlineArray<KeyValuePair<K, V>, 1> = self.0.remove_all(key);
        proof {
            pre.lemma_matches_bridge(*key);
            if pre.contains_spec(*key) {
                pre.lemma_key_index_unique(*key);
                let ki = pre.key_index(*key);
                let pair0 = pre@[ki];
                let kp = matches_key_pred::<KeyValuePair<K, V>>(*key);
                assert(kp(pair0));
                assert(pre@.to_multiset().count(pair0) > 0) by {
                    assert(pre@.contains(pair0));
                }
                assert(pair_array@.to_multiset().count(pair0) > 0);
                assert(pair_array@.len() > 0);
                // Any removed pair matches the key, so by uniqueness it is
                // the one stored pair of that key.
                assert(pair_array@[0] == pair0) by {
                    assert(pair_array@.to_multiset().count(pair_array@[0]) > 0) by {
                        assert(pair_array@.contains(pair_array@[0]));
                    }
                    assert(pre@.to_multiset().filter(kp).count(pair_array@[0]) > 0);
                    assert(pre@.to_multiset().count(pair_array@[0]) > 0);
                    assert(pre@.contains(pair_array@[0]));
                    let i = choose|i: int| 0 <= i < pre@.len() && pre@[i] == pair_array@[0];
                    assert(pre@[i].key_spec().key_eq_spec(key));
                    assert(i == ki);
                }
                // Exactly one pair left.
                assert(pair_array@.len() == 1) by {
                    if pair_array@.len() > 1 {
                        assert(pair_array@[1].key_spec().key_eq_spec(key));
                        assert(pair_array@.to_multiset().count(pair_array@[1]) > 0) by {
                            assert(pair_array@.contains(pair_array@[1]));
                        }
                        assert(pre@.to_multiset().count(pair_array@[1]) > 0);
                        assert(pre@.contains(pair_array@[1]));
                        let i1 = choose|i: int|
                            0 <= i < pre@.len() && pre@[i] == pair_array@[1];
                        assert(i1 == ki);
                        assert(pair_array@[1] == pair0);
                        // Two copies of the key's pair would need two slots.
                        assert(pair_array@.to_multiset().count(pair0) >= 2) by {
                            let m0 = pair_array@.to_multiset();
                            assert(pair_array@ =~= pair_array@.take(1) + pair_array@.skip(1));
                            vstd::seq_lib::lemma_multiset_commutative(
                                pair_array@.take(1),
                                pair_array@.skip(1),
                            );
                            assert(pair_array@.take(1).to_multiset().count(pair0) >= 1) by {
                                assert(pair_array@.take(1).contains(pair0)) by {
                                    assert(pair_array@.take(1)[0] == pair0);
                                }
                            }
                            assert(pair_array@.skip(1).to_multiset().count(pair0) >= 1) by {
                                assert(pair_array@.skip(1).contains(pair0)) by {
                                    assert(pair_array@.skip(1)[0] == pair0);
                                }
                            }
                        }
                        assert(pre@.to_multiset().count(pair0) >= 2);
                        // But the key's pair occupies a single slot.
                        assert(pre@.to_multiset().count(pair0) <= 1) by {
                            let without = pre@.remove(ki);
                            to_multiset_remove(pre@, ki);
                            if without.to_multiset().count(pair0) > 0 {
                                assert(without.contains(pair0));
                                let i2 = choose|i: int|
                                    0 <= i < without.len() && without[i] == pair0;
                                let orig = if i2 < ki {
                                    i2
                                } else {
                                    i2 + 1
                                };
                                assert(pre@[orig] == pair0);
                                assert(orig == ki);
                                assert(false);
                            }
                        }
                    }
                }
            } else {
                let kp = matches_key_pred::<KeyValuePair<K, V>>(*key);
                assert(pair_array@.len() == 0) by {
                    if pair_array@.len() > 0 {
                        assert(pair_array@[0].key_spec().key_eq_spec(key));
                        assert(pair_array@.to_multiset().count(pair_array@[0]) > 0) by {
                            assert(pair_array@.contains(pair_array@[0]));
                        }
                        assert(pre@.to_multiset().count(pair_array@[0]) > 0);
                        assert(pre@.contains(pair_array@[0]));
                        let i = choose|i: int|
                            0 <= i < pre@.len() && pre@[i] == pair_array@[0];
                        assert(pre.contains_spec(*key));
                    }
                }
            }
            // Uniqueness survives: the survivors are a sub-multiset of the
            // old pairs.
            assert forall|i: int, j: int|
                #![trigger self@[i].key_spec().key_eq_spec(&self@[j].key_spec())]
                0 <= i < self@.len() && 0 <= j < self@.len() && i != j implies !self@[
            i].key_spec().key_eq_spec(&self@[j].key_spec()) by {
                if pair_array@.len() == 0 {
                } else {
                    if self@[i].key_spec().key_eq_spec(&self@[j].key_spec()) {
                        self.lemma_survivors_unique(pre, i, j);
                    }
                }
            }
        }
        if pair_array.num() > 0 {
            let pair = pair_array.swap_remove(0);
            Some(KeyValuePair::take_value(pair))
        } else {
            None
        }
    }

    /// Two distinct surviving slots cannot share a key, because both their
    /// pairs already sat in the well-formed map.
    proof fn lemma_survivors_unique(
        &self,
        pre: Self,
        i: int,
        j: int,
    )
        requires
            pre.wf(),
            0 <= i < self@.len(),
            0 <= j < self@.len(),
            i != j,
            self@.to_multiset().subset_of(pre@.to_multiset()),
        ensures
            !self@[i].key_spec().key_eq_spec(&self@[j].key_spec()),
    {
        broadcast use vstd::seq_lib::group_to_multiset_ensures;
        broadcast use vstd::multiset::group_multiset_axioms;

        if !self@[i].key_spec().key_eq_spec(&self@[j].key_spec()) {
            return ;
        }
        let a = self@[i];
        let b = self@[j];
        if a == b {
            // The same pair twice among the survivors means it sat twice in
            // the old map, contradicting key uniqueness there.
            assert(self@.to_multiset().count(a) >= 2) by {
                let lo = if i < j {
                    i
                } else {
                    j
                };
                let hi = if i < j {
                    j
                } else {
                    i
                };
                assert(self@ =~= self@.take(hi) + self@.skip(hi));
                vstd::seq_lib::lemma_multiset_commutative(self@.take(hi), self@.skip(hi));
                assert(self@.take(hi).to_multiset().count(a) >= 1) by {
                    assert(self@.take(hi).contains(a)) by {
                        assert(self@.take(hi)[lo] == a);
                    }
                }
                assert(self@.skip(hi).to_multiset().count(a) >= 1) by {
                    assert(self@.skip(hi).contains(a)) by {
                        assert(self@.skip(hi)[0] == a);
                    }
                }
            }
            assert(pre@.to_multiset().count(a) >= 2);
            assert(pre@.contains(a));
            let p = choose|p: int| 0 <= p < pre@.len() && pre@[p] == a;
            let without = pre@.remove(p);
            to_multiset_remove(pre@, p);
            assert(without.to_multiset().count(a) >= 1);
            assert(without.contains(a));
            let q0 = choose|q: int| 0 <= q < without.len() && without[q] == a;
            let q = if q0 < p {
                q0
            } else {
                q0 + 1
            };
            assert(pre@[q] == a);
            assert(q != p);
            a.key_spec().lemma_key_eq_reflexive();
            assert(pre@[p].key_spec().key_eq_spec(&pre@[q].key_spec()));
            assert(false);
        } else {
            // Two different pairs of one key would both have sat in the old
            // map.
            assert(self@.to_multiset().count(a) > 0) by {
                assert(self@.contains(a));
            }
            assert(self@.to_multiset().count(b) > 0) by {
                assert(self@.contains(b));
            }
            assert(pre@.to_multiset().count(a) > 0);
            assert(pre@.to_multiset().count(b) > 0);
            assert(pre@.contains(a));
            assert(pre@.contains(b));
            let p = choose|p: int| 0 <= p < pre@.len() && pre@[p] == a;
            let q = choose|q: int| 0 <= q < pre@.len() && pre@[q] == b;
            assert(p != q);
            assert(pre@[p].key_spec().key_eq_spec(&pre@[q].key_spec()));
            assert(false);
        }
    }

    pub fn get(&self, key: &K) -> (r: Option<&V>)
        requires
            self.wf(),
        ensures
            match r {
                Some(v) => self.contains_spec(*key) && *v == self.value_of(*key),
                None => !self.contains_spec(*key),
            },
    {
        proof {
            self.lemma_matches_bridge(*key);
        }
        let pair_index = self.0.find_first_index(key);
        if pair_index == usize::MAX {
            None
        } else {
            Some(self.0.index(pair_index).get_value())
        }
    }

    /// A mutable reference to `key`'s value, when present.
    pub fn get_mut(&mut self, key: &K) -> (r: Option<&mut V>)
        requires
            old(self).wf(),
        ensures
            match r {
                Some(v) => {
                    &&& old(self).contains_spec(*key)
                    &&& *v == old(self).value_of(*key)
                    &&& final(self)@.len() == old(self)@.len()
                    &&& (forall|i: int|
                        0 <= i < old(self)@.len() && i != old(self).key_index(*key)
                            ==> #[trigger] final(self)@[i] == old(self)@[i])
                    &&& final(self)@[old(self).key_index(*key)].key_spec() == old(self)@[old(
                        self,
                    ).key_index(*key)].key_spec()
                    &&& final(self)@[old(self).key_index(*key)].value_spec() == *final(v)
                    &&& final(self).wf()
                },
                None => {
                    &&& !old(self).contains_spec(*key)
                    &&& final(self)@ == old(self)@
                    &&& final(self).wf()
                },
            },
    {
        proof {
            self.lemma_matches_bridge(*key);
        }
        let existing_pair_index = self.0.find_first_index(key);
        if existing_pair_index == usize::MAX {
            None
        } else {
            let ghost ki = old(self).key_index(*key);
            let pair = self.0.index_mut(existing_pair_index);
            let value = pair.get_value_mut();
            proof {
                assert forall|i: int, j: int|
                    #![trigger after_borrow(self)@[i].key_spec().key_eq_spec(&after_borrow(self)@[j].key_spec())]
                    0 <= i < after_borrow(self)@.len() && 0 <= j < after_borrow(self)@.len() && i
                        != j implies !after_borrow(self)@[i].key_spec().key_eq_spec(&after_borrow(
                    self,
                )@[j].key_spec()) by {
                    assert(after_borrow(self)@[i].key_spec() == old(self)@[i].key_spec());
                    assert(after_borrow(self)@[j].key_spec() == old(self)@[j].key_spec());
                }
            }
            Some(value)
        }
    }

    /// A shared reference to `key`'s value; the key must be present.
    pub fn index(&self, key: &K) -> (r: &V)
        requires
            self.wf(),
            self.contains_spec(*key),
        ensures
            *r == self.value_of(*key),
    {
        proof {
            self.lemma_matches_bridge(*key);
        }
        let pair_index = self.0.find_first_index(key);
        self.0.index(pair_index).get_value()
    }

    /// A mutable reference to `key`'s value; the key must be present.
    pub fn index_mut(&mut self, key: &K) -> (r: &mut V)
        requires
            old(self).wf(),
            old(self).contains_spec(*key),
        ensures
            *r == old(self).value_of(*key),
            final(self)@.len() == old(self)@.len(),
            forall|i: int|
                0 <= i < old(self)@.len() && i != old(self).key_index(*key)
                    ==> #[trigger] final(self)@[i] == old(self)@[i],
            final(self)@[old(self).key_index(*key)].key_spec() == old(self)@[old(self).key_index(
                *key,
            )].key_spec(),
            final(self)@[old(self).key_index(*key)].value_spec() == *final(r),
            final(self).wf(),
    {
        proof {
            self.lemma_matches_bridge(*key);
        }
        let existing_pair_index = self.0.find_first_index(key);
        let pair = self.0.index_mut(existing_pair_index);
        let value = pair.get_value_mut();
        proof {
            assert forall|i: int, j: int|
                #![trigger after_borrow(self)@[i].key_spec().key_eq_spec(&after_borrow(self)@[j].key_spec())]
                0 <= i < after_borrow(self)@.len() && 0 <= j < after_borrow(self)@.len() && i != j
                    implies !after_borrow(self)@[i].key_spec().key_eq_spec(&after_borrow(self)@[
            j].key_spec()) by {
                assert(after_borrow(self)@[i].key_spec() == old(self)@[i].key_spec());
                assert(after_borrow(self)@[j].key_spec() == old(self)@[j].key_spec());
            }
        }
        value
    }

    /// A mutable reference to `key`'s value, binding `value` first when the
    /// key was absent.
    pub fn get_or_insert_mut(&mut self, key: K, value: V) -> (r: &mut V)
        requires
            old(self).wf(),
            old(self)@.len() + 1 < usize::MAX,
        ensures
            final(self).wf(),
            old(self).contains_spec(key) ==> {
                &&& *r == old(self).value_of(key)
                &&& final(self)@.len() == old(self)@.len()
                &&& (forall|i: int|
                    0 <= i < old(self)@.len() && i != old(self).key_index(key)
                        ==> #[trigger] final(self)@[i] == old(self)@[i])
                &&& final(self)@[old(self).key_index(key)].key_spec() == old(self)@[old(
                    self,
                ).key_index(key)].key_spec()
                &&& final(self)@[old(self).key_index(key)].value_spec() == *final(r)
            },
            !old(self).contains_spec(key) ==> {
                &&& *r == value
                &&& final(self)@.len() == old(self)@.len() + 1
                &&& (forall|i: int|
                    0 <= i < old(self)@.len() ==> #[trigger] final(self)@[i] == old(self)@[i])
                &&& final(self)@[old(self)@.len() as int].key_spec() == key
                &&& final(self)@[old(self)@.len() as int].value_spec() == *final(r)
            },
    {
        proof {
            self.lemma_matches_bridge(key);
        }
        let ghost pre = *self;
        let index = self.0.find_index_or_insert_mut(KeyValuePair::new(key, value));
        proof {
            if !pre.contains_spec(key) {
                // The appended key was absent, so uniqueness still holds.
                pre.0.lemma_key_matches_characterize(key);
                assert forall|i: int, j: int|
                    #![trigger self@[i].key_spec().key_eq_spec(&self@[j].key_spec())]
                    0 <= i < self@.len() && 0 <= j < self@.len() && i != j implies !self@[
                i].key_spec().key_eq_spec(&self@[j].key_spec()) by {
                    let n = pre@.len() as int;
                    if i < n && j < n {
                    } else if i == n {
                        if self@[i].key_spec().key_eq_spec(&self@[j].key_spec()) {
                            let a = self@[i].key_spec();
                            let b = self@[j].key_spec();
                            a.lemma_key_eq_symmetric(&b);
                            assert(pre@[j].key_spec().key_eq_spec(&key));
                            assert(pre.contains_spec(key));
                        }
                    } else {
                        if self@[i].key_spec().key_eq_spec(&self@[j].key_spec()) {
                            assert(pre@[i].key_spec().key_eq_spec(&key));
                            assert(pre.contains_spec(key));
                        }
                    }
                }
            }
        }
        let ghost mid = *self;
        let pair = self.0.index_mut(index);
        let val = pair.get_value_mut();
        proof {
            assert forall|i: int, j: int|
                #![trigger after_borrow(self)@[i].key_spec().key_eq_spec(&after_borrow(self)@[j].key_spec())]
                0 <= i < after_borrow(self)@.len() && 0 <= j < after_borrow(self)@.len() && i != j
                    implies !after_borrow(self)@[i].key_spec().key_eq_spec(&after_borrow(self)@[
            j].key_spec()) by {
                assert(after_borrow(self)@[i].key_spec() == mid@[i].key_spec());
                assert(after_borrow(self)@[j].key_spec() == mid@[j].key_spec());
                assert(!mid@[i].key_spec().key_eq_spec(&mid@[j].key_spec()));
            }
        }
        val
    }

    /// Drop every pair; capacities and the table size are retained.
    pub fn clear(&mut self)
        requires
            old(self).wf(),
        ensures
            final(self).wf(),
            final(self)@ == Seq::<KeyValuePair<K, V>>::empty(),
    {
        self.0.clear();
    }
}

impl<K, V, DataAlloc, EntriesAlloc, TableAlloc> FastMap<K, V, DataAlloc, EntriesAlloc, TableAlloc> where
    K: SetKey,
    V: Default,
    DataAlloc: ArrayAllocator<KeyValuePair<K, V>>,
    EntriesAlloc: ArrayAllocator<RawSetEntry>,
    TableAlloc: ArrayAllocator<usize>,
 {
    /// A mutable reference to `key`'s value, binding the value type's
    /// default first when the key was absent.
    pub fn get_or_insert_default_mut(&mut self, key: K) -> (r: &mut V)
        requires
            old(self).wf(),
            old(self)@.len() + 1 < usize::MAX,
        ensures
            final(self).wf(),
            old(self).contains_spec(key) ==> {
                &&& *r == old(self).value_of(key)
                &&& final(self)@.len() == old(self)@.len()
                &&& (forall|i: int|
                    0 <= i < old(self)@.len() && i != old(self).key_index(key)
                        ==> #[trigger] final(self)@[i] == old(self)@[i])
                &&& final(self)@[old(self).key_index(key)].key_spec() == old(self)@[old(
                    self,
                ).key_index(key)].key_spec()
                &&& final(self)@[old(self).key_index(key)].value_spec() == *final(r)
            },
            !old(self).contains_spec(key) ==> {
                &&& final(self)@.len() == old(self)@.len() + 1
                &&& (forall|i: int|
                    0 <= i < old(self)@.len() ==> #[trigger] final(self)@[i] == old(self)@[i])
                &&& final(self)@[old(self)@.len() as int].key_spec() == key
                &&& final(self)@[old(self)@.len() as int].value_spec() == *final(r)
            },
    {
        proof {
            self.lemma_matches_bridge(key);
        }
        let ghost pre = *self;
        let index = self.0.find_index_or_insert_mut(KeyValuePair::new_with_key(key));
        proof {
            if !pre.contains_spec(key) {
                pre.0.lemma_key_matches_characterize(key);
                assert forall|i: int, j: int|
                    #![trigger self@[i].key_spec().key_eq_spec(&self@[j].key_spec())]
                    0 <= i < self@.len() && 0 <= j < self@.len() && i != j implies !self@[
                i].key_spec().key_eq_spec(&self@[j].key_spec()) by {
                    let n = pre@.len() as int;
                    if i < n && j < n {
                    } else if i == n {
                        if self@[i].key_spec().key_eq_spec(&self@[j].key_spec()) {
                            let a = self@[i].key_spec();
                            let b = self@[j].key_spec();
                            a.lemma_key_eq_symmetric(&b);
                            assert(pre@[j].key_spec().key_eq_spec(&key));
                            assert(pre.contains_spec(key));
                        }
                    } else {
                        if self@[i].key_spec().key_eq_spec(&self@[j].key_spec()) {
                            assert(pre@[i].key_spec().key_eq_spec(&key));
                            assert(pre.contains_spec(key));
                        }
                    }
                }
            }
        }
        let ghost mid = *self;
        let pair = self.0.index_mut(index);
        let val = pair.get_value_mut();
        proof {
            assert forall|i: int, j: int|
                #![trigger after_borrow(self)@[i].key_spec().key_eq_spec(&after_borrow(self)@[j].key_spec())]
                0 <= i < after_borrow(self)@.len() && 0 <= j < after_borrow(self)@.len() && i != j
                    implies !after_borrow(self)@[i].key_spec().key_eq_spec(&after_borrow(self)@[
            j].key_spec()) by {
                assert(after_borrow(self)@[i].key_spec() == mid@[i].key_spec());
                assert(after_borrow(self)@[j].key_spec() == mid@[j].key_spec());
                assert(!mid@[i].key_spec().key_eq_spec(&mid@[j].key_spec()));
            }
        }
        val
    }
}

} // verus!
