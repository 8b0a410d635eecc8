use vstd::prelude::*;
use vstd::multiset::Multiset;
use vstd::seq_lib::*;

use crate::allocators::{AllocatorBase, ArrayAllocator, DefaultAllocator};
use crate::array::Array;
use crate::fast_hash::{FastHash, SetItem, SetKey};
use crate::raw_set::RawSet;
use crate::raw_set::RawSetEntry;
use crate::raw_set::{first_position_of, rename_value, without_value};

verus! {

broadcast use crate::raw_set::lemma_raw_set_dims;

/// The elements whose key equals `key`.
pub open spec fn matches_key_pred<T: SetItem>(key: T::KeyType) -> spec_fn(T) -> bool {
    |t: T| t.key_spec().key_eq_spec(&key)
}

/// The elements whose key differs from `key`.
pub open spec fn differs_key_pred<T: SetItem>(key: T::KeyType) -> spec_fn(T) -> bool {
    |t: T| !t.key_spec().key_eq_spec(&key)
}

/// A multiset splits into the part satisfying a predicate and the rest.
pub proof fn lemma_multiset_filter_partition<T>(m: Multiset<T>, p: spec_fn(T) -> bool, q: spec_fn(T) -> bool)
    requires
        forall|t: T| #[trigger] q(t) == !p(t),
    ensures
        m == m.filter(p).add(m.filter(q)),
{
    broadcast use vstd::multiset::group_multiset_axioms;

    assert(m =~= m.filter(p).add(m.filter(q))) by {
        assert forall|t: T| m.count(t) == #[trigger] m.filter(p).add(m.filter(q)).count(t) by {
            assert(q(t) == !p(t));
        }
    }
}

/// The content left after removing, in turn, every element matching each
/// key of `keys` — the model of one `remove_all` call per key.
pub open spec fn remove_keys_content<T: SetItem>(
    content: Multiset<T>,
    keys: Seq<T::KeyType>,
) -> Multiset<T>
    decreases keys.len(),
{
    if keys.len() == 0 {
        content
    } else {
        remove_keys_content(content.filter(differs_key_pred::<T>(keys[0])), keys.skip(1))
    }
}

/// The round trip: when every stored element's key appears in `keys`,
/// removing the matches of each key in turn leaves nothing behind.
pub proof fn lemma_remove_all_round_trip<T: SetItem>(content: Multiset<T>, keys: Seq<T::KeyType>)
    requires
        forall|t: T|
            #[trigger] content.count(t) > 0 ==> exists|i: int|
                0 <= i < keys.len() && t.key_spec().key_eq_spec(#[trigger] &keys[i]),
    ensures
        remove_keys_content(content, keys).len() == 0,
    decreases keys.len(),
{
    broadcast use vstd::multiset::group_multiset_axioms;

    if keys.len() == 0 {
        if content.len() > 0 {
            let t = content.choose();
            assert(content.count(t) > 0);
            assert(false);
        }
    } else {
        let rest = content.filter(differs_key_pred::<T>(keys[0]));
        assert forall|t: T|
            #[trigger] rest.count(t) > 0 implies exists|i: int|
            0 <= i < keys.skip(1).len() && t.key_spec().key_eq_spec(
                #[trigger] &keys.skip(1)[i],
            ) by {
            assert(content.count(t) > 0);
            assert((differs_key_pred::<T>(keys[0]))(t));
            let i = choose|i: int|
                0 <= i < keys.len() && t.key_spec().key_eq_spec(#[trigger] &keys[i]);
            assert(0 <= i < keys.len() && t.key_spec().key_eq_spec(&keys[i]));
            assert(i != 0);
            assert(keys.skip(1)[i - 1] == keys[i]);
        }
        lemma_remove_all_round_trip(rest, keys.skip(1));
    }
}

/// A swap-remove (the last element moved into the freed slot) takes exactly
/// the removed element out of the sequence's multiset.
pub proof fn lemma_swap_remove_multiset<T>(v: Seq<T>, i: int)
    requires
        0 <= i < v.len(),
    ensures
        v.update(i, v.last()).drop_last().to_multiset() == v.to_multiset().remove(v[i]),
{
    broadcast use vstd::seq_lib::group_to_multiset_ensures;
    broadcast use vstd::multiset::group_multiset_axioms;

    let n = v.len() as int;
    if i == n - 1 {
        assert(v.update(i, v.last()) =~= v);
        assert(v.drop_last() =~= v.remove(n - 1));
        to_multiset_remove(v, n - 1);
    } else {
        let u = v.update(i, v.last());
        to_multiset_update(v, i, v.last());
        assert(u.drop_last() =~= u.remove(n - 1));
        to_multiset_remove(u, n - 1);
        assert(u[n - 1] == v.last());
        assert(u.drop_last().to_multiset() =~= v.to_multiset().remove(v[i]));
    }
}

/// A typed hash set with multimap semantics: duplicate keys are permitted,
/// probing compares keys (not just hashes), and removal uses
/// swap-with-last slots. Element order in the payload follows insertion,
/// except where a removal moved the last element into the freed slot.
pub struct FastSet<
    T,
    DataAlloc = DefaultAllocator,
    EntriesAlloc = DefaultAllocator,
    TableAlloc = DefaultAllocator,
>(RawSet<T, DataAlloc, EntriesAlloc, TableAlloc>) where
    T: SetItem,
    DataAlloc: ArrayAllocator<T>,
    EntriesAlloc: ArrayAllocator<RawSetEntry>,
    TableAlloc: ArrayAllocator<usize>;

impl<T, DataAlloc, EntriesAlloc, TableAlloc> View for FastSet<T, DataAlloc, EntriesAlloc, TableAlloc> where
    T: SetItem,
    DataAlloc: ArrayAllocator<T>,
    EntriesAlloc: ArrayAllocator<RawSetEntry>,
    TableAlloc: ArrayAllocator<usize>,
{
    type V = Seq<T>;

    closed spec fn view(&self) -> Seq<T> {
        self.0@
    }
}

impl<T: SetItem> Default for FastSet<T> {
    fn default() -> (r: Self)
        ensures
            r@ == Seq::<T>::empty(),
            r.wf(),
    {
        FastSet::new()
    }
}

impl<T: SetItem> FastSet<T> {
    pub fn new() -> (r: Self)
        ensures
            r.wf(),
            r@ == Seq::<T>::empty(),
    {
        FastSet(RawSet::for_type())
    }

    pub fn with_table_size(table_size: usize) -> (r: Self)
        requires
            table_size < usize::MAX,
        ensures
            r.wf(),
            r@ == Seq::<T>::empty(),
    {
        FastSet(RawSet::for_type_with_table_size(table_size))
    }
}

impl<T, DataAlloc, EntriesAlloc, TableAlloc> FastSet<T, DataAlloc, EntriesAlloc, TableAlloc> where
    T: SetItem,
    DataAlloc: ArrayAllocator<T>,
    EntriesAlloc: ArrayAllocator<RawSetEntry>,
    TableAlloc: ArrayAllocator<usize>,
 {
    /// The table's chains are consistent and every stored hash is its
    /// element's key hash.
    pub closed spec fn wf(&self) -> bool {
        &&& self.0.wf()
        &&& (forall|i: int|
            0 <= i < self.0@.len() ==> (#[trigger] self.0.hashes()[i])
                == self.0@[i].key_spec().hash_spec())
    }

    /// The reserved capacity, in elements.
    pub closed spec fn cap_spec(&self) -> int {
        self.0.cap_spec()
    }

    /// The indices holding an element of `key`, in the order the probe
    /// visits them.
    pub closed spec fn key_matches(&self, key: T::KeyType) -> Seq<int> {
        self.0.matches_of(key.hash_spec()).filter(
            |i: int| 0 <= i < self@.len() && self@[i].key_spec().key_eq_spec(&key),
        )
    }

    /// `key_matches` holds exactly the indices of elements with `key`, each
    /// once.
    pub proof fn lemma_key_matches_characterize(&self, key: T::KeyType)
        requires
            self.wf(),
        ensures
            forall|i: int|
                #[trigger] self.key_matches(key).contains(i) <==> (0 <= i < self@.len()
                    && self@[i].key_spec().key_eq_spec(&key)),
            self.key_matches(key).no_duplicates(),
            self@.len() < usize::MAX as int,
    {
        let h = key.hash_spec();
        let ms = self.0.matches_of(h);
        let kp = |i: int| 0 <= i < self@.len() && self@[i].key_spec().key_eq_spec(&key);
        let km = self.key_matches(key);
        self.0.lemma_matches_characterize(h);
        assert forall|i: int| #[trigger] km.contains(i) implies (0 <= i < self@.len()
            && self@[i].key_spec().key_eq_spec(&key)) by {
            ms.lemma_filter_contains_rev(kp, i);
            let j = choose|j: int| 0 <= j < km.len() && km[j] == i;
            ms.lemma_filter_pred(kp, j);
        }
        assert forall|i: int|
            0 <= i < self@.len() && self@[i].key_spec().key_eq_spec(&key) implies #[trigger] km
            .contains(i) by {
            self@[i].key_spec().lemma_key_eq_same_hash(&key);
            assert(self.0.hashes()[i] == h);
            assert(ms.contains(i));
            let j = choose|j: int| 0 <= j < ms.len() && ms[j] == i;
            ms.lemma_filter_contains(kp, j);
        }
        crate::raw_set::lemma_filter_no_duplicates(ms, kp);
    }

    /// In every well-formed set the element count never exceeds the
    /// reserved capacity.
    pub proof fn lemma_capacity_bounds_num(&self)
        requires
            self.wf(),
        ensures
            self@.len() <= self.cap_spec(),
    {
        self.0.lemma_capacity_bounds_num();
    }

    pub fn custom_allocators() -> (r: Self)
        ensures
            r.wf(),
            r@ == Seq::<T>::empty(),
    {
        FastSet(RawSet::for_type())
    }

    pub fn custom_allocators_with_table_size(table_size: usize) -> (r: Self)
        requires
            table_size < usize::MAX,
        ensures
            r.wf(),
            r@ == Seq::<T>::empty(),
    {
        FastSet(RawSet::for_type_with_table_size(table_size))
    }

    pub fn capacity(&self) -> (r: usize)
        ensures
            r as int == self.cap_spec(),
    {
        self.0.capacity()
    }

    pub fn set_capacity(&mut self, capacity: usize)
        requires
            old(self).wf(),
        ensures
            final(self).wf(),
            final(self)@ == old(self)@,
    {
        self.0.set_capacity(capacity);
    }

    pub fn reserve(&mut self, additional: usize)
        requires
            old(self).wf(),
            old(self)@.len() + additional <= usize::MAX,
        ensures
            final(self).wf(),
            final(self)@ == old(self)@,
    {
        self.0.reserve(additional);
    }

    pub fn num(&self) -> (r: usize)
        requires
            self.wf(),
        ensures
            r as int == self@.len(),
    {
        self.0.num()
    }

    pub fn is_empty(&self) -> (r: bool)
        requires
            self.wf(),
        ensures
            r == (self@.len() == 0),
    {
        self.0.is_empty()
    }

    pub fn as_slice(&self) -> (r: &[T])
        ensures
            r@ == self@,
    {
        self.0.as_slice()
    }

    /// A shared reference to the element at `index`.
    pub fn index(&self, index: usize) -> (r: &T)
        requires
            self.wf(),
            index < self@.len(),
        ensures
            *r == self@[index as int],
    {
        self.0.get_data(index)
    }

    /// A mutable reference to the element at `index`. Well-formedness
    /// survives as long as the caller leaves the element's key hash alone.
    pub fn index_mut(&mut self, index: usize) -> (r: &mut T)
        requires
            old(self).wf(),
            index < old(self)@.len(),
        ensures
            *r == old(self)@[index as int],
            final(self)@ == old(self)@.update(index as int, *final(r)),
            final(r).key_spec().hash_spec() == old(self)@[index as int].key_spec().hash_spec()
                ==> final(self).wf(),
    {
        self.0.get_data_mut(index)
    }

    /// Append `value`, keyed by its own key's hash; its slot index is
    /// returned. Duplicate keys are permitted.
    pub fn insert(&mut self, value: T) -> (r: usize)
        requires
            old(self).wf(),
            old(self)@.len() + 1 < usize::MAX,
        ensures
            final(self).wf(),
            final(self)@ == old(self)@.push(value),
            r as int == old(self)@.len(),
            final(self).key_matches(value.key_spec()).len() > 0,
            final(self).key_matches(value.key_spec())[0] == old(self)@.len(),
    {
        let hash = value.get_key().fast_hash();
        let r = self.0.insert_data(hash, value);
        proof {
            assert forall|i: int| 0 <= i < self.0@.len() implies (#[trigger] self.0.hashes()[i])
                == self.0@[i].key_spec().hash_spec() by {
                if i < old(self)@.len() {
                    assert(self.0.hashes()[i] == old(self).0.hashes()[i]);
                }
            }
            // The fresh element heads its key's matches: it heads its
            // hash's run and its key trivially matches itself.
            let key = value.key_spec();
            let ms = self.0.matches_of(key.hash_spec());
            let kp = |i: int| 0 <= i < self@.len() && self@[i].key_spec().key_eq_spec(&key);
            assert(ms[0] == old(self)@.len());
            key.lemma_key_eq_reflexive();
            assert(kp(ms[0]));
            assert(ms =~= seq![ms[0]] + ms.drop_first());
            ms.drop_first().lemma_filter_prepend(ms[0], kp);
            assert(self.key_matches(key) == ms.filter(kp));
            assert(self.key_matches(key)[0] == ms[0]);
        }
        r
    }

    /// Remove the element at `index`, moving the last element into its slot.
    pub fn swap_remove(&mut self, index: usize) -> (r: T)
        requires
            old(self).wf(),
            index < old(self)@.len(),
        ensures
            final(self).wf(),
            r == old(self)@[index as int],
            final(self)@ == old(self)@.update(index as int, old(self)@.last()).drop_last(),
    {
        proof {
            self.0.lemma_matches_characterize(0);
        }
        let r = self.0.remove_data(index);
        proof {
            assert forall|i: int| 0 <= i < self.0@.len() implies (#[trigger] self.0.hashes()[i])
                == self.0@[i].key_spec().hash_spec() by {
                let oh = old(self).0.hashes().update(
                    index as int,
                    old(self).0.hashes().last(),
                ).drop_last();
                assert(self.0.hashes()[i] == oh[i]);
            }
        }
        r
    }

    /// Drop every element; capacities and the table size are retained.
    pub fn clear(&mut self)
        requires
            old(self).wf(),
        ensures
            final(self).wf(),
            final(self)@ == Seq::<T>::empty(),
    {
        self.0.clear();
    }

    /// Remove every element whose key equals `key`, handing them back in a
    /// caller-chosen array. Exactly the matching elements leave; the rest
    /// stay, though a removal may reorder them.
    #[verifier::rlimit(100)]
    #[verifier::loop_isolation(false)]
    pub fn remove_all<RemovedAlloc: ArrayAllocator<T>>(&mut self, key: &T::KeyType) -> (r: Array<
        T,
        RemovedAlloc,
    >)
        requires
            old(self).wf(),
        ensures
            final(self).wf(),
            r@.to_multiset() == old(self)@.to_multiset().filter(matches_key_pred::<T>(*key)),
            final(self)@.to_multiset() == old(self)@.to_multiset().filter(
                differs_key_pred::<T>(*key),
            ),
            final(self)@.len() + r@.len() == old(self)@.len(),
            forall|i: int|
                0 <= i < final(self)@.len() ==> !(#[trigger] final(self)@[i]).key_spec().key_eq_spec(
                    key,
                ),
            forall|i: int|
                0 <= i < r@.len() ==> (#[trigger] r@[i]).key_spec().key_eq_spec(key),
            r@.len() == 0 ==> final(self)@ == old(self)@,
            r.wf(),
    {
        broadcast use vstd::seq_lib::group_to_multiset_ensures;
        broadcast use vstd::multiset::group_multiset_axioms;

        let ghost kp_v = matches_key_pred::<T>(*key);
        let ghost np_v = differs_key_pred::<T>(*key);
        let ghost h = key.hash_spec();
        let mut removed: Array<T, RemovedAlloc> = Array::custom_allocator();

        proof {
            self.0.lemma_matches_characterize(h);
        }
        let hash = key.fast_hash();
        let mut index = self.0.find_first_index(hash);
        let ghost mut j: int = 0;
        proof {
            if self.0.matches_of(h).len() > 0 {
                assert(self.0.matches_of(h).contains(self.0.matches_of(h)[0]));
            }
        }
        while index != usize::MAX
            invariant
                self.wf(),
                removed.wf(),
                0 <= j <= self.0.matches_of(h).len(),
                index == usize::MAX <==> j == self.0.matches_of(h).len(),
                index != usize::MAX ==> index as int == self.0.matches_of(h)[j],
                forall|jj: int|
                    0 <= jj < j ==> !(#[trigger] self@[self.0.matches_of(h)[jj]]).key_spec().key_eq_spec(
                        key,
                    ),
                self@.to_multiset().filter(kp_v).add(removed@.to_multiset()) == old(
                    self,
                )@.to_multiset().filter(kp_v),
                self@.to_multiset().filter(np_v) == old(self)@.to_multiset().filter(np_v),
                self@.len() + removed@.len() == old(self)@.len(),
                forall|i: int|
                    0 <= i < removed@.len() ==> (#[trigger] removed@[i]).key_spec().key_eq_spec(
                        key,
                    ),
                removed@.len() == 0 ==> *self == *old(self),
            decreases self.0.matches_of(h).len() - j,
        {
            let ghost pre = *self;
            let ghost ms = self.0.matches_of(h);
            proof {
                self.0.lemma_matches_characterize(h);
                assert(ms.contains(ms[j]));
            }
            let next_index = self.0.find_next_index(index);
            proof {
                assert(self.0.matches_of(self.0.hashes()[index as int])[j] == index as int);
                if j < ms.len() - 1 {
                    assert(ms.contains(ms[j + 1]));
                    assert(next_index as int == ms[j + 1]);
                    assert(next_index != usize::MAX);
                } else {
                    assert(next_index == usize::MAX);
                }
            }

            if self.0.get_data(index).get_key().key_eq(key) {
                let ghost last = pre@.len() - 1;
                let value = self.0.remove_data(index);
                proof {
                    // The removed slot's element matched; account for it.
                    assert(kp_v(value));
                    lemma_swap_remove_multiset(pre@, index as int);
                    assert(self@.to_multiset() == pre@.to_multiset().remove(value));
                    assert(pre@.to_multiset().count(value) > 0) by {
                        assert(pre@.contains(value)) by {
                            assert(pre@[index as int] == value);
                        }
                    }
                    assert(self@.to_multiset().filter(kp_v) =~= pre@.to_multiset().filter(
                        kp_v,
                    ).remove(value));
                    assert(self@.to_multiset().filter(np_v) =~= pre@.to_multiset().filter(np_v));
                    // Hash consistency carries over the swap.
                    assert forall|i: int|
                        0 <= i < self.0@.len() implies (#[trigger] self.0.hashes()[i])
                        == self.0@[i].key_spec().hash_spec() by {
                        let oh = pre.0.hashes().update(
                            index as int,
                            pre.0.hashes().last(),
                        ).drop_last();
                        assert(self.0.hashes()[i] == oh[i]);
                    }
                    // The matches of `h` lose position `j` and read the
                    // renamed slot.
                    assert(ms.no_duplicates());
                    assert(without_value(ms, index as int) == ms.remove(j)) by {
                        assert(ms.contains(index as int)) by {
                            assert(ms[j] == index as int);
                        }
                        let fp = first_position_of(ms, index as int);
                        assert(0 <= fp < ms.len() && ms[fp] == index as int);
                        assert(fp == j) by {
                            if fp != j {
                                assert(ms[fp] == ms[j]);
                            }
                        }
                    }
                    assert(self.0.matches_of(h) == rename_value(
                        ms.remove(j),
                        last,
                        index as int,
                    ));
                    assert(self.0.matches_of(h).len() == ms.len() - 1);
                }
                removed.push_back(value);
                proof {
                    // The prefix of visited non-matches keeps its values.
                    assert forall|jj: int|
                        0 <= jj < j implies !(#[trigger] self@[self.0.matches_of(
                        h,
                    )[jj]]).key_spec().key_eq_spec(key) by {
                        let msn = self.0.matches_of(h);
                        let y = ms.remove(j)[jj];
                        assert(y == ms[jj]);
                        assert(msn[jj] == (if y == last {
                            index as int
                        } else {
                            y
                        }));
                        assert(ms.contains(ms[jj]));
                        assert(y != index as int) by {
                            if jj != j {
                                assert(ms[jj] != ms[j]);
                            }
                        }
                        if y == last {
                            assert(self@[index as int] == pre@[last]);
                        } else {
                            assert(self@[y] == pre@[y]);
                        }
                    }
                }
                if next_index != self.0.num() {
                    proof {
                        if next_index != usize::MAX {
                            // The next match did not move: it sits one slot
                            // earlier in the shrunk run.
                            assert(ms[j + 1] != last);
                            assert(self.0.matches_of(h)[j] == ms[j + 1]);
                        }
                    }
                    index = next_index;
                    proof {
                        if index == usize::MAX {
                            assert(j == ms.len() - 1);
                            assert(j == self.0.matches_of(h).len());
                        }
                    }
                } else {
                    proof {
                        // The next match was the moved last element: it now
                        // lives in the freed slot.
                        assert(next_index as int == last);
                        assert(j < ms.len() - 1);
                        assert(ms[j + 1] == last);
                        assert(self.0.matches_of(h)[j] == index as int);
                    }
                }
            } else {
                proof {
                    assert(!kp_v(self@[ms[j]]));
                    j = j + 1;
                }
                index = next_index;
            }
        }
        proof {
            // Every run position was visited and none matches, so nothing
            // of `key` remains.
            self.0.lemma_matches_characterize(h);
            self.lemma_key_matches_characterize(*key);
            assert forall|i: int|
                0 <= i < self@.len() implies !(#[trigger] self@[i]).key_spec().key_eq_spec(
                key,
            ) by {
                if self@[i].key_spec().key_eq_spec(key) {
                    assert(self.key_matches(*key).contains(i));
                    let ms = self.0.matches_of(h);
                    ms.lemma_filter_contains_rev(
                        |x: int| 0 <= x < self@.len() && self@[x].key_spec().key_eq_spec(key),
                        i,
                    );
                    let jj = choose|jj: int| 0 <= jj < ms.len() && ms[jj] == i;
                    assert(!self@[ms[jj]].key_spec().key_eq_spec(key));
                }
            }
            assert(self@.to_multiset().filter(kp_v) =~= Multiset::<T>::empty()) by {
                assert forall|t: T| self@.to_multiset().filter(kp_v).count(t) == 0 by {
                    if kp_v(t) && self@.to_multiset().count(t) > 0 {
                        assert(self@.contains(t));
                        let i = choose|i: int| 0 <= i < self@.len() && self@[i] == t;
                        assert(!self@[i].key_spec().key_eq_spec(key));
                    }
                }
            }
            assert(removed@.to_multiset() =~= old(self)@.to_multiset().filter(kp_v));
            lemma_multiset_filter_partition(self@.to_multiset(), kp_v, np_v);
            assert(self@.to_multiset() =~= old(self)@.to_multiset().filter(np_v));
        }
        removed
    }

    /// The index of the first element sharing `value`'s key, or, when there
    /// is none, the slot that `value` was appended into.
    pub fn find_index_or_insert_mut(&mut self, value: T) -> (r: usize)
        requires
            old(self).wf(),
            old(self)@.len() + 1 < usize::MAX,
        ensures
            final(self).wf(),
            old(self).key_matches(value.key_spec()).len() > 0 ==> final(self)@ == old(self)@
                && r as int == old(self).key_matches(value.key_spec())[0],
            old(self).key_matches(value.key_spec()).len() == 0 ==> final(self)@ == old(
                self,
            )@.push(value) && r as int == old(self)@.len(),
    {
        let first = self.find_first_index(value.get_key());
        if first != usize::MAX {
            proof {
                self.lemma_key_matches_characterize(value.key_spec());
                assert(self.key_matches(value.key_spec()).contains(first as int)) by {
                    assert(self.key_matches(value.key_spec())[0] == first as int);
                }
            }
            first
        } else {
            proof {
                if self.key_matches(value.key_spec()).len() > 0 {
                    self.lemma_key_matches_characterize(value.key_spec());
                    let km = self.key_matches(value.key_spec());
                    assert(km.contains(km[0]));
                }
            }
            self.insert(value)
        }
    }

    /// The index of the first element of `key`, or `usize::MAX` when there
    /// is none.
    pub fn find_first_index(&self, key: &T::KeyType) -> (r: usize)
        requires
            self.wf(),
        ensures
            self.key_matches(*key).len() == 0 ==> r == usize::MAX,
            self.key_matches(*key).len() > 0 ==> r as int == self.key_matches(*key)[0],
    {
        let ghost ms = self.0.matches_of(key.hash_spec());
        let ghost kp = |i: int| 0 <= i < self@.len() && self@[i].key_spec().key_eq_spec(key);
        let ghost km = self.key_matches(*key);
        proof {
            assert(km == ms.filter(kp));
            self.0.lemma_matches_characterize(key.hash_spec());
            assert forall|jj: int| 0 <= jj < ms.len() implies 0 <= #[trigger] ms[jj] < self@.len()
                && self.0.hashes()[ms[jj]] == key.hash_spec() by {
                assert(ms.contains(ms[jj]));
            }
        }
        let hash = key.fast_hash();
        let mut index = self.0.find_first_index(hash);
        let ghost mut j: int = 0;
        proof {
            assert(ms.take(0).filter(kp) =~= Seq::<int>::empty());
        }
        while index != usize::MAX
            invariant
                self.wf(),
                self@.len() == self.0.num_spec(),
                self.0.num_spec() < usize::MAX as int,
                ms == self.0.matches_of(key.hash_spec()),
                kp == (|i: int| 0 <= i < self@.len() && self@[i].key_spec().key_eq_spec(key)),
                km == ms.filter(kp),
                forall|jj: int|
                    0 <= jj < ms.len() ==> 0 <= #[trigger] ms[jj] < self@.len()
                        && self.0.hashes()[ms[jj]] == key.hash_spec(),
                0 <= j <= ms.len(),
                index == usize::MAX <==> j == ms.len(),
                index != usize::MAX ==> index as int == ms[j],
                ms.take(j).filter(kp).len() == 0,
            decreases ms.len() - j,
        {
            if self.0.get_data(index).get_key().key_eq(key) {
                proof {
                    assert(kp(ms[j]));
                    assert(ms =~= ms.take(j) + ms.skip(j));
                    Seq::filter_distributes_over_add(ms.take(j), ms.skip(j), kp);
                    assert(ms.skip(j) =~= seq![ms[j]] + ms.skip(j + 1));
                    ms.skip(j + 1).lemma_filter_prepend(ms[j], kp);
                    assert(km[0] == ms[j]);
                }
                return index;
            }
            proof {
                assert(self.0.matches_of(self.0.hashes()[index as int])[j] == index as int);
            }
            let next = self.0.find_next_index(index);
            proof {
                if j < ms.len() - 1 {
                    assert(next as int == ms[j + 1]);
                    assert(next != usize::MAX);
                } else {
                    assert(next == usize::MAX);
                }
                assert(!kp(ms[j]));
                assert(ms.take(j + 1).drop_last() =~= ms.take(j));
                ms.take(j).lemma_filter_push(ms[j], kp);
                assert(ms.take(j + 1) =~= ms.take(j).push(ms[j]));
                j = j + 1;
            }
            index = next;
        }
        proof {
            assert(ms.take(ms.len() as int) =~= ms);
        }
        usize::MAX
    }

    /// The index of the next element sharing the key of the element at
    /// `index`, or `usize::MAX` when it is the last of its key.
    #[verifier::rlimit(100)]
    #[verifier::loop_isolation(false)]
    pub fn find_next_index(&self, index: usize) -> (r: usize)
        requires
            self.wf(),
            (index as int) < self@.len(),
        ensures
            forall|j: int|
                #![trigger self.key_matches(self@[index as int].key_spec())[j]]
                {
                    let km = self.key_matches(self@[index as int].key_spec());
                    0 <= j < km.len() && km[j] == index as int ==> r as int == (if j < km.len()
                        - 1 {
                        km[j + 1]
                    } else {
                        usize::MAX as int
                    })
                },
    {
        let ghost key = self@[index as int].key_spec();
        let ghost ms = self.0.matches_of(key.hash_spec());
        let ghost kp = |i: int| 0 <= i < self@.len() && self@[i].key_spec().key_eq_spec(&key);
        let ghost km = self.key_matches(key);
        proof {
            assert(km == ms.filter(kp));
            self.0.lemma_matches_characterize(key.hash_spec());
            self.lemma_key_matches_characterize(key);
            self@[index as int].key_spec().lemma_key_eq_reflexive();
            assert(km.contains(index as int));
            assert forall|jj: int| 0 <= jj < ms.len() implies 0 <= #[trigger] ms[jj] < self@.len()
                && self.0.hashes()[ms[jj]] == key.hash_spec() by {
                assert(ms.contains(ms[jj]));
            }
        }
        let ghost start = first_position_of(ms, index as int);
        proof {
            assert(ms.contains(index as int)) by {
                ms.lemma_filter_contains_rev(kp, index as int);
            }
            assert(0 <= start < ms.len() && ms[start] == index as int);
            assert(self.0.matches_of(self.0.hashes()[index as int])[start] == index as int);
        }
        let ghost mut j: int = start;
        let mut next = self.0.find_next_index(index);
        proof {
            if start < ms.len() - 1 {
                assert(next as int == ms[start + 1]);
                assert(next != usize::MAX);
            } else {
                assert(next == usize::MAX);
            }
            assert(kp(ms[start]));
        }
        // Walk the raw run, skipping hash collisions of other keys.
        while next != usize::MAX
            invariant
                self.wf(),
                self@.len() == self.0.num_spec(),
                self.0.num_spec() < usize::MAX as int,
                key == self@[index as int].key_spec(),
                ms == self.0.matches_of(key.hash_spec()),
                kp == (|i: int| 0 <= i < self@.len() && self@[i].key_spec().key_eq_spec(&key)),
                km == ms.filter(kp),
                km.no_duplicates(),
                forall|jj: int|
                    0 <= jj < ms.len() ==> 0 <= #[trigger] ms[jj] < self@.len()
                        && self.0.hashes()[ms[jj]] == key.hash_spec(),
                start <= j < ms.len(),
                next == usize::MAX <==> j == ms.len() - 1,
                next != usize::MAX ==> next as int == ms[j + 1],
                ms.take(start + 1).filter(kp) == ms.take(j + 1).filter(kp),
                kp(ms[start]),
                ms[start] == index as int,
            decreases ms.len() - j,
        {
            if self.0.get_data(next).get_key().key_eq(self.0.get_data(index).get_key()) {
                proof {
                    assert(kp(ms[j + 1]));
                    // The found element is the next key match after `index`:
                    // the filtered prefix through `index` then it.
                    let front = ms.take(j + 1).filter(kp);
                    assert(ms =~= ms.take(j + 1) + ms.skip(j + 1));
                    Seq::filter_distributes_over_add(ms.take(j + 1), ms.skip(j + 1), kp);
                    assert(ms.skip(j + 1) =~= seq![ms[j + 1]] + ms.skip(j + 2));
                    ms.skip(j + 2).lemma_filter_prepend(ms[j + 1], kp);
                    assert(km[front.len() as int] == ms[j + 1]);
                    // And `index` is the last match of that prefix.
                    let front0 = ms.take(start + 1).filter(kp);
                    assert(front == front0);
                    ms.take(start).lemma_filter_push(ms[start], kp);
                    assert(ms.take(start + 1) =~= ms.take(start).push(ms[start]));
                    assert(front0.len() > 0 && front0.last() == index as int);
                    assert(km[front.len() - 1] == index as int);
                    assert forall|jj: int|
                        0 <= jj < km.len() && km[jj] == index as int implies jj == front.len()
                        - 1 by {
                        if jj != front.len() - 1 {
                            assert(km[jj] == km[front.len() - 1]);
                        }
                    }
                }
                return next;
            }
            proof {
                assert(!kp(ms[j + 1]));
                ms.take(j + 1).lemma_filter_push(ms[j + 1], kp);
                assert(ms.take(j + 2) =~= ms.take(j + 1).push(ms[j + 1]));
                assert(self.0.matches_of(self.0.hashes()[next as int])[j + 1] == next as int);
            }
            next = self.0.find_next_index(next);
            proof {
                j = j + 1;
                if j < ms.len() - 1 {
                    assert(next as int == ms[j + 1]);
                    assert(next != usize::MAX);
                } else {
                    assert(next == usize::MAX);
                }
            }
        }
        proof {
            // `index` is the last key match: nothing after it in the run
            // passes the key test.
            let front = ms.take(j + 1).filter(kp);
            assert(ms.take(j + 1) =~= ms);
            assert(km == front);
            let front0 = ms.take(start + 1).filter(kp);
            ms.take(start).lemma_filter_push(ms[start], kp);
            assert(ms.take(start + 1) =~= ms.take(start).push(ms[start]));
            assert(front0.len() > 0 && front0.last() == index as int);
            assert(km.len() > 0 && km.last() == index as int);
            assert(km.no_duplicates()) by {
                self.lemma_key_matches_characterize(key);
            }
            assert forall|jj: int|
                0 <= jj < km.len() && km[jj] == index as int implies jj == km.len() - 1 by {
                if jj != km.len() - 1 {
                    assert(km[jj] == km[km.len() - 1]);
                }
            }
        }
        usize::MAX
    }
}

} // verus!
