use vstd::prelude::*;
use vstd::multiset::Multiset;

use crate::fast_hash::{SetItem, SetKey};
use crate::set::{lemma_swap_remove_multiset, FastSet};

verus! {

broadcast use vstd::seq_lib::group_to_multiset_ensures;

/// The flag bit of a borrow word: set when an exclusive borrow is held.
pub const BORROW_HIGH_BIT: usize = usize::MAX / 2 + 1;

/// Why a borrow attempt was refused.
#[derive(Debug, Clone, Copy, PartialEq, Eq, Structural)]
pub enum ObjBorrowError {
    /// The object was borrowed exclusively already.
    Unique,
    /// The object had outstanding shared borrows.
    Shared,
}

/// A token witnessing one shared borrow; hand it back through
/// `release_read`.
pub struct ObjBorrow;

/// A token witnessing the exclusive borrow; hand it back through
/// `release_write`.
pub struct ObjBorrowMut;

/// Per-object borrow accounting in a single machine word: the top bit flags
/// exclusive ownership, the remaining bits count shared borrows, and the
/// all-ones word marks a destroyed object. The flag and a nonzero count are
/// mutually exclusive. Every operation is try-only: contention is reported,
/// never waited out.
pub struct ObjBorrowState {
    word: usize,
}

impl ObjBorrowState {
    /// The object has been retired; no further borrows are possible.
    pub closed spec fn is_destroyed(&self) -> bool {
        self.word == usize::MAX
    }

    /// An exclusive borrow is held.
    pub closed spec fn is_exclusive(&self) -> bool {
        !self.is_destroyed() && self.word >= BORROW_HIGH_BIT
    }

    /// The number of outstanding shared borrows.
    pub closed spec fn readers(&self) -> int {
        if self.is_destroyed() {
            0
        } else if self.is_exclusive() {
            self.word - BORROW_HIGH_BIT
        } else {
            self.word as int
        }
    }

    /// No borrow is outstanding and the object is still alive.
    pub open spec fn is_free(&self) -> bool {
        !self.is_destroyed() && !self.is_exclusive() && self.readers() == 0
    }

    /// The flag bit and a nonzero count never mix.
    pub closed spec fn wf(&self) -> bool {
        self.is_exclusive() ==> self.readers() == 0
    }

    pub fn new() -> (r: Self)
        ensures
            r.wf(),
            r.is_free(),
    {
        ObjBorrowState { word: 0 }
    }

    /// Try to take a shared borrow: it is granted unless an exclusive
    /// borrow is held, in which case the count is restored and the attempt
    /// reports `Unique`.
    pub fn try_read(&mut self) -> (r: Result<ObjBorrow, ObjBorrowError>)
        requires
            old(self).wf(),
            !old(self).is_destroyed(),
            old(self).readers() + 1 < BORROW_HIGH_BIT as int,
        ensures
            final(self).wf(),
            !final(self).is_destroyed(),
            old(self).is_exclusive() ==> {
                &&& r == Err::<ObjBorrow, ObjBorrowError>(ObjBorrowError::Unique)
                &&& *final(self) == *old(self)
            },
            !old(self).is_exclusive() ==> {
                &&& r is Ok
                &&& !final(self).is_exclusive()
                &&& final(self).readers() == old(self).readers() + 1
            },
    {
        let incremented = self.word + 1;
        self.word = incremented;
        if incremented >= BORROW_HIGH_BIT {
            self.word = incremented - 1;
            Err(ObjBorrowError::Unique)
        } else {
            Ok(ObjBorrow)
        }
    }

    /// Try to take the exclusive borrow: it is granted only on a free
    /// state; otherwise the conflict kind is reported.
    pub fn try_write(&mut self) -> (r: Result<ObjBorrowMut, ObjBorrowError>)
        requires
            old(self).wf(),
            !old(self).is_destroyed(),
        ensures
            final(self).wf(),
            old(self).is_free() ==> {
                &&& r is Ok
                &&& final(self).is_exclusive()
                &&& final(self).readers() == 0
            },
            old(self).is_exclusive() ==> {
                &&& r == Err::<ObjBorrowMut, ObjBorrowError>(ObjBorrowError::Unique)
                &&& *final(self) == *old(self)
            },
            !old(self).is_exclusive() && old(self).readers() > 0 ==> {
                &&& r == Err::<ObjBorrowMut, ObjBorrowError>(ObjBorrowError::Shared)
                &&& *final(self) == *old(self)
            },
    {
        if self.word == 0 {
            self.word = BORROW_HIGH_BIT;
            Ok(ObjBorrowMut)
        } else if self.word < BORROW_HIGH_BIT {
            Err(ObjBorrowError::Shared)
        } else {
            Err(ObjBorrowError::Unique)
        }
    }

    /// Try to retire the object: it succeeds exactly when no borrow is
    /// outstanding, leaving the distinguished destroyed word behind.
    pub fn try_destroy(&mut self) -> (r: bool)
        requires
            old(self).wf(),
        ensures
            final(self).wf(),
            old(self).is_free() ==> r && final(self).is_destroyed(),
            !old(self).is_free() ==> !r && *final(self) == *old(self),
    {
        if self.word == 0 {
            self.word = usize::MAX;
            true
        } else {
            false
        }
    }

    /// Hand a shared borrow back.
    pub fn release_read(&mut self, borrow: ObjBorrow)
        requires
            old(self).wf(),
            !old(self).is_destroyed(),
            !old(self).is_exclusive(),
            old(self).readers() > 0,
        ensures
            final(self).wf(),
            !final(self).is_destroyed(),
            !final(self).is_exclusive(),
            final(self).readers() == old(self).readers() - 1,
    {
        self.word = self.word - 1;
    }

    /// Hand the exclusive borrow back.
    pub fn release_write(&mut self, borrow: ObjBorrowMut)
        requires
            old(self).wf(),
            old(self).is_exclusive(),
        ensures
            final(self).wf(),
            final(self).is_free(),
    {
        self.word = 0;
    }
}

/// Releasing the sole outstanding shared borrow leaves the state free, so a
/// following `try_destroy` is guaranteed to succeed.
pub proof fn lemma_release_enables_destroy(held: ObjBorrowState, released: ObjBorrowState)
    requires
        held.wf(),
        !held.is_destroyed(),
        !held.is_exclusive(),
        held.readers() == 1,
        released.wf(),
        !released.is_destroyed(),
        !released.is_exclusive(),
        released.readers() == held.readers() - 1,
    ensures
        released.is_free(),
{
}

/// A value that can live in an `ObjStorage` pool.
pub trait Object: SetItem {

}

/// One pooled object with its borrow word and retirement flag.
struct ObjStorageEntry<T: Object> {
    value: T,
    borrow_state: ObjBorrowState,
    is_pending_drop: bool,
}

impl<T: Object> SetItem for ObjStorageEntry<T> {
    type KeyType = T::KeyType;

    closed spec fn key_spec(&self) -> T::KeyType {
        self.value.key_spec()
    }

    fn get_key(&self) -> (r: &T::KeyType) {
        self.value.get_key()
    }
}

impl<T: Object> ObjStorageEntry<T> {
    fn new(value: T) -> (r: Self)
        ensures
            r.value == value,
            r.borrow_state.wf(),
            r.borrow_state.is_free(),
            !r.is_pending_drop,
            r.key_spec() == value.key_spec(),
    {
        ObjStorageEntry { value, borrow_state: ObjBorrowState::new(), is_pending_drop: false }
    }
}

/// A pool of objects looked up by key. Retirement is two-phase: an object
/// is first marked pending, and a later `prune` pass physically removes it
/// only once its borrow word shows no outstanding borrow.
pub struct ObjStorage<T: Object> {
    set: FastSet<ObjStorageEntry<T>>,
}

impl<T: Object> ObjStorage<T> {
    /// Each pooled object with its retirement flag and borrow state, in
    /// slot order.
    pub closed spec fn entries(&self) -> Seq<(T, bool, ObjBorrowState)> {
        self.set@.map_values(
            |e: ObjStorageEntry<T>| (e.value, e.is_pending_drop, e.borrow_state),
        )
    }

    /// The pooled objects, in slot order.
    pub open spec fn objects(&self) -> Seq<T> {
        self.entries().map_values(|e: (T, bool, ObjBorrowState)| e.0)
    }

    pub closed spec fn wf(&self) -> bool {
        &&& self.set.wf()
        &&& (forall|i: int|
            0 <= i < self.set@.len() ==> (#[trigger] self.set@[i]).borrow_state.wf())
    }

    pub fn new() -> (r: Self)
        ensures
            r.wf(),
            r.entries() == Seq::<(T, bool, ObjBorrowState)>::empty(),
    {
        let r = ObjStorage { set: FastSet::new() };
        proof {
            assert(r.entries() =~= Seq::<(T, bool, ObjBorrowState)>::empty());
        }
        r
    }

    pub fn with_table_size(table_size: usize) -> (r: Self)
        requires
            table_size < usize::MAX,
        ensures
            r.wf(),
            r.entries() == Seq::<(T, bool, ObjBorrowState)>::empty(),
    {
        let r = ObjStorage { set: FastSet::with_table_size(table_size) };
        proof {
            assert(r.entries() =~= Seq::<(T, bool, ObjBorrowState)>::empty());
        }
        r
    }

    pub fn num(&self) -> (r: usize)
        requires
            self.wf(),
        ensures
            r as int == self.entries().len(),
    {
        self.set.num()
    }

    /// Pool `value`, initially unretired and with a free borrow word; its
    /// slot index is returned.
    pub fn insert(&mut self, value: T) -> (r: usize)
        requires
            old(self).wf(),
            old(self).entries().len() + 1 < usize::MAX,
        ensures
            final(self).wf(),
            final(self).entries().len() == old(self).entries().len() + 1,
            final(self).entries().drop_last() == old(self).entries(),
            final(self).entries().last().0 == value,
            !final(self).entries().last().1,
            final(self).entries().last().2.is_free(),
            r as int == old(self).entries().len(),
    {
        let entry = ObjStorageEntry::new(value);
        let r = self.set.insert(entry);
        proof {
            assert(final(self).entries().drop_last() =~= old(self).entries());
        }
        r
    }

    /// The first pooled object of `unique_id`, when one exists.
    pub fn try_get(&self, unique_id: &T::KeyType) -> (r: Option<&T>)
        requires
            self.wf(),
        ensures
            match r {
                Some(v) => exists|i: int|
                    0 <= i < self.objects().len() && #[trigger] self.objects()[i] == *v
                        && self.objects()[i].key_spec().key_eq_spec(unique_id),
                None => forall|i: int|
                    0 <= i < self.objects().len()
                        ==> !(#[trigger] self.objects()[i]).key_spec().key_eq_spec(unique_id),
            },
    {
        proof {
            self.set.lemma_key_matches_characterize(*unique_id);
            if self.set.key_matches(*unique_id).len() > 0 {
                let km = self.set.key_matches(*unique_id);
                assert(km.contains(km[0]));
            }
        }
        let index = self.set.find_first_index(unique_id);
        if index == usize::MAX {
            proof {
                assert forall|i: int|
                    0 <= i < self.objects().len() implies !(#[trigger] self.objects()[
                i]).key_spec().key_eq_spec(unique_id) by {
                    if self.objects()[i].key_spec().key_eq_spec(unique_id) {
                        assert(self.set@[i].key_spec().key_eq_spec(unique_id));
                        assert(self.set.key_matches(*unique_id).contains(i));
                    }
                }
            }
            None
        } else {
            let entry = self.set.index(index);
            proof {
                assert(self.objects()[index as int] == self.set@[index as int].value);
                assert(self.set@[index as int].key_spec().key_eq_spec(unique_id));
            }
            Some(&entry.value)
        }
    }

    /// Mark the first pooled object of `unique_id` as pending retirement;
    /// absent keys are left alone.
    pub fn request_drop(&mut self, unique_id: &T::KeyType)
        requires
            old(self).wf(),
        ensures
            final(self).wf(),
            final(self).objects() == old(self).objects(),
            final(self).entries().len() == old(self).entries().len(),
            forall|i: int|
                0 <= i < old(self).entries().len() ==> {
                    &&& (#[trigger] final(self).entries()[i]).0 == old(self).entries()[i].0
                    &&& final(self).entries()[i].2 == old(self).entries()[i].2
                },
            (exists|i: int|
                0 <= i < old(self).objects().len()
                    && (#[trigger] old(self).objects()[i]).key_spec().key_eq_spec(unique_id))
                ==> exists|i: int|
                0 <= i < final(self).entries().len() && (#[trigger] final(self).entries()[i]).1
                    && final(self).entries()[i].0.key_spec().key_eq_spec(unique_id),
    {
        proof {
            self.set.lemma_key_matches_characterize(*unique_id);
            if self.set.key_matches(*unique_id).len() > 0 {
                let km = self.set.key_matches(*unique_id);
                assert(km.contains(km[0]));
            }
        }
        let index = self.set.find_first_index(unique_id);
        if index != usize::MAX {
            let entry = self.set.index_mut(index);
            entry.is_pending_drop = true;
            proof {
                assert(final(self).objects() =~= old(self).objects());
                assert(self.entries()[index as int].1);
                assert(self.set@[index as int].key_spec().key_eq_spec(unique_id));
                assert(self.entries()[index as int].0.key_spec().key_eq_spec(unique_id));
            }
        } else {
            proof {
                assert forall|i: int|
                    0 <= i < self.objects().len() implies !(#[trigger] self.objects()[
                i]).key_spec().key_eq_spec(unique_id) by {
                    if self.objects()[i].key_spec().key_eq_spec(unique_id) {
                        assert(self.set@[i].key_spec().key_eq_spec(unique_id));
                        assert(self.set.key_matches(*unique_id).contains(i));
                    }
                }
                assert(final(self).objects() =~= old(self).objects());
            }
        }
    }

    /// Physically remove every pending object whose borrow word shows no
    /// outstanding borrow; everything else stays.
    #[verifier::rlimit(100)]
    pub fn prune(&mut self)
        requires
            old(self).wf(),
        ensures
            final(self).wf(),
            final(self).entries().to_multiset() == old(self).entries().to_multiset().filter(
                |e: (T, bool, ObjBorrowState)| !(e.1 && e.2.is_free()),
            ),
    {
        broadcast use vstd::multiset::group_multiset_axioms;

        let ghost keep = |e: (T, bool, ObjBorrowState)| !(e.1 && e.2.is_free());
        let mut index: usize = 0;
        proof {
            assert(self.entries().take(0) =~= Seq::<(T, bool, ObjBorrowState)>::empty());
            assert(self.entries().skip(0) =~= self.entries());
            assert(self.entries().take(0).to_multiset().filter(keep) =~= self.entries().take(
                0,
            ).to_multiset());
            assert(self.entries().take(0).to_multiset().add(
                self.entries().skip(0).to_multiset(),
            ).filter(keep) =~= old(self).entries().to_multiset().filter(keep));
        }
        while index < self.set.num()
            invariant
                self.wf(),
                index as int <= self.entries().len(),
                self.entries().take(index as int).to_multiset().filter(keep) == self.entries().take(
                    index as int,
                ).to_multiset(),
                self.entries().take(index as int).to_multiset().add(
                    self.entries().skip(index as int).to_multiset(),
                ).filter(keep) == old(self).entries().to_multiset().filter(keep),
                keep == (|e: (T, bool, ObjBorrowState)| !(e.1 && e.2.is_free())),
            decreases self.entries().len() - index,
        {
            let ghost i = index as int;
            let ghost pre_entries = self.entries();
            let ghost cur = pre_entries[i];
            proof {
                assert(cur.1 == self.set@[i].is_pending_drop);
                assert(cur.2 == self.set@[i].borrow_state);
                assert(self.set@[i].borrow_state.wf());
            }
            let pending = self.set.index(index).is_pending_drop;
            let mut destroyed = false;
            if pending {
                let entry = self.set.index_mut(index);
                destroyed = entry.borrow_state.try_destroy();
            }
            let ghost mid_entries = self.entries();
            proof {
                assert(mid_entries.len() == pre_entries.len());
                assert(mid_entries.take(i) =~= pre_entries.take(i));
                assert(mid_entries.skip(i + 1) =~= pre_entries.skip(i + 1));
                assert(mid_entries[i].0 == cur.0 && mid_entries[i].1 == cur.1);
                assert(destroyed == !keep(cur));
            }
            if destroyed {
                let _removed = self.set.swap_remove(index);
                proof {
                    let post_entries = self.entries();
                    let tail = mid_entries.skip(i);
                    assert(tail[0] == mid_entries[i]);
                    assert(post_entries =~= mid_entries.update(
                        i,
                        mid_entries.last(),
                    ).drop_last());
                    assert(post_entries.take(i) =~= pre_entries.take(i));
                    assert(post_entries.skip(i) =~= tail.update(0, tail.last()).drop_last());
                    crate::set::lemma_swap_remove_multiset(tail, 0);
                    assert(post_entries.skip(i).to_multiset() == tail.to_multiset().remove(
                        tail[0],
                    ));
                    assert(tail =~= seq![tail[0]] + mid_entries.skip(i + 1));
                    vstd::seq_lib::lemma_multiset_commutative(
                        seq![tail[0]],
                        mid_entries.skip(i + 1),
                    );
                    assert(seq![tail[0]].to_multiset() =~= Multiset::empty().insert(tail[0])) by {
                        assert(seq![tail[0]] =~= Seq::<(T, bool, ObjBorrowState)>::empty().push(
                            tail[0],
                        ));
                    }
                    assert(post_entries.skip(i).to_multiset() =~= pre_entries.skip(
                        i + 1,
                    ).to_multiset());
                    // The removed slot failed `keep`, so the filtered sum is
                    // untouched.
                    assert(pre_entries.skip(i) =~= seq![cur] + pre_entries.skip(i + 1));
                    vstd::seq_lib::lemma_multiset_commutative(
                        seq![cur],
                        pre_entries.skip(i + 1),
                    );
                    assert(seq![cur].to_multiset() =~= Multiset::empty().insert(cur)) by {
                        assert(seq![cur] =~= Seq::<(T, bool, ObjBorrowState)>::empty().push(cur));
                    }
                    assert(!keep(cur));
                    assert(pre_entries.skip(i).to_multiset().filter(keep)
                        =~= pre_entries.skip(i + 1).to_multiset().filter(keep));
                    assert(post_entries.take(i).to_multiset().add(
                        post_entries.skip(i).to_multiset(),
                    ).filter(keep) =~= old(self).entries().to_multiset().filter(keep));
                }
            } else {
                proof {
                    assert(keep(cur));
                    let mid_cur = mid_entries[i];
                    assert(mid_cur == cur) by {
                        if pending {
                            assert(!cur.2.is_free());
                            assert(mid_cur.2 == cur.2);
                        }
                    }
                    assert(mid_entries =~= pre_entries);
                    assert(mid_entries.take(i + 1) =~= mid_entries.take(i).push(mid_cur));
                    assert(mid_entries.take(i + 1).to_multiset() =~= mid_entries.take(
                        i,
                    ).to_multiset().insert(mid_cur));
                    assert(mid_entries.skip(i) =~= seq![mid_cur] + mid_entries.skip(i + 1));
                    vstd::seq_lib::lemma_multiset_commutative(
                        seq![mid_cur],
                        mid_entries.skip(i + 1),
                    );
                    assert(seq![mid_cur].to_multiset() =~= Multiset::empty().insert(mid_cur)) by {
                        assert(seq![mid_cur] =~= Seq::<(T, bool, ObjBorrowState)>::empty().push(
                            mid_cur,
                        ));
                    }
                    assert(mid_entries.take(i + 1).to_multiset().filter(keep)
                        =~= mid_entries.take(i + 1).to_multiset());
                    assert(mid_entries.take(i + 1).to_multiset().add(
                        mid_entries.skip(i + 1).to_multiset(),
                    ).filter(keep) =~= old(self).entries().to_multiset().filter(keep));
                }
                index = index + 1;
            }
        }
        proof {
            let n = self.entries().len() as int;
            assert(self.entries().take(n) =~= self.entries());
            assert(self.entries().skip(n) =~= Seq::<(T, bool, ObjBorrowState)>::empty());
            assert(self.entries().to_multiset().add(
                Seq::<(T, bool, ObjBorrowState)>::empty().to_multiset(),
            ) =~= self.entries().to_multiset());
            assert(self.entries().to_multiset() =~= self.entries().to_multiset().filter(keep));
            assert(self.entries().to_multiset() == old(self).entries().to_multiset().filter(
                keep,
            ));
        }
    }
}

/// A stable reference to a pooled object: the key it was stored under.
pub struct ObjHandle<T: Object> {
    pub unique_id: T::KeyType,
}

impl<T: Object> ObjHandle<T> {
    pub fn new(unique_id: T::KeyType) -> (r: Self)
        ensures
            r.unique_id == unique_id,
    {
        ObjHandle { unique_id }
    }
}

} // verus!
