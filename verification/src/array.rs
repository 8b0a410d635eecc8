use vstd::prelude::*;

use crate::allocators::{ArrayAllocator, DefaultAllocator, InlineAllocator};
use crate::raw_array::RawArray;

verus! {

/// An ordered, growable array. Insertion order is preserved by every
/// operation except `swap_remove` (and `pop_back`, which is a `swap_remove`
/// of the last slot).
pub struct Array<T, A: ArrayAllocator<T> = DefaultAllocator>(RawArray<T, A>);

/// An array whose allocator keeps up to `N` elements without over-reserving.
pub type InlineArray<T, const N: usize> = Array<T, InlineAllocator<N, T>>;

impl<T, A: ArrayAllocator<T>> View for Array<T, A> {
    type V = Seq<T>;

    closed spec fn view(&self) -> Seq<T> {
        self.0@
    }
}

impl<T> Default for Array<T, DefaultAllocator> {
    fn default() -> (r: Self)
        ensures
            r@ == Seq::<T>::empty(),
            r.wf(),
    {
        Array::new()
    }
}

impl<T> Array<T, DefaultAllocator> {
    pub fn new() -> (r: Self)
        ensures
            r@ == Seq::<T>::empty(),
            r.cap_spec() == 0,
            r.wf(),
    {
        Array(RawArray::for_type())
    }

    pub fn with_capacity(capacity: usize) -> (r: Self)
        ensures
            r@ == Seq::<T>::empty(),
            r.cap_spec() == capacity as int,
            r.wf(),
    {
        Array(RawArray::for_type_with_capacity(capacity))
    }
}

impl<T, A: ArrayAllocator<T>> Array<T, A> {
    /// The reserved capacity, in elements.
    pub closed spec fn cap_spec(&self) -> int {
        self.0.cap_spec()
    }

    /// The array never holds more elements than it has reserved room for.
    pub closed spec fn wf(&self) -> bool {
        self.0.wf()
    }

    /// In every well-formed array the element count never exceeds the
    /// reserved capacity.
    pub proof fn lemma_capacity_bounds_num(&self)
        requires
            self.wf(),
        ensures
            self@.len() <= self.cap_spec(),
    {
        self.0.lemma_capacity_bounds_num();
    }

    pub fn custom_allocator() -> (r: Self)
        ensures
            r@ == Seq::<T>::empty(),
            r.cap_spec() == 0,
            r.wf(),
    {
        Array(RawArray::for_type())
    }

    pub fn custom_allocator_with_capacity(capacity: usize) -> (r: Self)
        ensures
            r@ == Seq::<T>::empty(),
            r.cap_spec() == capacity as int,
            r.wf(),
    {
        Array(RawArray::for_type_with_capacity(capacity))
    }

    pub fn capacity(&self) -> (r: usize)
        ensures
            r as int == self.cap_spec(),
    {
        self.0.capacity()
    }

    /// Reserve exactly `capacity` slots, clamped so that live elements are
    /// never truncated.
    pub fn set_capacity(&mut self, capacity: usize)
        ensures
            final(self)@ == old(self)@,
            final(self).cap_spec() == if capacity as int >= old(self)@.len() {
                capacity as int
            } else {
                old(self)@.len() as int
            },
            final(self).wf(),
    {
        self.0.set_capacity(capacity);
    }

    /// Grow the reserved capacity only if `additional` more elements would
    /// not fit.
    pub fn reserve(&mut self, additional: usize)
        requires
            old(self).wf(),
            old(self)@.len() + additional <= usize::MAX,
        ensures
            final(self)@ == old(self)@,
            final(self).cap_spec() >= old(self)@.len() + additional,
            final(self).cap_spec() >= old(self).cap_spec(),
            final(self).wf(),
    {
        self.0.reserve(additional);
    }

    pub fn num(&self) -> (r: usize)
        ensures
            r as int == self@.len(),
    {
        self.0.num()
    }

    pub fn is_empty(&self) -> (r: bool)
        ensures
            r == (self@.len() == 0),
    {
        self.0.is_empty()
    }

    pub fn as_slice(&self) -> (r: &[T])
        ensures
            r@ == self@,
    {
        self.0.as_slice()
    }

    /// The live elements as a read-only slice: the verified stand-in for
    /// a base pointer, which has no checked counterpart.
    pub fn as_ptr(&self) -> (r: &[T])
        ensures
            r@ == self@,
    {
        self.0.as_ptr()
    }

    /// The live elements as a mutable slice: the verified stand-in for a
    /// mutable base pointer.
    pub fn as_mut_ptr(&mut self) -> (r: &mut [T])
        requires
            old(self).wf(),
        ensures
            r@ == old(self)@,
            final(self)@ == final(r)@,
            final(self).cap_spec() == old(self).cap_spec(),
            final(r)@.len() == old(self)@.len() ==> final(self).wf(),
    {
        self.0.as_mut_ptr()
    }

    pub fn as_mut_slice(&mut self) -> (r: &mut [T])
        requires
            old(self).wf(),
        ensures
            r@ == old(self)@,
            final(self)@ == final(r)@,
            final(self).cap_spec() == old(self).cap_spec(),
            final(r)@.len() == old(self)@.len() ==> final(self).wf(),
    {
        self.0.as_mut_slice()
    }

    /// A shared reference to the element at `index`.
    pub fn index(&self, index: usize) -> (r: &T)
        requires
            index < self@.len(),
        ensures
            *r == self@[index as int],
    {
        self.0.index(index)
    }

    /// A mutable reference to the element at `index`.
    pub fn index_mut(&mut self, index: usize) -> (r: &mut T)
        requires
            old(self).wf(),
            index < old(self)@.len(),
        ensures
            *r == old(self)@[index as int],
            final(self)@ == old(self)@.update(index as int, *final(r)),
            final(self).cap_spec() == old(self).cap_spec(),
            final(self).wf(),
    {
        self.0.index_mut(index)
    }

    pub fn push_front(&mut self, value: T)
        requires
            old(self).wf(),
            old(self)@.len() < usize::MAX,
        ensures
            final(self)@ == old(self)@.insert(0, value),
            final(self).cap_spec() >= old(self).cap_spec(),
            final(self).wf(),
    {
        self.0.allocate_front(value);
    }

    pub fn push_back(&mut self, value: T)
        requires
            old(self).wf(),
            old(self)@.len() < usize::MAX,
        ensures
            final(self)@ == old(self)@.push(value),
            final(self).cap_spec() >= old(self).cap_spec(),
            final(self).wf(),
    {
        self.0.allocate_back(value);
    }

    pub fn insert(&mut self, index: usize, value: T)
        requires
            old(self).wf(),
            index <= old(self)@.len(),
            old(self)@.len() < usize::MAX,
        ensures
            final(self)@ == old(self)@.insert(index as int, value),
            final(self).cap_spec() >= old(self).cap_spec(),
            final(self).wf(),
    {
        self.0.allocate_at(index, value);
    }

    /// Insert `end - start` copies of `value` at `start`, shifting the tail
    /// up. An empty range inserts nothing.
    pub fn insert_range(&mut self, start: usize, end: usize, value: T) where T: Copy
        requires
            old(self).wf(),
            start <= old(self)@.len(),
            start <= end,
            old(self)@.len() + (end - start) <= usize::MAX,
        ensures
            final(self)@.len() == old(self)@.len() + (end - start),
            forall|j: int| 0 <= j < start ==> final(self)@[j] == old(self)@[j],
            forall|j: int| start <= j < end ==> final(self)@[j] == value,
            forall|j: int|
                end <= j < final(self)@.len() ==> final(self)@[j] == old(self)@[
                    j - (end - start)
                ],
            final(self).cap_spec() >= old(self).cap_spec(),
            final(self).wf(),
    {
        self.0.allocate_range(start, end, value);
    }

    /// Remove the element at `index`, moving the last element into its slot.
    pub fn swap_remove(&mut self, index: usize) -> (r: T)
        requires
            old(self).wf(),
            index < old(self)@.len(),
        ensures
            r == old(self)@[index as int],
            final(self)@ == old(self)@.update(index as int, old(self)@.last()).drop_last(),
            final(self).cap_spec() == old(self).cap_spec(),
            final(self).wf(),
    {
        self.0.swap_remove(index)
    }

    /// Remove the element at `index`, shifting the tail down by one slot.
    pub fn remove(&mut self, index: usize) -> (r: T)
        requires
            old(self).wf(),
            index < old(self)@.len(),
        ensures
            r == old(self)@[index as int],
            final(self)@ == old(self)@.remove(index as int),
            final(self).cap_spec() == old(self).cap_spec(),
            final(self).wf(),
    {
        self.0.remove(index)
    }

    pub fn pop_front(&mut self) -> (r: T)
        requires
            old(self).wf(),
            old(self)@.len() > 0,
        ensures
            r == old(self)@[0],
            final(self)@ == old(self)@.remove(0),
            final(self).cap_spec() == old(self).cap_spec(),
            final(self).wf(),
    {
        self.remove(0)
    }

    pub fn pop_back(&mut self) -> (r: T)
        requires
            old(self).wf(),
            old(self)@.len() > 0,
        ensures
            r == old(self)@.last(),
            final(self)@ == old(self)@.drop_last(),
            final(self).cap_spec() == old(self).cap_spec(),
            final(self).wf(),
    {
        let last = self.num() - 1;
        let r = self.swap_remove(last);
        proof {
            assert(final(self)@ =~= old(self)@.drop_last());
        }
        r
    }

    /// Drop every live element; the reserved capacity is retained.
    pub fn clear(&mut self)
        requires
            old(self).wf(),
        ensures
            final(self)@ == Seq::<T>::empty(),
            final(self).cap_spec() == old(self).cap_spec(),
            final(self).wf(),
    {
        self.0.clear();
    }
}

} // verus!
