use vstd::prelude::*;

use crate::allocators::AllocatorBase;

verus! {

/// A growable, capacity-tracked buffer of elements, parameterized over the
/// allocation policy that decides how the reserved capacity grows.
pub struct RawArray<T, A: AllocatorBase> {
    data: Vec<T>,
    items_cap: usize,
    allocator: A,
}

impl<T, A: AllocatorBase> View for RawArray<T, A> {
    type V = Seq<T>;

    closed spec fn view(&self) -> Seq<T> {
        self.data@
    }
}

impl<T, A: AllocatorBase> RawArray<T, A> {
    /// The reserved capacity, in elements.
    pub closed spec fn cap_spec(&self) -> int {
        self.items_cap as int
    }

    /// The buffer never holds more elements than it has reserved room for.
    pub closed spec fn wf(&self) -> bool {
        self.data@.len() <= self.items_cap as int
    }

    /// In every well-formed buffer the element count never exceeds the
    /// reserved capacity.
    pub proof fn lemma_capacity_bounds_num(&self)
        requires
            self.wf(),
        ensures
            self@.len() <= self.cap_spec(),
    {
    }

    pub fn for_type() -> (r: Self)
        ensures
            r@ == Seq::<T>::empty(),
            r.cap_spec() == 0,
            r.wf(),
    {
        RawArray { data: Vec::new(), items_cap: 0, allocator: A::new_allocator() }
    }

    pub fn for_type_with_capacity(capacity: usize) -> (r: Self)
        ensures
            r@ == Seq::<T>::empty(),
            r.cap_spec() == capacity as int,
            r.wf(),
    {
        let mut r = Self::for_type();
        r.set_capacity(capacity);
        r
    }

    pub fn capacity(&self) -> (r: usize)
        ensures
            r as int == self.cap_spec(),
    {
        self.items_cap
    }

    /// Reserve exactly `capacity` slots, clamped so that live elements are
    /// never truncated.
    pub fn set_capacity(&mut self, capacity: usize)
        ensures
            final(self)@ == old(self)@,
            final(self).cap_spec() == if capacity as int >= old(self)@.len() {
                capacity as int
            } else {
                old(self)@.len() as int
            },
            final(self).wf(),
    {
        let num = self.data.len();
        self.items_cap = if capacity >= num {
            capacity
        } else {
            num
        };
    }

    /// Grow the reserved capacity only if `additional` more elements would
    /// not fit.
    pub fn reserve(&mut self, additional: usize)
        requires
            old(self).wf(),
            old(self)@.len() + additional <= usize::MAX,
        ensures
            final(self)@ == old(self)@,
            final(self).cap_spec() == if old(self)@.len() + additional > old(self).cap_spec() {
                old(self)@.len() + additional
            } else {
                old(self).cap_spec()
            },
            final(self).wf(),
    {
        let wanted_capacity = self.data.len() + additional;
        if wanted_capacity > self.items_cap {
            self.set_capacity(wanted_capacity);
        }
    }

    pub fn num(&self) -> (r: usize)
        ensures
            r as int == self@.len(),
    {
        self.data.len()
    }

    pub fn is_empty(&self) -> (r: bool)
        ensures
            r == (self@.len() == 0),
    {
        self.data.is_empty()
    }

    pub fn as_slice(&self) -> (r: &[T])
        ensures
            r@ == self@,
    {
        self.data.as_slice()
    }

    /// The live elements as a read-only slice: the verified stand-in for
    /// a base pointer, which has no checked counterpart.
    pub fn as_ptr(&self) -> (r: &[T])
        ensures
            r@ == self@,
    {
        self.data.as_slice()
    }

    /// The live elements as a mutable slice: the verified stand-in for a
    /// mutable base pointer.
    pub fn as_mut_ptr(&mut self) -> (r: &mut [T])
        requires
            old(self).wf(),
        ensures
            r@ == old(self)@,
            final(self)@ == final(r)@,
            final(self).cap_spec() == old(self).cap_spec(),
            final(r)@.len() == old(self)@.len() ==> final(self).wf(),
    {
        self.data.as_mut_slice()
    }

    pub fn as_mut_slice(&mut self) -> (r: &mut [T])
        requires
            old(self).wf(),
        ensures
            r@ == old(self)@,
            final(self)@ == final(r)@,
            final(self).cap_spec() == old(self).cap_spec(),
            final(r)@.len() == old(self)@.len() ==> final(self).wf(),
    {
        self.data.as_mut_slice()
    }

    /// A shared reference to the element at `index`.
    pub fn index(&self, index: usize) -> (r: &T)
        requires
            index < self@.len(),
        ensures
            *r == self@[index as int],
    {
        &self.data[index]
    }

    /// A mutable reference to the element at `index`.
    pub fn index_mut(&mut self, index: usize) -> (r: &mut T)
        requires
            old(self).wf(),
            index < old(self)@.len(),
        ensures
            *r == old(self)@[index as int],
            final(self)@ == old(self)@.update(index as int, *final(r)),
            final(self).cap_spec() == old(self).cap_spec(),
            final(self).wf(),
    {
        &mut self.data[index]
    }

    fn grow_if_needed(&mut self, new_items_num: usize)
        requires
            old(self).wf(),
        ensures
            final(self)@ == old(self)@,
            final(self).cap_spec() >= new_items_num as int,
            final(self).cap_spec() >= old(self).cap_spec(),
            final(self).wf(),
    {
        if new_items_num > self.items_cap {
            let new_cap = self.allocator.grow(self.items_cap, new_items_num);
            self.items_cap = new_cap;
        }
    }

    /// Insert `value` at slot 0, shifting the existing elements up.
    pub fn allocate_front(&mut self, value: T)
        requires
            old(self).wf(),
            old(self)@.len() < usize::MAX,
        ensures
            final(self)@ == old(self)@.insert(0, value),
            final(self).cap_spec() >= old(self).cap_spec(),
            final(self).wf(),
    {
        let num = self.data.len();
        self.grow_if_needed(num + 1);
        self.data.insert(0, value);
    }

    /// Insert `value` after the last live element.
    pub fn allocate_back(&mut self, value: T)
        requires
            old(self).wf(),
            old(self)@.len() < usize::MAX,
        ensures
            final(self)@ == old(self)@.push(value),
            final(self).cap_spec() >= old(self).cap_spec(),
            final(self).wf(),
    {
        let num = self.data.len();
        self.grow_if_needed(num + 1);
        self.data.push(value);
    }

    /// Insert `value` at `index`, shifting the tail up by one slot.
    pub fn allocate_at(&mut self, index: usize, value: T)
        requires
            old(self).wf(),
            index <= old(self)@.len(),
            old(self)@.len() < usize::MAX,
        ensures
            final(self)@ == old(self)@.insert(index as int, value),
            final(self).cap_spec() >= old(self).cap_spec(),
            final(self).wf(),
    {
        let num = self.data.len();
        if index == 0 {
            self.allocate_front(value);
        } else if index == num {
            self.allocate_back(value);
            proof {
                assert(final(self)@ =~= old(self)@.insert(index as int, value));
            }
        } else {
            self.grow_if_needed(num + 1);
            self.data.insert(index, value);
        }
    }

    /// Insert `end - start` copies of `value` at `start`, shifting the tail
    /// up. An empty range inserts nothing.
    pub fn allocate_range(&mut self, start: usize, end: usize, value: T) where T: Copy
        requires
            old(self).wf(),
            start <= old(self)@.len(),
            start <= end,
            old(self)@.len() + (end - start) <= usize::MAX,
        ensures
            final(self)@.len() == old(self)@.len() + (end - start),
            forall|j: int| 0 <= j < start ==> final(self)@[j] == old(self)@[j],
            forall|j: int| start <= j < end ==> final(self)@[j] == value,
            forall|j: int|
                end <= j < final(self)@.len() ==> final(self)@[j] == old(self)@[
                    j - (end - start)
                ],
            final(self).cap_spec() >= old(self).cap_spec(),
            final(self).wf(),
    {
        let count = end - start;
        let num = self.data.len();
        self.grow_if_needed(num + count);
        let mut i: usize = 0;
        while i < count
            invariant
                i <= count,
                start <= old(self)@.len(),
                old(self)@.len() + count <= usize::MAX,
                self.cap_spec() >= old(self)@.len() + count,
                self.wf(),
                self@.len() == old(self)@.len() + i,
                forall|j: int| 0 <= j < start ==> self@[j] == old(self)@[j],
                forall|j: int| start <= j < start + i ==> self@[j] == value,
                forall|j: int| start + i <= j < self@.len() ==> self@[j] == old(self)@[j - i],
                self.cap_spec() >= old(self).cap_spec(),
            decreases count - i,
        {
            self.data.insert(start + i, value);
            i = i + 1;
        }
    }

    /// Remove the element at `index`, moving the last element into its slot.
    pub fn swap_remove(&mut self, index: usize) -> (r: T)
        requires
            old(self).wf(),
            index < old(self)@.len(),
        ensures
            r == old(self)@[index as int],
            final(self)@ == old(self)@.update(index as int, old(self)@.last()).drop_last(),
            final(self).cap_spec() == old(self).cap_spec(),
            final(self).wf(),
    {
        self.data.swap_remove(index)
    }

    /// Remove the element at `index`, shifting the tail down by one slot.
    pub fn remove(&mut self, index: usize) -> (r: T)
        requires
            old(self).wf(),
            index < old(self)@.len(),
        ensures
            r == old(self)@[index as int],
            final(self)@ == old(self)@.remove(index as int),
            final(self).cap_spec() == old(self).cap_spec(),
            final(self).wf(),
    {
        self.data.remove(index)
    }

    /// Drop every live element; the reserved capacity is retained.
    pub fn clear(&mut self)
        requires
            old(self).wf(),
        ensures
            final(self)@ == Seq::<T>::empty(),
            final(self).cap_spec() == old(self).cap_spec(),
            final(self).wf(),
    {
        self.data.clear();
    }
}

} // verus!
