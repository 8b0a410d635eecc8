use vstd::prelude::*;

verus! {

/// A capacity-growth policy. The containers in this crate own their storage
/// through `Vec`; an allocator decides how the tracked capacity grows when an
/// insertion needs more room than is currently reserved.
pub trait AllocatorBase: Sized {
    /// The capacity this policy yields when `wanted` exceeds `current`.
    spec fn grow_spec(&self, current: int, wanted: int) -> int;

    /// Every policy grants at least the wanted capacity.
    proof fn lemma_grow_spec_wanted(&self, current: int, wanted: int)
        requires
            0 <= current < wanted,
        ensures
            self.grow_spec(current, wanted) >= wanted,
    ;

    /// A fresh allocator value for a newly created container.
    fn new_allocator() -> (r: Self);

    fn grow(&self, current: usize, wanted: usize) -> (r: usize)
        requires
            current < wanted,
        ensures
            r as int == self.grow_spec(current as int, wanted as int),
            r >= wanted,
    ;
}

/// Marker relating an allocator to the element type it serves.
pub trait ArrayAllocator<T>: AllocatorBase {

}

/// The heap-backed default policy: grow to the larger of the wanted capacity
/// and double the current one.
pub struct DefaultAllocator;

impl AllocatorBase for DefaultAllocator {
    open spec fn grow_spec(&self, current: int, wanted: int) -> int {
        let doubled = if 2 * current > usize::MAX as int {
            usize::MAX as int
        } else {
            2 * current
        };
        if wanted >= doubled {
            wanted
        } else {
            doubled
        }
    }

    proof fn lemma_grow_spec_wanted(&self, current: int, wanted: int) {
    }

    fn new_allocator() -> (r: Self) {
        DefaultAllocator
    }

    fn grow(&self, current: usize, wanted: usize) -> (r: usize) {
        let doubled = if current > usize::MAX / 2 {
            usize::MAX
        } else {
            current * 2
        };
        if wanted >= doubled {
            wanted
        } else {
            doubled
        }
    }
}

impl<T> ArrayAllocator<T> for DefaultAllocator {

}

/// The inline policy: while a wanted capacity still fits within the inline
/// footprint of `N` elements it is granted exactly, so the container never
/// reserves past what the embedded storage would hold; beyond `N` it falls
/// back to the heap policy of growing to the larger of the wanted capacity
/// and double the current one.
pub struct InlineAllocator<const N: usize, T> {
    marker: core::marker::PhantomData<T>,
}

impl<const N: usize, T> AllocatorBase for InlineAllocator<N, T> {
    open spec fn grow_spec(&self, current: int, wanted: int) -> int {
        if wanted <= N as int {
            wanted
        } else {
            let doubled = if 2 * current > usize::MAX as int {
                usize::MAX as int
            } else {
                2 * current
            };
            if wanted >= doubled {
                wanted
            } else {
                doubled
            }
        }
    }

    proof fn lemma_grow_spec_wanted(&self, current: int, wanted: int) {
    }

    fn new_allocator() -> (r: Self) {
        InlineAllocator { marker: core::marker::PhantomData }
    }

    fn grow(&self, current: usize, wanted: usize) -> (r: usize) {
        if wanted <= N {
            wanted
        } else {
            let doubled = if current > usize::MAX / 2 {
                usize::MAX
            } else {
                current * 2
            };
            if wanted >= doubled {
                wanted
            } else {
                doubled
            }
        }
    }
}

impl<const N: usize, T> ArrayAllocator<T> for InlineAllocator<N, T> {

}

} // verus!
