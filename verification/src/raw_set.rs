use vstd::prelude::*;
use vstd::seq_lib::*;

use crate::allocators::{AllocatorBase, ArrayAllocator, DefaultAllocator};
use crate::array::Array;
use crate::raw_array::RawArray;

verus! {

/// Hash-chain metadata for one stored element: its hash, its own position
/// (kept in sync with the payload array), and the doubly-linked run of
/// entries that share a bucket. `usize::MAX` is the empty link.
#[derive(Clone, Copy)]
pub struct RawSetEntry {
    hash: usize,
    index: usize,
    prev: usize,
    next: usize,
}

/// Filtering keeps a duplicate-free sequence duplicate-free.
pub proof fn lemma_filter_no_duplicates(s: Seq<int>, pred: spec_fn(int) -> bool)
    requires
        s.no_duplicates(),
    ensures
        s.filter(pred).no_duplicates(),
    decreases s.len(),
{
    reveal(Seq::filter);
    if s.len() > 0 {
        lemma_filter_no_duplicates(s.drop_last(), pred);
        if pred(s.last()) {
            assert(!s.drop_last().contains(s.last())) by {
                if s.drop_last().contains(s.last()) {
                    let j = choose|j: int|
                        0 <= j < s.drop_last().len() && s.drop_last()[j] == s.last();
                    assert(s[j] == s[s.len() - 1]);
                }
            }
            assert(!s.drop_last().filter(pred).contains(s.last())) by {
                if s.drop_last().filter(pred).contains(s.last()) {
                    s.drop_last().lemma_filter_contains_rev(pred, s.last());
                }
            }
            let out = s.drop_last().filter(pred).push(s.last());
            assert forall|k1: int, k2: int|
                0 <= k1 < out.len() && 0 <= k2 < out.len() && k1 != k2 implies out[k1]
                != out[k2] by {
                let inner = s.drop_last().filter(pred);
                if k1 < inner.len() && k2 < inner.len() {
                } else if k1 < inner.len() {
                    assert(inner.contains(inner[k1]));
                } else if k2 < inner.len() {
                    assert(inner.contains(inner[k2]));
                }
            }
        }
    }
}

/// Under well-formedness the payload, hash and place views run in
/// lock-step.
pub broadcast proof fn lemma_raw_set_dims<T, DataAlloc, EntriesAlloc, TableAlloc>(
    s: &RawSet<T, DataAlloc, EntriesAlloc, TableAlloc>,
) where
    DataAlloc: AllocatorBase,
    EntriesAlloc: ArrayAllocator<RawSetEntry>,
    TableAlloc: ArrayAllocator<usize>,

    requires
        #[trigger] s.wf(),
    ensures
        s@.len() == s.num_spec(),
        s.hashes().len() == s.num_spec(),
        s.num_spec() < usize::MAX as int,
        (s.table_size() == 0 ==> s.num_spec() == 0),
{
}

/// The predicate selecting, among entry indices, those whose hash is `hash`.
pub open spec fn hash_match_pred(hashes: Seq<usize>, hash: usize) -> spec_fn(int) -> bool {
    |i: int| 0 <= i < hashes.len() && hashes[i] == hash
}

/// The position of `x`'s occurrence in `s` (meaningful when `s` holds it).
pub open spec fn first_position_of(s: Seq<int>, x: int) -> int {
    choose|j: int| 0 <= j < s.len() && s[j] == x
}

/// `s` with its occurrence of `x` removed; `s` itself when `x` is absent.
pub open spec fn without_value(s: Seq<int>, x: int) -> Seq<int> {
    if s.contains(x) {
        s.remove(first_position_of(s, x))
    } else {
        s
    }
}

/// Every occurrence of `from` in `s` replaced by `to`.
pub open spec fn rename_value(s: Seq<int>, from: int, to: int) -> Seq<int> {
    s.map_values(|y: int| if y == from { to } else { y })
}

/// Renaming commutes with filtering when the predicates agree across the
/// renaming.
proof fn lemma_rename_filter(
    s: Seq<int>,
    pred_old: spec_fn(int) -> bool,
    pred_new: spec_fn(int) -> bool,
    from: int,
    to: int,
)
    requires
        forall|j: int|
            0 <= j < s.len() ==> pred_new(if s[j] == from {
                to
            } else {
                s[j]
            }) == pred_old(#[trigger] s[j]),
    ensures
        rename_value(s, from, to).filter(pred_new) == rename_value(s.filter(pred_old), from, to),
    decreases s.len(),
{
    reveal(Seq::filter);
    if s.len() == 0 {
        assert(rename_value(s, from, to) =~= Seq::<int>::empty());
        assert(rename_value(s.filter(pred_old), from, to) =~= Seq::<int>::empty());
        assert(rename_value(s, from, to).filter(pred_new) =~= Seq::<int>::empty());
    } else {
        let rest = s.drop_last();
        let last = s.last();
        let renamed_last: int = if last == from {
            to
        } else {
            last
        };
        lemma_rename_filter(rest, pred_old, pred_new, from, to);
        assert(rename_value(s, from, to) =~= rename_value(rest, from, to).push(renamed_last));
        rename_value(rest, from, to).lemma_filter_push(renamed_last, pred_new);
        rest.lemma_filter_push(last, pred_old);
        assert(s =~= rest.push(last));
        assert(pred_new(renamed_last) == pred_old(last));
        if pred_old(last) {
            assert(rename_value(rest.filter(pred_old).push(last), from, to) =~= rename_value(
                rest.filter(pred_old),
                from,
                to,
            ).push(renamed_last));
        }
    }
}

/// An open-chained hash table with multimap semantics: a payload array, a
/// parallel array of chain entries, and a bucket table whose slot
/// `hash % table size` holds the head of that bucket's chain. Entries that
/// share a hash sit contiguously in their chain (a run), so walking
/// `find_first_index` / `find_next_index` enumerates exactly the entries of
/// one hash.
pub struct RawSet<
    T,
    DataAlloc = DefaultAllocator,
    EntriesAlloc = DefaultAllocator,
    TableAlloc = DefaultAllocator,
> where
    DataAlloc: AllocatorBase,
    EntriesAlloc: ArrayAllocator<RawSetEntry>,
    TableAlloc: ArrayAllocator<usize>,
{
    data: RawArray<T, DataAlloc>,
    entries: Array<RawSetEntry, EntriesAlloc>,
    table: Array<usize, TableAlloc>,
    chains: Ghost<Seq<Seq<int>>>,
    places: Ghost<Seq<(int, int)>>,
}

impl<T, DataAlloc, EntriesAlloc, TableAlloc> View for RawSet<
    T,
    DataAlloc,
    EntriesAlloc,
    TableAlloc,
> where
    DataAlloc: AllocatorBase,
    EntriesAlloc: ArrayAllocator<RawSetEntry>,
    TableAlloc: ArrayAllocator<usize>,
{
    type V = Seq<T>;

    closed spec fn view(&self) -> Seq<T> {
        self.data@
    }
}

impl<T, DataAlloc, EntriesAlloc, TableAlloc> RawSet<T, DataAlloc, EntriesAlloc, TableAlloc> where
    DataAlloc: AllocatorBase,
    EntriesAlloc: ArrayAllocator<RawSetEntry>,
    TableAlloc: ArrayAllocator<usize>,
 {
    /// The number of stored elements.
    pub closed spec fn num_spec(&self) -> int {
        self.entries@.len() as int
    }

    /// The hash of each stored element, parallel to the payload view.
    pub closed spec fn hashes(&self) -> Seq<usize> {
        self.entries@.map_values(|e: RawSetEntry| e.hash)
    }

    /// The bucket table length.
    pub closed spec fn table_size(&self) -> int {
        self.table@.len() as int
    }

    /// The reserved payload capacity, in elements.
    pub closed spec fn cap_spec(&self) -> int {
        self.entries.cap_spec()
    }

    spec fn bucket_index(&self, hash: usize) -> int {
        (hash as int) % (self.table@.len() as int)
    }

    /// The entry indices holding `hash`, in the order the chain walk visits
    /// them.
    pub closed spec fn matches_of(&self, hash: usize) -> Seq<int> {
        if self.table@.len() == 0 {
            Seq::empty()
        } else {
            self.chains@[self.bucket_index(hash)].filter(hash_match_pred(self.hashes(), hash))
        }
    }

    /// Plain shape: array well-formedness, parallel lengths, the index
    /// mirror, and room for the `usize::MAX` sentinel.
    spec fn wf_arrays(&self) -> bool {
        let n = self.entries@.len() as int;
        &&& self.data.wf()
        &&& self.entries.wf()
        &&& self.table.wf()
        &&& self.data@.len() == n
        &&& self.chains@.len() == self.table@.len() as int
        &&& self.places@.len() == n
        &&& n < usize::MAX as int
        &&& (self.table@.len() == 0 ==> n == 0)
        &&& (forall|i: int| 0 <= i < n ==> (#[trigger] self.entries@[i]).index == i)
    }

    /// Chain members are valid entries of their bucket, and the recorded
    /// places invert the chains.
    spec fn wf_chain_ranges(&self) -> bool {
        let n = self.entries@.len() as int;
        let m = self.table@.len() as int;
        let c = self.chains@;
        let p = self.places@;
        &&& (forall|b: int, k: int|
            0 <= b < m && 0 <= k < c[b].len() ==> 0 <= #[trigger] c[b][k] < n)
        &&& (forall|b: int, k: int|
            0 <= b < m && 0 <= k < c[b].len() ==> #[trigger] p[c[b][k]] == (b, k))
        &&& (forall|b: int, k: int|
            0 <= b < m && 0 <= k < c[b].len() ==> (#[trigger] self.entries@[c[b][k]].hash) as int
                % m == b)
    }

    /// The doubly-linked runs follow the chain order, and each bucket slot
    /// holds its chain's head.
    spec fn wf_chain_links(&self) -> bool {
        let m = self.table@.len() as int;
        let c = self.chains@;
        &&& (forall|b: int, k: int|
            0 <= b < m && 0 <= k < c[b].len() ==> (#[trigger] self.entries@[c[b][k]].prev) as int
                == if k == 0 {
                usize::MAX as int
            } else {
                c[b][k - 1]
            })
        &&& (forall|b: int, k: int|
            0 <= b < m && 0 <= k < c[b].len() ==> (#[trigger] self.entries@[c[b][k]].next) as int
                == if k == c[b].len() - 1 {
                usize::MAX as int
            } else {
                c[b][k + 1]
            })
        &&& (forall|b: int|
            0 <= b < m ==> (#[trigger] self.table@[b]) as int == if c[b].len() == 0 {
                usize::MAX as int
            } else {
                c[b][0]
            })
    }

    /// Entries of equal hash sit contiguously within their chain.
    spec fn wf_runs(&self) -> bool {
        let m = self.table@.len() as int;
        let c = self.chains@;
        forall|b: int, k1: int, k2: int|
            #![trigger c[b][k1], c[b][k2]]
            0 <= b < m && 0 <= k1 < k2 < c[b].len() && self.entries@[c[b][k1]].hash
                == self.entries@[c[b][k2]].hash ==> self.entries@[c[b][k1 + 1]].hash
                == self.entries@[c[b][k1]].hash
    }

    /// Structural consistency of chains, links, buckets and the ghost
    /// bookkeeping, apart from every entry being threaded into a chain.
    spec fn chains_wf(&self) -> bool {
        &&& self.wf_arrays()
        &&& self.wf_chain_ranges()
        &&& self.wf_chain_links()
        &&& self.wf_runs()
    }

    /// Every entry below `upto` is threaded into its recorded chain slot.
    spec fn spliced_upto(&self, upto: int) -> bool {
        let c = self.chains@;
        let p = self.places@;
        forall|i: int|
            0 <= i < upto ==> {
                let b = (#[trigger] p[i]).0;
                let k = p[i].1;
                &&& 0 <= b < c.len()
                &&& 0 <= k < c[b].len()
                &&& c[b][k] == i
            }
    }

    /// No chain holds an entry index at or above `upto`.
    spec fn chain_elems_below(&self, upto: int) -> bool {
        let c = self.chains@;
        forall|b: int, k: int|
            0 <= b < c.len() && 0 <= k < c[b].len() ==> #[trigger] c[b][k] < upto
    }

    /// Every entry at or above `upto` has empty links.
    spec fn detached_from(&self, upto: int) -> bool {
        forall|i: int|
            upto <= i < self.entries@.len() ==> (#[trigger] self.entries@[i]).prev == usize::MAX
                && self.entries@[i].next == usize::MAX
    }

    /// Every entry but `x` is threaded into its recorded chain slot.
    spec fn spliced_except(&self, x: int) -> bool {
        let c = self.chains@;
        let p = self.places@;
        forall|i: int|
            0 <= i < self.entries@.len() && i != x ==> {
                let b = (#[trigger] p[i]).0;
                let k = p[i].1;
                &&& 0 <= b < c.len()
                &&& 0 <= k < c[b].len()
                &&& c[b][k] == i
            }
    }

    /// No chain mentions entry `x`.
    spec fn chains_avoid(&self, x: int) -> bool {
        let c = self.chains@;
        forall|b: int, k: int|
            0 <= b < c.len() && 0 <= k < c[b].len() ==> #[trigger] c[b][k] != x
    }

    /// Full well-formedness: the chain structure is consistent and every
    /// entry is threaded into exactly one chain slot.
    pub closed spec fn wf(&self) -> bool {
        &&& self.chains_wf()
        &&& self.spliced_upto(self.entries@.len() as int)
    }

    /// Every index with hash `hash` occurs in `matches_of(hash)`, exactly
    /// once, and nothing else does.
    pub proof fn lemma_matches_characterize(&self, hash: usize)
        requires
            self.wf(),
        ensures
            forall|i: int|
                #[trigger] self.matches_of(hash).contains(i) <==> (0 <= i < self.num_spec()
                    && self.hashes()[i] == hash),
            self.matches_of(hash).no_duplicates(),
            self@.len() == self.num_spec(),
            self.hashes().len() == self.num_spec(),
            self.num_spec() < usize::MAX as int,
    {
        let n = self.entries@.len() as int;
        let m = self.table@.len() as int;
        let c = self.chains@;
        let p = self.places@;
        let pred = hash_match_pred(self.hashes(), hash);
        if m == 0 {
            assert(self.matches_of(hash).len() == 0);
            assert forall|i: int| #[trigger] self.matches_of(hash).contains(i) implies (0 <= i < n
                && self.hashes()[i] == hash) by {
            }
            assert(self.matches_of(hash).no_duplicates());
        } else {
            let b = self.bucket_index(hash);
            let chain = c[b];
            let ms = self.matches_of(hash);
            assert(0 <= b < m) by {
                assert((hash as int) % (m as int) >= 0) by (nonlinear_arith)
                    requires
                        m > 0,
                ;
                assert((hash as int) % (m as int) < m) by (nonlinear_arith)
                    requires
                        m > 0,
                ;
            }
            // Anything in the filtered chain is a valid index with this hash.
            assert forall|i: int| #[trigger] ms.contains(i) implies (0 <= i < n
                && self.hashes()[i] == hash) by {
                chain.lemma_filter_contains_rev(pred, i);
                let j = choose|j: int| 0 <= j < ms.len() && ms[j] == i;
                chain.lemma_filter_pred(pred, j);
            }
            // Anything with this hash sits in this bucket's chain, and the
            // filter keeps it.
            assert forall|i: int| 0 <= i < n && self.hashes()[i] == hash implies #[trigger] ms
                .contains(i) by {
                let bb = p[i].0;
                let kk = p[i].1;
                assert(c[bb][kk] == i);
                assert(self.entries@[i].hash == hash);
                assert(bb == b);
                assert(pred(chain[kk]));
                chain.lemma_filter_contains(pred, kk);
            }
            // Chains hold no duplicates, so neither does the filtered run.
            assert(chain.no_duplicates()) by {
                assert forall|k1: int, k2: int|
                    0 <= k1 < chain.len() && 0 <= k2 < chain.len() && k1 != k2 implies chain[k1]
                    != chain[k2] by {
                    assert(p[chain[k1]] == (b, k1));
                    assert(p[chain[k2]] == (b, k2));
                }
            }
            lemma_filter_no_duplicates(chain, pred);
        }
    }

    /// In every well-formed table the element count never exceeds the
    /// reserved capacity.
    pub proof fn lemma_capacity_bounds_num(&self)
        requires
            self.wf(),
        ensures
            self.num_spec() <= self.cap_spec(),
    {
        self.entries.lemma_capacity_bounds_num();
    }

    pub fn for_type() -> (r: Self)
        ensures
            r.wf(),
            r@ == Seq::<T>::empty(),
            r.table_size() == 0,
            r.cap_spec() == 0,
    {
        let r = RawSet {
            data: RawArray::for_type(),
            entries: Array::custom_allocator(),
            table: Array::custom_allocator(),
            chains: Ghost(Seq::empty()),
            places: Ghost(Seq::empty()),
        };
        proof {
            assert(r.hashes() =~= Seq::<usize>::empty());
        }
        r
    }

    pub fn for_type_with_table_size(table_size: usize) -> (r: Self)
        requires
            table_size < usize::MAX,
        ensures
            r.wf(),
            r@ == Seq::<T>::empty(),
            r.table_size() == table_size as int,
            r.cap_spec() == 0,
    {
        let mut table: Array<usize, TableAlloc> = Array::custom_allocator_with_capacity(table_size);
        table.insert_range(0, table_size, usize::MAX);
        let r = RawSet {
            data: RawArray::for_type(),
            entries: Array::custom_allocator(),
            table,
            chains: Ghost(Seq::new(table_size as nat, |b: int| Seq::empty())),
            places: Ghost(Seq::empty()),
        };
        proof {
            assert(r.hashes() =~= Seq::<usize>::empty());
        }
        r
    }

    /// Equal hashes anywhere in a chain force the whole stretch between them
    /// onto the same hash.
    proof fn lemma_run_spans(&self, b: int, lo: int, mid: int, hi: int)
        requires
            self.chains_wf(),
            0 <= b < self.chains@.len(),
            0 <= lo <= mid <= hi < self.chains@[b].len(),
            self.entries@[self.chains@[b][lo]].hash == self.entries@[self.chains@[b][hi]].hash,
        ensures
            self.entries@[self.chains@[b][mid]].hash == self.entries@[self.chains@[b][lo]].hash,
        decreases mid - lo,
    {
        let c = self.chains@;
        if lo < mid {
            assert(self.entries@[c[b][lo + 1]].hash == self.entries@[c[b][lo]].hash) by {
                assert(c[b][lo] == c[b][lo]);
                assert(c[b][hi] == c[b][hi]);
            }
            self.lemma_run_spans(b, lo + 1, mid, hi);
        }
    }

    /// The index of the first element of `hash`'s run, or `usize::MAX` when
    /// the table holds none.
    pub fn find_first_index(&self, hash: usize) -> (r: usize)
        requires
            self.wf(),
        ensures
            self.matches_of(hash).len() == 0 ==> r == usize::MAX,
            self.matches_of(hash).len() > 0 ==> r as int == self.matches_of(hash)[0],
    {
        self.find_first_index_inner(hash)
    }

    /// The chain walk behind `find_first_index`; it relies only on the chain
    /// structure, so it also serves while entries are still being spliced in.
    fn find_first_index_inner(&self, hash: usize) -> (r: usize)
        requires
            self.chains_wf(),
        ensures
            self.matches_of(hash).len() == 0 ==> r == usize::MAX,
            self.matches_of(hash).len() > 0 ==> r as int == self.matches_of(hash)[0],
    {
        let table_num = self.table.num();
        if table_num == 0 {
            return usize::MAX;
        }
        let table_index = hash % table_num;
        let ghost m = self.table@.len() as int;
        let ghost c = self.chains@;
        let ghost chain = c[table_index as int];
        let ghost pred = hash_match_pred(self.hashes(), hash);
        proof {
            assert(self.bucket_index(hash) == table_index as int);
        }
        let mut entry_index = *self.table.index(table_index);
        let ghost mut k: int = 0;
        proof {
            assert(chain.take(0).filter(pred) =~= Seq::<int>::empty());
        }
        while entry_index != usize::MAX && self.entries.index(entry_index).hash != hash
            invariant
                self.chains_wf(),
                0 <= (table_index as int) < m,
                m == self.table@.len() as int,
                c == self.chains@,
                chain == c[table_index as int],
                pred == hash_match_pred(self.hashes(), hash),
                0 <= k <= chain.len(),
                entry_index == usize::MAX <==> k == chain.len(),
                k < chain.len() ==> entry_index as int == chain[k],
                chain.take(k).filter(pred).len() == 0,
            decreases chain.len() - k,
        {
            proof {
                assert(chain[k] == entry_index as int);
                assert(!pred(chain[k]));
                assert(chain.take(k + 1).drop_last() =~= chain.take(k));
                chain.take(k).lemma_filter_push(chain[k], pred);
                assert(chain.take(k + 1) =~= chain.take(k).push(chain[k]));
            }
            entry_index = self.entries.index(entry_index).next;
            proof {
                k = k + 1;
            }
        }
        proof {
            assert(chain =~= chain.take(k) + chain.skip(k));
            Seq::filter_distributes_over_add(chain.take(k), chain.skip(k), pred);
            if entry_index != usize::MAX {
                assert(pred(chain[k]));
                assert(chain.skip(k) =~= seq![chain[k]] + chain.skip(k + 1));
                chain.skip(k + 1).lemma_filter_prepend(chain[k], pred);
                assert(chain.filter(pred)[0] == chain[k]);
            } else {
                assert(chain.skip(k) =~= Seq::<int>::empty());
                assert(chain.filter(pred).len() == 0);
            }
        }
        entry_index
    }

    /// The next element of the run that `entry_index` belongs to, or
    /// `usize::MAX` when `entry_index` is its last.
    #[verifier::rlimit(100)]
    pub fn find_next_index(&self, entry_index: usize) -> (r: usize)
        requires
            self.wf(),
            (entry_index as int) < self.num_spec(),
        ensures
            forall|j: int|
                #![trigger self.matches_of(self.hashes()[entry_index as int])[j]]
                {
                    let ms = self.matches_of(self.hashes()[entry_index as int]);
                    0 <= j < ms.len() && ms[j] == entry_index as int ==> r as int == (if j
                        < ms.len() - 1 {
                        ms[j + 1]
                    } else {
                        usize::MAX as int
                    })
                },
    {
        let entry = *self.entries.index(entry_index);
        let next_entry_index = entry.next;
        let ghost hash = self.hashes()[entry_index as int];
        let ghost m = self.table@.len() as int;
        let ghost b = self.places@[entry_index as int].0;
        let ghost k = self.places@[entry_index as int].1;
        let ghost chain = self.chains@[b];
        let ghost pred = hash_match_pred(self.hashes(), hash);
        let ghost ms = self.matches_of(hash);
        proof {
            assert(chain[k] == entry_index as int);
            assert(entry.hash == hash);
            assert(self.bucket_index(hash) == b);
            assert(ms == chain.filter(pred));
            self.lemma_matches_characterize(hash);
            // Split the chain at the current position: everything in `ms`
            // before this entry comes from the prefix, and the suffix's
            // filtered head is this entry itself.
            assert(chain =~= chain.take(k) + chain.skip(k));
            Seq::filter_distributes_over_add(chain.take(k), chain.skip(k), pred);
            assert(pred(chain[k]));
            assert(chain.skip(k) =~= seq![chain[k]] + chain.skip(k + 1));
            chain.skip(k + 1).lemma_filter_prepend(chain[k], pred);
            let front = chain.take(k).filter(pred).len() as int;
            assert(ms[front as int] == entry_index as int);
            assert forall|j: int|
                0 <= j < ms.len() && ms[j] == entry_index as int implies j == front by {
                if j != front {
                    assert(ms[j] == ms[front as int]);
                }
            }
        }
        if next_entry_index == usize::MAX {
            proof {
                assert(k == chain.len() - 1);
                assert(chain.skip(k + 1) =~= Seq::<int>::empty());
            }
            usize::MAX
        } else if self.entries.index(next_entry_index).hash != entry.hash {
            proof {
                assert(k < chain.len() - 1);
                assert(chain[k + 1] == next_entry_index as int);
                // The run is contiguous: were any later chain member of this
                // hash, the immediate successor would share it too.
                assert forall|k2: int| k + 1 <= k2 < chain.len() implies !pred(chain[k2]) by {
                    if pred(chain[k2]) {
                        assert(self.entries@[chain[k]].hash == self.entries@[chain[k2]].hash);
                        assert(self.entries@[chain[k + 1]].hash == self.entries@[chain[k]].hash);
                    }
                }
                assert(chain.skip(k + 1).all(|x: int| !pred(x))) by {
                    assert forall|j: int| 0 <= j < chain.skip(k + 1).len() implies !pred(
                        #[trigger] chain.skip(k + 1)[j],
                    ) by {
                        assert(chain.skip(k + 1)[j] == chain[k + 1 + j]);
                    }
                }
                chain.skip(k + 1).lemma_all_neg_filter_empty(pred);
                let front = chain.take(k).filter(pred).len() as int;
                assert(ms.len() == front + 1);
            }
            usize::MAX
        } else {
            proof {
                assert(k < chain.len() - 1);
                assert(chain[k + 1] == next_entry_index as int);
                assert(pred(chain[k + 1]));
                assert(chain.skip(k + 1) =~= seq![chain[k + 1]] + chain.skip(k + 2));
                chain.skip(k + 2).lemma_filter_prepend(chain[k + 1], pred);
                let front = chain.take(k).filter(pred).len() as int;
                assert(ms[front as int + 1] == chain[k + 1]);
            }
            next_entry_index
        }
    }

    /// The relation between the table before and after one splice: entry `e`
    /// (detached in `pre`) has been wired into bucket `b` at chain position
    /// `kins`, immediately before its hash's run when one exists (`has_run`),
    /// else at the chain's head; everything else is untouched.
    spec fn splice_shape(
        pre: Self,
        post: Self,
        e: usize,
        b: int,
        kins: int,
        hash: usize,
        has_run: bool,
    ) -> bool {
        let n = pre.entries@.len() as int;
        let m = pre.table@.len() as int;
        let chain = pre.chains@[b];
        let pred = hash_match_pred(pre.hashes(), hash);
        &&& pre.chains_wf()
        &&& pre.spliced_upto(e as int)
        &&& pre.chain_elems_below(e as int)
        &&& pre.detached_from(e as int)
        &&& (e as int) < n
        &&& m > 0
        &&& b == pre.bucket_index(hash)
        &&& pre.entries@[e as int].hash == hash
        &&& 0 <= kins <= chain.len()
        &&& chain.take(kins).filter(pred).len() == 0
        &&& (if has_run {
            kins < chain.len() && pre.entries@[chain[kins]].hash == hash
        } else {
            kins == 0 && chain.filter(pred).len() == 0
        })
        &&& post.data == pre.data
        &&& post.entries@.len() == n
        &&& (forall|i: int|
            0 <= i < n ==> (#[trigger] post.entries@[i]).hash == pre.entries@[i].hash)
        &&& (forall|i: int|
            0 <= i < n ==> (#[trigger] post.entries@[i]).index == pre.entries@[i].index)
        &&& (forall|i: int|
            0 <= i < n && i != e as int && (kins >= chain.len() || i != chain[kins]) && (kins == 0
                || i != chain[kins - 1]) ==> #[trigger] post.entries@[i] == pre.entries@[i])
        &&& post.entries@[e as int].prev as int == (if kins == 0 {
            usize::MAX as int
        } else {
            chain[kins - 1]
        })
        &&& post.entries@[e as int].next as int == (if kins == chain.len() {
            usize::MAX as int
        } else {
            chain[kins]
        })
        &&& (kins < chain.len() ==> post.entries@[chain[kins]].prev as int == e as int)
        &&& (kins < chain.len() ==> post.entries@[chain[kins]].next == pre.entries@[chain[
            kins
        ]].next)
        &&& (kins > 0 ==> post.entries@[chain[kins - 1]].next as int == e as int)
        &&& (kins > 0 ==> post.entries@[chain[kins - 1]].prev == pre.entries@[chain[kins
            - 1]].prev)
        &&& post.table@ == (if kins == 0 {
            pre.table@.update(b, e)
        } else {
            pre.table@
        })
        &&& post.chains@ == pre.chains@.update(b, chain.insert(kins, e as int))
        &&& post.places@.len() == n
        &&& (forall|i: int|
            0 <= i < n ==> #[trigger] post.places@[i] == (if i == e as int {
                (b, kins)
            } else if pre.places@[i].0 == b && pre.places@[i].1 >= kins {
                (b, pre.places@[i].1 + 1)
            } else {
                pre.places@[i]
            }))
        &&& post.entries.wf()
        &&& post.table.wf()
    }

    /// After a splice, the arrays, ranges and ghost bookkeeping are
    /// consistent again, with `e` now threaded in.
    proof fn lemma_splice_ranges(
        pre: Self,
        post: Self,
        e: usize,
        b: int,
        kins: int,
        hash: usize,
        has_run: bool,
    )
        requires
            Self::splice_shape(pre, post, e, b, kins, hash, has_run),
        ensures
            post.wf_arrays(),
            post.wf_chain_ranges(),
            post.spliced_upto(e as int + 1),
            post.chain_elems_below(e as int + 1),
            post.detached_from(e as int + 1),
    {
        let n = pre.entries@.len() as int;
        let m = pre.table@.len() as int;
        let chain = pre.chains@[b];
        let c1 = post.chains@;
        let p1 = post.places@;
        let e_i = e as int;
        let new_chain = chain.insert(kins, e_i);
        assert(forall|k: int| 0 <= k < kins ==> new_chain[k] == chain[k]);
        assert(forall|k: int| kins <= k < chain.len() ==> new_chain[k + 1] == chain[k]);
        assert(new_chain[kins] == e_i);
        assert(0 <= b < m) by {
            assert((hash as int) % m >= 0) by (nonlinear_arith)
                requires
                    m > 0,
            ;
            assert((hash as int) % m < m) by (nonlinear_arith)
                requires
                    m > 0,
            ;
        }
        assert(post.wf_chain_ranges()) by {
            assert forall|bb: int, k: int|
                0 <= bb < m && 0 <= k < c1[bb].len() implies {
                    &&& 0 <= #[trigger] c1[bb][k] < n
                    &&& p1[c1[bb][k]] == (bb, k)
                    &&& (post.entries@[c1[bb][k]].hash as int % m == bb)
                } by {
                if bb == b {
                    if k < kins {
                        assert(c1[bb][k] == chain[k]);
                        assert(pre.places@[chain[k]] == (b, k));
                        assert(chain[k] != e_i);
                    } else if k == kins {
                        assert(c1[bb][k] == e_i);
                    } else {
                        assert(c1[bb][k] == chain[k - 1]);
                        assert(pre.places@[chain[k - 1]] == (b, k - 1));
                        assert(chain[k - 1] != e_i);
                    }
                } else {
                    assert(c1[bb][k] == pre.chains@[bb][k]);
                    assert(pre.places@[pre.chains@[bb][k]] == (bb, k));
                    assert(pre.chains@[bb][k] != e_i);
                }
            }
        }
        assert(post.spliced_upto(e_i + 1)) by {
            assert forall|i: int|
                0 <= i < e_i + 1 implies {
                    let bi = (#[trigger] p1[i]).0;
                    let ki = p1[i].1;
                    &&& 0 <= bi < c1.len()
                    &&& 0 <= ki < c1[bi].len()
                    &&& c1[bi][ki] == i
                } by {
                if i < e_i {
                    let bi = pre.places@[i].0;
                    let ki = pre.places@[i].1;
                    assert(pre.chains@[bi][ki] == i);
                    if bi == b && ki >= kins {
                        assert(p1[i] == (b, ki + 1));
                        assert(new_chain[ki + 1] == chain[ki]);
                    } else if bi == b {
                        assert(p1[i] == (b, ki));
                        assert(new_chain[ki] == chain[ki]);
                    } else {
                        assert(p1[i] == (bi, ki));
                    }
                } else {
                    assert(p1[i] == (b, kins));
                }
            }
        }
        assert(post.chain_elems_below(e_i + 1)) by {
            assert forall|bb: int, k: int|
                0 <= bb < c1.len() && 0 <= k < c1[bb].len() implies #[trigger] c1[bb][k] < e_i
                    + 1 by {
                if bb == b {
                    if k < kins {
                        assert(c1[bb][k] == chain[k]);
                    } else if k > kins {
                        assert(c1[bb][k] == chain[k - 1]);
                    }
                } else {
                    assert(c1[bb][k] == pre.chains@[bb][k]);
                }
            }
        }
        assert(post.detached_from(e_i + 1)) by {
            assert forall|i: int|
                e_i + 1 <= i < post.entries@.len() implies (#[trigger] post.entries@[i]).prev
                    == usize::MAX && post.entries@[i].next == usize::MAX by {
                assert(kins < chain.len() ==> chain[kins] < e_i);
                assert(kins > 0 ==> chain[kins - 1] < e_i);
                assert(post.entries@[i] == pre.entries@[i]);
            }
        }
    }

    /// After a splice, the links and bucket heads describe the new chains.
    #[verifier::rlimit(100)]
    proof fn lemma_splice_links(
        pre: Self,
        post: Self,
        e: usize,
        b: int,
        kins: int,
        hash: usize,
        has_run: bool,
    )
        requires
            Self::splice_shape(pre, post, e, b, kins, hash, has_run),
        ensures
            post.wf_chain_links(),
    {
        let n = pre.entries@.len() as int;
        let m = pre.table@.len() as int;
        let chain = pre.chains@[b];
        let c1 = post.chains@;
        let e_i = e as int;
        let new_chain = chain.insert(kins, e_i);
        assert(forall|k: int| 0 <= k < kins ==> new_chain[k] == chain[k]);
        assert(forall|k: int| kins <= k < chain.len() ==> new_chain[k + 1] == chain[k]);
        assert(new_chain[kins] == e_i);
        // Distinctness of the touched slots: `e` sits in no chain, and chain
        // members are pairwise distinct through their recorded places.
        assert(forall|k: int| 0 <= k < chain.len() ==> #[trigger] chain[k] != e_i);
        assert forall|bb: int, k: int|
            0 <= bb < m && 0 <= k < c1[bb].len() implies {
                &&& ((#[trigger] post.entries@[c1[bb][k]].prev) as int == if k == 0 {
                    usize::MAX as int
                } else {
                    c1[bb][k - 1]
                })
                &&& (post.entries@[c1[bb][k]].next as int == if k == c1[bb].len() - 1 {
                    usize::MAX as int
                } else {
                    c1[bb][k + 1]
                })
            } by {
            if bb == b {
                if k < kins {
                    assert(c1[bb][k] == chain[k]);
                    assert(pre.places@[chain[k]] == (b, k));
                    if k == kins - 1 {
                        assert(post.entries@[chain[k]].next as int == e_i);
                    } else {
                        assert(chain[k] != chain[kins - 1]) by {
                            if kins > 0 && chain[k] == chain[kins - 1] {
                                assert(pre.places@[chain[kins - 1]] == (b, kins - 1));
                            }
                        }
                        assert(kins < chain.len() ==> chain[k] != chain[kins]) by {
                            if kins < chain.len() && chain[k] == chain[kins] {
                                assert(pre.places@[chain[kins]] == (b, kins));
                            }
                        }
                        assert(post.entries@[chain[k]] == pre.entries@[chain[k]]);
                    }
                } else if k == kins {
                } else {
                    assert(c1[bb][k] == chain[k - 1]);
                    assert(pre.places@[chain[k - 1]] == (b, k - 1));
                    if k - 1 == kins {
                        assert(post.entries@[chain[kins]].prev as int == e_i);
                        assert(post.entries@[chain[kins]].next == pre.entries@[chain[kins]].next);
                    } else {
                        assert(chain[k - 1] != chain[kins]) by {
                            if chain[k - 1] == chain[kins] {
                                assert(pre.places@[chain[kins]] == (b, kins));
                            }
                        }
                        assert(kins > 0 ==> chain[k - 1] != chain[kins - 1]) by {
                            if kins > 0 && chain[k - 1] == chain[kins - 1] {
                                assert(pre.places@[chain[kins - 1]] == (b, kins - 1));
                            }
                        }
                        assert(post.entries@[chain[k - 1]] == pre.entries@[chain[k - 1]]);
                    }
                }
            } else {
                let x = pre.chains@[bb][k];
                assert(c1[bb][k] == x);
                assert(pre.places@[x] == (bb, k));
                assert(x != e_i);
                assert(kins < chain.len() ==> x != chain[kins]) by {
                    if kins < chain.len() && x == chain[kins] {
                        assert(pre.places@[chain[kins]] == (b, kins));
                    }
                }
                assert(kins > 0 ==> x != chain[kins - 1]) by {
                    if kins > 0 && x == chain[kins - 1] {
                        assert(pre.places@[chain[kins - 1]] == (b, kins - 1));
                    }
                }
                assert(post.entries@[x] == pre.entries@[x]);
                if k > 0 {
                    assert(c1[bb][k - 1] == pre.chains@[bb][k - 1]);
                }
                if k < c1[bb].len() - 1 {
                    assert(c1[bb][k + 1] == pre.chains@[bb][k + 1]);
                }
            }
        }
        assert forall|bb: int| 0 <= bb < m implies (#[trigger] post.table@[bb]) as int == if c1[
            bb
        ].len() == 0 {
            usize::MAX as int
        } else {
            c1[bb][0]
        } by {
            if bb == b {
                if kins == 0 {
                    assert(post.table@[bb] == e);
                } else {
                    assert(c1[bb][0] == chain[0]);
                    assert(post.table@[bb] == pre.table@[bb]);
                }
            } else {
                assert(c1[bb] == pre.chains@[bb]);
            }
        }
    }

    /// After a splice, runs are still contiguous: the new entry heads its
    /// own hash's run.
    proof fn lemma_splice_runs(
        pre: Self,
        post: Self,
        e: usize,
        b: int,
        kins: int,
        hash: usize,
        has_run: bool,
    )
        requires
            Self::splice_shape(pre, post, e, b, kins, hash, has_run),
        ensures
            post.wf_runs(),
    {
        let n = pre.entries@.len() as int;
        let m = pre.table@.len() as int;
        let chain = pre.chains@[b];
        let c1 = post.chains@;
        let e_i = e as int;
        let pred = hash_match_pred(pre.hashes(), hash);
        let new_chain = chain.insert(kins, e_i);
        assert(forall|k: int| 0 <= k < kins ==> new_chain[k] == chain[k]);
        assert(forall|k: int| kins <= k < chain.len() ==> new_chain[k + 1] == chain[k]);
        assert(new_chain[kins] == e_i);
        assert(forall|i: int|
            0 <= i < n ==> #[trigger] pre.hashes()[i] == pre.entries@[i].hash);
        assert forall|bb: int, k1: int, k2: int|
            #![trigger c1[bb][k1], c1[bb][k2]]
            0 <= bb < m && 0 <= k1 < k2 < c1[bb].len() && post.entries@[c1[bb][k1]].hash
                == post.entries@[c1[bb][k2]].hash implies post.entries@[c1[bb][k1 + 1]].hash
            == post.entries@[c1[bb][k1]].hash by {
            if bb != b {
                assert(c1[bb][k1] == pre.chains@[bb][k1]);
                assert(c1[bb][k2] == pre.chains@[bb][k2]);
                assert(c1[bb][k1 + 1] == pre.chains@[bb][k1 + 1]);
            } else {
                if k1 < kins && k2 < kins {
                    assert(c1[b][k1] == chain[k1]);
                    assert(c1[b][k2] == chain[k2]);
                    assert(c1[b][k1 + 1] == chain[k1 + 1]);
                } else if k1 < kins && k2 == kins {
                    // An earlier member of the new entry's hash would have
                    // put the insertion point before it.
                    assert(pred(chain[k1]));
                    chain.take(kins).lemma_filter_contains(pred, k1);
                    assert(chain.take(kins)[k1] == chain[k1]);
                    assert(false);
                } else if k1 < kins {
                    let oh = pre.entries@[chain[k1]].hash;
                    assert(c1[b][k2] == chain[k2 - 1]);
                    assert(pre.entries@[chain[k2 - 1]].hash == oh);
                    assert(k1 < k2 - 1);
                    pre.lemma_run_spans(b, k1, kins, k2 - 1);
                    assert(pre.entries@[chain[kins]].hash == oh);
                    assert(oh == hash);
                    assert(pred(chain[k1]));
                    chain.take(kins).lemma_filter_contains(pred, k1);
                    assert(chain.take(kins)[k1] == chain[k1]);
                    assert(false);
                } else if k1 == kins {
                    assert(c1[b][k2] == chain[k2 - 1]);
                    assert(pre.entries@[chain[k2 - 1]].hash == hash);
                    assert(pred(chain[k2 - 1]));
                    if has_run {
                        assert(c1[b][k1 + 1] == chain[kins]);
                        assert(pre.entries@[chain[kins]].hash == hash);
                    } else {
                        chain.lemma_filter_contains(pred, k2 - 1);
                        assert(false);
                    }
                } else {
                    assert(c1[b][k1] == chain[k1 - 1]);
                    assert(c1[b][k2] == chain[k2 - 1]);
                    assert(c1[b][k1 + 1] == chain[k1]);
                }
            }
        }
    }

    /// After a splice, every hash's matches are unchanged, except the new
    /// entry's hash gains it at the front.
    proof fn lemma_splice_matches(
        pre: Self,
        post: Self,
        e: usize,
        b: int,
        kins: int,
        hash: usize,
        has_run: bool,
    )
        requires
            Self::splice_shape(pre, post, e, b, kins, hash, has_run),
        ensures
            forall|h: usize|
                post.matches_of(h) == if h == hash {
                    seq![e as int] + pre.matches_of(h)
                } else {
                    pre.matches_of(h)
                },
    {
        let n = pre.entries@.len() as int;
        let m = pre.table@.len() as int;
        let chain = pre.chains@[b];
        let e_i = e as int;
        let new_chain = chain.insert(kins, e_i);
        assert(post.hashes() =~= pre.hashes());
        assert(forall|i: int|
            0 <= i < n ==> #[trigger] pre.hashes()[i] == pre.entries@[i].hash);
        assert forall|h: usize|
            post.matches_of(h) == (if h == hash {
                seq![e_i] + pre.matches_of(h)
            } else {
                pre.matches_of(h)
            }) by {
            let ph = hash_match_pred(pre.hashes(), h);
            assert(hash_match_pred(post.hashes(), h) == ph);
            assert(post.bucket_index(h) == pre.bucket_index(h));
            if pre.bucket_index(h) == b {
                assert(post.matches_of(h) == new_chain.filter(ph));
                assert(new_chain =~= chain.take(kins) + (seq![e_i] + chain.skip(kins)));
                Seq::filter_distributes_over_add(
                    chain.take(kins),
                    seq![e_i] + chain.skip(kins),
                    ph,
                );
                chain.skip(kins).lemma_filter_prepend(e_i, ph);
                assert(chain =~= chain.take(kins) + chain.skip(kins));
                Seq::filter_distributes_over_add(chain.take(kins), chain.skip(kins), ph);
                if h == hash {
                    assert(ph(e_i));
                    assert(new_chain.filter(ph) =~= seq![e_i] + chain.filter(ph));
                } else {
                    assert(!ph(e_i));
                    assert(new_chain.filter(ph) =~= chain.filter(ph));
                }
            } else {
                assert(post.chains@[post.bucket_index(h)] == pre.chains@[pre.bucket_index(h)]);
                if h == hash {
                    assert(pre.bucket_index(h) == b);
                }
            }
        }
    }

    /// Where the head of `hash`'s run sits in its chain: at a position whose
    /// prefix holds no entry of that hash.
    proof fn lemma_first_match_position(&self, hash: usize)
        requires
            self.chains_wf(),
            self.table_size() > 0,
            self.matches_of(hash).len() > 0,
        ensures
            ({
                let first = self.matches_of(hash)[0];
                let b = self.bucket_index(hash);
                let kf = self.places@[first].1;
                &&& 0 <= first < self.num_spec()
                &&& self.entries@[first].hash == hash
                &&& self.places@[first].0 == b
                &&& 0 <= kf < self.chains@[b].len()
                &&& self.chains@[b][kf] == first
                &&& self.chains@[b].take(kf).filter(
                    hash_match_pred(self.hashes(), hash),
                ).len() == 0
            }),
    {
        let b = self.bucket_index(hash);
        let m = self.table@.len() as int;
        let chain = self.chains@[b];
        let pred = hash_match_pred(self.hashes(), hash);
        let first = self.matches_of(hash)[0];
        assert(0 <= b < m) by {
            assert((hash as int) % m >= 0) by (nonlinear_arith)
                requires
                    m > 0,
            ;
            assert((hash as int) % m < m) by (nonlinear_arith)
                requires
                    m > 0,
            ;
        }
        assert(chain.filter(pred).contains(first)) by {
            assert(chain.filter(pred)[0] == first);
        }
        chain.lemma_filter_contains_rev(pred, first);
        let kf = choose|kf: int| 0 <= kf < chain.len() && chain[kf] == first;
        assert(self.places@[first] == (b, kf));
        chain.lemma_filter_pred(pred, 0);
        assert(self.hashes()[first] == hash);
        assert(self.entries@[first].hash == hash);
        assert(chain.take(kf).filter(pred).len() == 0) by {
            if chain.take(kf).filter(pred).len() > 0 {
                assert(chain =~= chain.take(kf) + chain.skip(kf));
                Seq::filter_distributes_over_add(chain.take(kf), chain.skip(kf), pred);
                let head = chain.take(kf).filter(pred)[0];
                assert(chain.filter(pred)[0] == head);
                chain.take(kf).lemma_filter_contains_rev(pred, head);
                let j = choose|j: int|
                    0 <= j < chain.take(kf).len() && chain.take(kf)[j] == head;
                assert(chain[j] == head);
                assert(self.places@[chain[j]] == (b, j));
                assert(self.places@[chain[kf]] == (b, kf));
                assert(head == first);
            }
        }
    }

    /// Splice the detached entry `new_entry_index` into its bucket's chain:
    /// immediately before its hash's current run if one exists, else at the
    /// chain's head. The new entry becomes the first element of its run.
    fn setup_new_entry(&mut self, new_entry_index: usize)
        requires
            old(self).chains_wf(),
            old(self).spliced_upto(new_entry_index as int),
            old(self).chain_elems_below(new_entry_index as int),
            old(self).detached_from(new_entry_index as int),
            (new_entry_index as int) < old(self).num_spec(),
            old(self).table_size() > 0,
        ensures
            final(self).chains_wf(),
            final(self).spliced_upto(new_entry_index as int + 1),
            final(self).chain_elems_below(new_entry_index as int + 1),
            final(self).detached_from(new_entry_index as int + 1),
            final(self)@ == old(self)@,
            final(self).hashes() == old(self).hashes(),
            final(self).num_spec() == old(self).num_spec(),
            final(self).table_size() == old(self).table_size(),
            final(self).cap_spec() == old(self).cap_spec(),
            forall|h: usize|
                final(self).matches_of(h) == if h == old(self).hashes()[new_entry_index as int] {
                    seq![new_entry_index as int] + old(self).matches_of(h)
                } else {
                    old(self).matches_of(h)
                },
    {
        let e = new_entry_index;
        let hash = self.entries.index(e).hash;
        let table_num = self.table.num();
        let table_index = hash % table_num;
        let ghost n = self.entries@.len() as int;
        let ghost c0 = self.chains@;
        let ghost p0 = self.places@;
        let ghost b = table_index as int;
        let ghost chain = c0[b];
        let ghost pred = hash_match_pred(self.hashes(), hash);
        proof {
            assert(self.bucket_index(hash) == b);
        }

        let first = self.find_first_index_inner(hash);
        let has_run = first != usize::MAX;

        // The chain position the new entry will occupy.
        let ghost kins: int = if has_run {
            p0[first as int].1
        } else {
            0
        };

        proof {
            if has_run {
                self.lemma_first_match_position(hash);
                assert(self.matches_of(hash)[0] == first as int);
                assert(chain[kins] == first as int);
            } else {
                assert(chain.take(0).filter(pred) =~= chain.take(0).filter(pred));
                assert(chain.take(0) =~= Seq::<int>::empty());
                assert(chain.take(0).filter(pred).len() == 0);
                assert(self.matches_of(hash).len() == 0);
            }
        }

        // Thread the links.
        let prv: usize;
        let nxt: usize;
        if has_run {
            // Insert immediately before the run's current head.
            prv = self.entries.index(first).prev;
            nxt = first;
        } else {
            // Prepend to the whole chain: the new entry becomes the bucket
            // head, a run of one.
            prv = usize::MAX;
            nxt = *self.table.index(table_index);
        }

        let mut new_entry = *self.entries.index(e);
        new_entry.prev = prv;
        new_entry.next = nxt;
        *self.entries.index_mut(e) = new_entry;

        if nxt != usize::MAX {
            let mut next_entry = *self.entries.index(nxt);
            next_entry.prev = e;
            *self.entries.index_mut(nxt) = next_entry;
        }
        if prv == usize::MAX {
            *self.table.index_mut(table_index) = e;
        } else {
            let mut prev_entry = *self.entries.index(prv);
            prev_entry.next = e;
            *self.entries.index_mut(prv) = prev_entry;
        }

        // Record the new chain shape.
        self.chains = Ghost(c0.update(b, chain.insert(kins, e as int)));
        self.places = Ghost(
            Seq::new(
                p0.len(),
                |i: int|
                    if i == e as int {
                        (b, kins)
                    } else if p0[i].0 == b && p0[i].1 >= kins {
                        (b, p0[i].1 + 1)
                    } else {
                        p0[i]
                    },
            ),
        );

        proof {
            let pre = *old(self);
            let post = *self;
            if has_run {
                assert(chain[kins] == first as int);
                if kins > 0 {
                    assert(pre.entries@[chain[kins]].prev as int == chain[kins - 1]);
                    assert(prv as int == chain[kins - 1]);
                    assert(0 <= chain[kins - 1] < n);
                    assert(prv != usize::MAX);
                }
                assert(nxt as int == chain[kins]);
            } else {
                assert(kins == 0);
                if chain.len() == 0 {
                    assert(nxt == usize::MAX);
                } else {
                    assert(nxt as int == chain[0]);
                }
            }
            assert(post.places@ =~= Seq::new(
                n as nat,
                |i: int|
                    if i == e as int {
                        (b, kins)
                    } else if pre.places@[i].0 == b && pre.places@[i].1 >= kins {
                        (b, pre.places@[i].1 + 1)
                    } else {
                        pre.places@[i]
                    },
            ));
            assert(pre.chains_wf());
            assert((e as int) < n && pre.table@.len() as int > 0);
            assert(b == pre.bucket_index(hash));
            assert(pre.entries@[e as int].hash == hash);
            assert(0 <= kins <= chain.len());
            assert(chain.take(kins).filter(pred).len() == 0);
            assert(if has_run {
                kins < chain.len() && pre.entries@[chain[kins]].hash == hash
            } else {
                kins == 0 && chain.filter(pred).len() == 0
            });
            assert(post.data == pre.data);
            assert(post.entries@.len() == n);
            assert(forall|i: int|
                0 <= i < n ==> (#[trigger] post.entries@[i]).hash == pre.entries@[i].hash);
            assert(forall|i: int|
                0 <= i < n ==> (#[trigger] post.entries@[i]).index == pre.entries@[i].index);
            assert(forall|i: int|
                0 <= i < n && i != e as int && (kins >= chain.len() || i != chain[kins]) && (kins
                    == 0 || i != chain[kins - 1]) ==> #[trigger] post.entries@[i]
                    == pre.entries@[i]);
            assert(post.entries@[e as int].prev as int == (if kins == 0 {
                usize::MAX as int
            } else {
                chain[kins - 1]
            }));
            assert(post.entries@[e as int].next as int == (if kins == chain.len() {
                usize::MAX as int
            } else {
                chain[kins]
            }));
            assert(kins < chain.len() ==> post.entries@[chain[kins]].prev as int == e as int);
            assert(kins < chain.len() ==> post.entries@[chain[kins]].next == pre.entries@[chain[
                kins
            ]].next);
            assert(kins > 0 ==> post.entries@[chain[kins - 1]].next as int == e as int);
            assert(kins > 0 ==> post.entries@[chain[kins - 1]].prev == pre.entries@[chain[kins
                - 1]].prev);
            assert(post.table@ == (if kins == 0 {
                pre.table@.update(b, e)
            } else {
                pre.table@
            }));
            assert(post.chains@ == pre.chains@.update(b, chain.insert(kins, e as int)));
            assert(Self::splice_shape(pre, post, e, b, kins, hash, has_run));
            Self::lemma_splice_ranges(pre, post, e, b, kins, hash, has_run);
            Self::lemma_splice_links(pre, post, e, b, kins, hash, has_run);
            Self::lemma_splice_runs(pre, post, e, b, kins, hash, has_run);
            Self::lemma_splice_matches(pre, post, e, b, kins, hash, has_run);
            assert(self.hashes() =~= old(self).hashes());
            assert(old(self).hashes()[e as int] == hash);
        }
    }

    /// The relation between the table before and after unlinking entry `x`
    /// (at chain position `k` of bucket `b`) from its chain: its neighbours
    /// or the bucket slot now bypass it, and nothing else moved. The entry
    /// itself is untouched, merely no longer referenced.
    spec fn unsplice_shape(pre: Self, post: Self, x: usize, b: int, k: int) -> bool {
        let n = pre.entries@.len() as int;
        let m = pre.table@.len() as int;
        let chain = pre.chains@[b];
        &&& pre.chains_wf()
        &&& pre.spliced_upto(n)
        &&& 0 <= (x as int) < n
        &&& m > 0
        &&& pre.places@[x as int] == (b, k)
        &&& 0 <= b < m
        &&& 0 <= k < chain.len()
        &&& chain[k] == x as int
        &&& post.data == pre.data
        &&& post.entries@.len() == n
        &&& (forall|i: int|
            0 <= i < n ==> (#[trigger] post.entries@[i]).hash == pre.entries@[i].hash)
        &&& (forall|i: int|
            0 <= i < n ==> (#[trigger] post.entries@[i]).index == pre.entries@[i].index)
        &&& (forall|i: int|
            0 <= i < n && (k == 0 || i != chain[k - 1]) && (k == chain.len() - 1 || i != chain[k
                + 1]) ==> #[trigger] post.entries@[i] == pre.entries@[i])
        &&& (k > 0 ==> post.entries@[chain[k - 1]].next == pre.entries@[x as int].next)
        &&& (k > 0 ==> post.entries@[chain[k - 1]].prev == pre.entries@[chain[k - 1]].prev)
        &&& (k < chain.len() - 1 ==> post.entries@[chain[k + 1]].prev == pre.entries@[x
            as int].prev)
        &&& (k < chain.len() - 1 ==> post.entries@[chain[k + 1]].next == pre.entries@[chain[k
            + 1]].next)
        &&& post.table@ == (if k == 0 {
            pre.table@.update(b, pre.entries@[x as int].next)
        } else {
            pre.table@
        })
        &&& post.chains@ == pre.chains@.update(b, chain.remove(k))
        &&& post.places@.len() == n
        &&& (forall|i: int|
            0 <= i < n ==> #[trigger] post.places@[i] == (if i == x as int {
                pre.places@[i]
            } else if pre.places@[i].0 == b && pre.places@[i].1 > k {
                (b, pre.places@[i].1 - 1)
            } else {
                pre.places@[i]
            }))
        &&& post.entries.wf()
        &&& post.table.wf()
    }

    /// After an unlink, arrays and ranges are consistent, with `x` now
    /// outside every chain.
    proof fn lemma_unsplice_ranges(pre: Self, post: Self, x: usize, b: int, k: int)
        requires
            Self::unsplice_shape(pre, post, x, b, k),
        ensures
            post.wf_arrays(),
            post.wf_chain_ranges(),
            post.spliced_except(x as int),
            post.chains_avoid(x as int),
    {
        let n = pre.entries@.len() as int;
        let m = pre.table@.len() as int;
        let chain = pre.chains@[b];
        let c1 = post.chains@;
        let p1 = post.places@;
        let x_i = x as int;
        let new_chain = chain.remove(k);
        assert(forall|j: int| 0 <= j < k ==> new_chain[j] == chain[j]);
        assert(forall|j: int| k <= j < new_chain.len() ==> new_chain[j] == chain[j + 1]);
        assert(post.wf_chain_ranges() && post.chains_avoid(x_i)) by {
            assert forall|bb: int, kk: int|
                0 <= bb < m && 0 <= kk < c1[bb].len() implies {
                    &&& 0 <= #[trigger] c1[bb][kk] < n
                    &&& p1[c1[bb][kk]] == (bb, kk)
                    &&& (post.entries@[c1[bb][kk]].hash as int % m == bb)
                    &&& c1[bb][kk] != x_i
                } by {
                if bb == b {
                    if kk < k {
                        assert(c1[bb][kk] == chain[kk]);
                        assert(pre.places@[chain[kk]] == (b, kk));
                        assert(chain[kk] != x_i) by {
                            if chain[kk] == x_i {
                                assert(pre.places@[x_i] == (b, kk));
                            }
                        }
                    } else {
                        assert(c1[bb][kk] == chain[kk + 1]);
                        assert(pre.places@[chain[kk + 1]] == (b, kk + 1));
                        assert(chain[kk + 1] != x_i) by {
                            if chain[kk + 1] == x_i {
                                assert(pre.places@[x_i] == (b, kk + 1));
                            }
                        }
                    }
                } else {
                    assert(c1[bb][kk] == pre.chains@[bb][kk]);
                    assert(pre.places@[pre.chains@[bb][kk]] == (bb, kk));
                    assert(pre.chains@[bb][kk] != x_i) by {
                        if pre.chains@[bb][kk] == x_i {
                            assert(pre.places@[x_i] == (bb, kk));
                        }
                    }
                }
            }
        }
        assert(post.spliced_except(x_i)) by {
            assert forall|i: int|
                0 <= i < n && i != x_i implies {
                    let bi = (#[trigger] p1[i]).0;
                    let ki = p1[i].1;
                    &&& 0 <= bi < c1.len()
                    &&& 0 <= ki < c1[bi].len()
                    &&& c1[bi][ki] == i
                } by {
                let bi = pre.places@[i].0;
                let ki = pre.places@[i].1;
                assert(pre.chains@[bi][ki] == i);
                if bi == b {
                    assert(ki != k) by {
                        if ki == k {
                            assert(chain[k] == i);
                        }
                    }
                    if ki > k {
                        assert(p1[i] == (b, ki - 1));
                        assert(new_chain[ki - 1] == chain[ki]);
                    } else {
                        assert(p1[i] == (bi, ki));
                        assert(new_chain[ki] == chain[ki]);
                    }
                } else {
                    assert(p1[i] == (bi, ki));
                }
            }
        }
    }

    /// After an unlink, links and bucket heads describe the shortened chain.
    #[verifier::rlimit(100)]
    proof fn lemma_unsplice_links(pre: Self, post: Self, x: usize, b: int, k: int)
        requires
            Self::unsplice_shape(pre, post, x, b, k),
        ensures
            post.wf_chain_links(),
    {
        let n = pre.entries@.len() as int;
        let m = pre.table@.len() as int;
        let chain = pre.chains@[b];
        let c1 = post.chains@;
        let x_i = x as int;
        let new_chain = chain.remove(k);
        assert(forall|j: int| 0 <= j < k ==> new_chain[j] == chain[j]);
        assert(forall|j: int| k <= j < new_chain.len() ==> new_chain[j] == chain[j + 1]);
        // Pairwise distinctness of chain slots through their places.
        assert forall|j1: int, j2: int|
            0 <= j1 < chain.len() && 0 <= j2 < chain.len() && j1 != j2 implies #[trigger] chain[j1]
            != #[trigger] chain[j2] by {
            assert(pre.places@[chain[j1]] == (b, j1));
            assert(pre.places@[chain[j2]] == (b, j2));
        }
        assert forall|bb: int, kk: int|
            0 <= bb < m && 0 <= kk < c1[bb].len() implies {
                &&& ((#[trigger] post.entries@[c1[bb][kk]].prev) as int == if kk == 0 {
                    usize::MAX as int
                } else {
                    c1[bb][kk - 1]
                })
                &&& (post.entries@[c1[bb][kk]].next as int == if kk == c1[bb].len() - 1 {
                    usize::MAX as int
                } else {
                    c1[bb][kk + 1]
                })
            } by {
            if bb == b {
                if kk < k - 1 {
                    assert(c1[bb][kk] == chain[kk]);
                    assert(post.entries@[chain[kk]] == pre.entries@[chain[kk]]);
                } else if kk == k - 1 {
                    assert(c1[bb][kk] == chain[k - 1]);
                    assert(post.entries@[chain[k - 1]].next == pre.entries@[x_i].next);
                    if k < chain.len() - 1 {
                        assert(pre.entries@[x_i].next as int == chain[k + 1]);
                        assert(new_chain[k] == chain[k + 1]);
                    } else {
                        assert(pre.entries@[x_i].next == usize::MAX);
                    }
                } else if kk == k {
                    assert(c1[bb][kk] == chain[k + 1]);
                    assert(post.entries@[chain[k + 1]].prev == pre.entries@[x_i].prev);
                    if k > 0 {
                        assert(pre.entries@[x_i].prev as int == chain[k - 1]);
                    } else {
                        assert(pre.entries@[x_i].prev == usize::MAX);
                    }
                    if kk < c1[bb].len() - 1 {
                        assert(new_chain[kk + 1] == chain[k + 2]);
                        assert(post.entries@[chain[k + 1]].next == pre.entries@[chain[k
                            + 1]].next);
                    }
                } else {
                    assert(c1[bb][kk] == chain[kk + 1]);
                    assert(post.entries@[chain[kk + 1]] == pre.entries@[chain[kk + 1]]);
                    assert(new_chain[kk - 1] == chain[kk]);
                    if kk < c1[bb].len() - 1 {
                        assert(new_chain[kk + 1] == chain[kk + 2]);
                    }
                }
            } else {
                let y = pre.chains@[bb][kk];
                assert(c1[bb][kk] == y);
                assert(pre.places@[y] == (bb, kk));
                assert(k == 0 || y != chain[k - 1]) by {
                    if k > 0 && y == chain[k - 1] {
                        assert(pre.places@[chain[k - 1]] == (b, k - 1));
                    }
                }
                assert(k == chain.len() - 1 || y != chain[k + 1]) by {
                    if k < chain.len() - 1 && y == chain[k + 1] {
                        assert(pre.places@[chain[k + 1]] == (b, k + 1));
                    }
                }
                assert(post.entries@[y] == pre.entries@[y]);
                if kk > 0 {
                    assert(c1[bb][kk - 1] == pre.chains@[bb][kk - 1]);
                }
                if kk < c1[bb].len() - 1 {
                    assert(c1[bb][kk + 1] == pre.chains@[bb][kk + 1]);
                }
            }
        }
        assert forall|bb: int| 0 <= bb < m implies (#[trigger] post.table@[bb]) as int == if c1[
            bb
        ].len() == 0 {
            usize::MAX as int
        } else {
            c1[bb][0]
        } by {
            if bb == b {
                if k == 0 {
                    if chain.len() > 1 {
                        assert(pre.entries@[x_i].next as int == chain[1]);
                        assert(new_chain[0] == chain[1]);
                    } else {
                        assert(pre.entries@[x_i].next == usize::MAX);
                    }
                } else {
                    assert(new_chain[0] == chain[0]);
                }
            } else {
                assert(c1[bb] == pre.chains@[bb]);
            }
        }
    }

    /// After an unlink, runs stay contiguous: a removed element of some hash
    /// cannot part two members of another.
    proof fn lemma_unsplice_runs(pre: Self, post: Self, x: usize, b: int, k: int)
        requires
            Self::unsplice_shape(pre, post, x, b, k),
        ensures
            post.wf_runs(),
    {
        let n = pre.entries@.len() as int;
        let m = pre.table@.len() as int;
        let chain = pre.chains@[b];
        let c1 = post.chains@;
        let x_i = x as int;
        let new_chain = chain.remove(k);
        assert(forall|j: int| 0 <= j < k ==> new_chain[j] == chain[j]);
        assert(forall|j: int| k <= j < new_chain.len() ==> new_chain[j] == chain[j + 1]);
        assert forall|bb: int, k1: int, k2: int|
            #![trigger c1[bb][k1], c1[bb][k2]]
            0 <= bb < m && 0 <= k1 < k2 < c1[bb].len() && post.entries@[c1[bb][k1]].hash
                == post.entries@[c1[bb][k2]].hash implies post.entries@[c1[bb][k1 + 1]].hash
            == post.entries@[c1[bb][k1]].hash by {
            if bb != b {
                assert(c1[bb][k1] == pre.chains@[bb][k1]);
                assert(c1[bb][k2] == pre.chains@[bb][k2]);
                assert(c1[bb][k1 + 1] == pre.chains@[bb][k1 + 1]);
            } else {
                let o1: int = if k1 < k {
                    k1
                } else {
                    k1 + 1
                };
                let o2: int = if k2 < k {
                    k2
                } else {
                    k2 + 1
                };
                assert(c1[b][k1] == chain[o1]);
                assert(c1[b][k2] == chain[o2]);
                assert(pre.entries@[chain[o1]].hash == pre.entries@[chain[o2]].hash);
                assert(pre.entries@[chain[o1 + 1]].hash == pre.entries@[chain[o1]].hash);
                if o1 + 1 == k {
                    // The removed element shared the pair's hash, so its
                    // successor does too.
                    assert(pre.entries@[chain[k]].hash == pre.entries@[chain[o1]].hash);
                    assert(k < o2);
                    assert(pre.entries@[chain[k + 1]].hash == pre.entries@[chain[k]].hash);
                    assert(c1[b][k1 + 1] == chain[k + 1]);
                } else {
                    assert(c1[b][k1 + 1] == chain[o1 + 1]);
                }
            }
        }
    }

    /// After an unlink, every hash's matches lose exactly the unlinked
    /// entry.
    proof fn lemma_unsplice_matches(pre: Self, post: Self, x: usize, b: int, k: int)
        requires
            Self::unsplice_shape(pre, post, x, b, k),
        ensures
            forall|h: usize|
                post.matches_of(h) == without_value(pre.matches_of(h), x as int),
    {
        let n = pre.entries@.len() as int;
        let m = pre.table@.len() as int;
        let chain = pre.chains@[b];
        let x_i = x as int;
        let new_chain = chain.remove(k);
        assert(post.hashes() =~= pre.hashes());
        assert(forall|i: int|
            0 <= i < n ==> #[trigger] pre.hashes()[i] == pre.entries@[i].hash);
        assert forall|h: usize|
            post.matches_of(h) == without_value(pre.matches_of(h), x_i) by {
            let ph = hash_match_pred(pre.hashes(), h);
            assert(hash_match_pred(post.hashes(), h) == ph);
            assert(post.bucket_index(h) == pre.bucket_index(h));
            let ms = pre.matches_of(h);
            pre.lemma_matches_characterize(h);
            if pre.bucket_index(h) == b {
                assert(ms == chain.filter(ph));
                assert(post.matches_of(h) == new_chain.filter(ph));
                assert(chain =~= chain.take(k) + (seq![x_i] + chain.skip(k + 1)));
                Seq::filter_distributes_over_add(
                    chain.take(k),
                    seq![x_i] + chain.skip(k + 1),
                    ph,
                );
                chain.skip(k + 1).lemma_filter_prepend(x_i, ph);
                assert(new_chain =~= chain.take(k) + chain.skip(k + 1));
                Seq::filter_distributes_over_add(chain.take(k), chain.skip(k + 1), ph);
                let front = chain.take(k).filter(ph);
                let back = chain.skip(k + 1).filter(ph);
                if ph(x_i) {
                    assert(ms =~= front + (seq![x_i] + back));
                    assert(new_chain.filter(ph) =~= front + back);
                    assert(ms.contains(x_i)) by {
                        assert(ms[front.len() as int] == x_i);
                    }
                    let j = first_position_of(ms, x_i);
                    assert(0 <= j < ms.len() && ms[j] == x_i);
                    assert(j == front.len() as int) by {
                        if j != front.len() as int {
                            assert(ms[j] == ms[front.len() as int]);
                        }
                    }
                    assert(ms.remove(j) =~= front + back);
                } else {
                    assert(ms =~= front + back);
                    assert(new_chain.filter(ph) =~= front + back);
                    assert(!ms.contains(x_i)) by {
                        if ms.contains(x_i) {
                            let j = choose|j: int| 0 <= j < ms.len() && ms[j] == x_i;
                            chain.lemma_filter_pred(ph, j);
                        }
                    }
                }
            } else {
                assert(post.chains@[post.bucket_index(h)] == pre.chains@[pre.bucket_index(h)]);
                assert(!ms.contains(x_i)) by {
                    if ms.contains(x_i) {
                        let bb = pre.bucket_index(h);
                        pre.chains@[bb].lemma_filter_contains_rev(ph, x_i);
                        let kk = choose|kk: int|
                            0 <= kk < pre.chains@[bb].len() && pre.chains@[bb][kk] == x_i;
                        assert(pre.places@[pre.chains@[bb][kk]] == (bb, kk));
                        assert(pre.places@[x_i] == (b, k));
                    }
                }
            }
        }
    }

    /// The relation between the table before and after the physical
    /// swap-remove of the (already unlinked) entry `x`: the old last entry
    /// now sits in slot `x` with its index field corrected and its
    /// neighbours re-pointed, and every chain mention of `last` reads `x`.
    spec fn relocate_shape(pre: Self, post: Self, x: usize, last: int) -> bool {
        let n = pre.entries@.len() as int;
        let m = pre.table@.len() as int;
        let mvd = pre.entries@[last];
        &&& pre.wf_arrays()
        &&& pre.wf_chain_ranges()
        &&& pre.wf_chain_links()
        &&& pre.wf_runs()
        &&& pre.spliced_except(x as int)
        &&& pre.chains_avoid(x as int)
        &&& last == n - 1
        &&& 0 <= (x as int) <= last
        &&& post.data.wf()
        &&& post.data@.len() == last
        &&& post.entries@.len() == last
        &&& post.entries.wf()
        &&& post.table.wf()
        &&& post.chains@.len() == m
        &&& (forall|bb: int|
            0 <= bb < m ==> #[trigger] post.chains@[bb] == rename_value(
                pre.chains@[bb],
                last,
                x as int,
            ))
        &&& post.places@.len() == last
        &&& (forall|i: int|
            0 <= i < last ==> #[trigger] post.places@[i] == (if i == x as int {
                pre.places@[last]
            } else {
                pre.places@[i]
            }))
        &&& (if (x as int) < last {
            &&& post.entries@[x as int].hash == mvd.hash
            &&& post.entries@[x as int].index == x
            &&& post.entries@[x as int].prev == mvd.prev
            &&& post.entries@[x as int].next == mvd.next
            &&& (forall|i: int|
                0 <= i < last && i != x as int && (mvd.prev == usize::MAX || i != mvd.prev as int)
                    && (mvd.next == usize::MAX || i != mvd.next as int)
                    ==> #[trigger] post.entries@[i] == pre.entries@[i])
            &&& (mvd.prev != usize::MAX ==> {
                &&& post.entries@[mvd.prev as int].next == x
                &&& post.entries@[mvd.prev as int].prev == pre.entries@[mvd.prev as int].prev
                &&& post.entries@[mvd.prev as int].hash == pre.entries@[mvd.prev as int].hash
                &&& post.entries@[mvd.prev as int].index == pre.entries@[mvd.prev as int].index
            })
            &&& (mvd.next != usize::MAX ==> {
                &&& post.entries@[mvd.next as int].prev == x
                &&& post.entries@[mvd.next as int].next == pre.entries@[mvd.next as int].next
                &&& post.entries@[mvd.next as int].hash == pre.entries@[mvd.next as int].hash
                &&& post.entries@[mvd.next as int].index == pre.entries@[mvd.next as int].index
            })
            &&& post.table@ == (if mvd.prev == usize::MAX {
                pre.table@.update((mvd.hash as int) % m, x)
            } else {
                pre.table@
            })
        } else {
            &&& (forall|i: int| 0 <= i < last ==> #[trigger] post.entries@[i] == pre.entries@[i])
            &&& post.table@ == pre.table@
        })
    }

    /// After the relocation, arrays, ranges and the threading of every
    /// remaining entry are consistent.
    proof fn lemma_relocate_ranges(pre: Self, post: Self, x: usize, last: int)
        requires
            Self::relocate_shape(pre, post, x, last),
        ensures
            post.wf_arrays(),
            post.wf_chain_ranges(),
            post.spliced_upto(last),
    {
        let n = pre.entries@.len() as int;
        let m = pre.table@.len() as int;
        let c1 = post.chains@;
        let p1 = post.places@;
        let x_i = x as int;
        assert(m > 0);
        assert(post.wf_arrays()) by {
            assert forall|i: int| 0 <= i < last implies (#[trigger] post.entries@[i]).index
                == i by {
                if (x as int) < last {
                    let mvd = pre.entries@[last];
                    if i == x_i {
                    } else if mvd.prev != usize::MAX && i == mvd.prev as int {
                    } else if mvd.next != usize::MAX && i == mvd.next as int {
                    } else {
                        assert(post.entries@[i] == pre.entries@[i]);
                    }
                }
            }
        }
        assert(post.wf_chain_ranges()) by {
            assert forall|bb: int, kk: int|
                0 <= bb < m && 0 <= kk < c1[bb].len() implies {
                    &&& 0 <= #[trigger] c1[bb][kk] < last
                    &&& p1[c1[bb][kk]] == (bb, kk)
                    &&& (post.entries@[c1[bb][kk]].hash as int % m == bb)
                } by {
                let y = pre.chains@[bb][kk];
                assert(c1[bb][kk] == (if y == last {
                    x_i
                } else {
                    y
                }));
                assert(pre.places@[y] == (bb, kk));
                assert(y != x_i);
                if y == last {
                    assert(x_i < last);
                    assert(p1[x_i] == pre.places@[last]);
                    assert(post.entries@[x_i].hash == pre.entries@[last].hash);
                } else {
                    assert(y < last) by {
                        assert(y < n);
                    }
                    assert(p1[y] == pre.places@[y]);
                    assert(post.entries@[y].hash == pre.entries@[y].hash) by {
                        if (x as int) < last {
                            let mvd = pre.entries@[last];
                            if mvd.prev != usize::MAX && y == mvd.prev as int {
                            } else if mvd.next != usize::MAX && y == mvd.next as int {
                            } else {
                                assert(post.entries@[y] == pre.entries@[y]);
                            }
                        }
                    }
                }
            }
        }
        assert(post.spliced_upto(last)) by {
            assert forall|i: int|
                0 <= i < last implies {
                    let bi = (#[trigger] p1[i]).0;
                    let ki = p1[i].1;
                    &&& 0 <= bi < c1.len()
                    &&& 0 <= ki < c1[bi].len()
                    &&& c1[bi][ki] == i
                } by {
                if i == x_i {
                    assert(x_i < last);
                    let bi = pre.places@[last].0;
                    let ki = pre.places@[last].1;
                    assert(pre.chains@[bi][ki] == last);
                    assert(c1[bi][ki] == x_i);
                } else {
                    let bi = pre.places@[i].0;
                    let ki = pre.places@[i].1;
                    assert(pre.chains@[bi][ki] == i);
                    assert(i != last);
                    assert(c1[bi][ki] == i);
                }
            }
        }
    }

    /// After the relocation, links and bucket heads describe the renamed
    /// chains.
    #[verifier::rlimit(100)]
    proof fn lemma_relocate_links(pre: Self, post: Self, x: usize, last: int)
        requires
            Self::relocate_shape(pre, post, x, last),
        ensures
            post.wf_chain_links(),
    {
        let n = pre.entries@.len() as int;
        let m = pre.table@.len() as int;
        let c1 = post.chains@;
        let x_i = x as int;
        let mvd = pre.entries@[last];
        // Chain slots are pairwise distinct through their places.
        assert forall|bb: int, j1: int, j2: int|
            #![trigger pre.chains@[bb][j1], pre.chains@[bb][j2]]
            0 <= bb < m && 0 <= j1 < pre.chains@[bb].len() && 0 <= j2 < pre.chains@[bb].len() && j1
                != j2 implies pre.chains@[bb][j1] != pre.chains@[bb][j2] by {
            assert(pre.places@[pre.chains@[bb][j1]] == (bb, j1));
            assert(pre.places@[pre.chains@[bb][j2]] == (bb, j2));
        }
        if x_i < last {
            // The moved entry's neighbours are the chain slots around it.
            let bl = pre.places@[last].0;
            let kl = pre.places@[last].1;
            assert(pre.chains@[bl][kl] == last);
            assert(mvd.prev as int == (if kl == 0 {
                usize::MAX as int
            } else {
                pre.chains@[bl][kl - 1]
            }));
            assert(mvd.next as int == (if kl == pre.chains@[bl].len() - 1 {
                usize::MAX as int
            } else {
                pre.chains@[bl][kl + 1]
            }));
            assert(mvd.hash as int % m == bl);
            assert forall|bb: int, kk: int|
                0 <= bb < m && 0 <= kk < c1[bb].len() implies {
                    &&& ((#[trigger] post.entries@[c1[bb][kk]].prev) as int == if kk == 0 {
                        usize::MAX as int
                    } else {
                        c1[bb][kk - 1]
                    })
                    &&& (post.entries@[c1[bb][kk]].next as int == if kk == c1[bb].len() - 1 {
                        usize::MAX as int
                    } else {
                        c1[bb][kk + 1]
                    })
                } by {
                let y = pre.chains@[bb][kk];
                assert(c1[bb][kk] == (if y == last {
                    x_i
                } else {
                    y
                }));
                assert(pre.places@[y] == (bb, kk));
                if kk > 0 {
                    assert(c1[bb][kk - 1] == (if pre.chains@[bb][kk - 1] == last {
                        x_i
                    } else {
                        pre.chains@[bb][kk - 1]
                    }));
                }
                if kk < c1[bb].len() - 1 {
                    assert(c1[bb][kk + 1] == (if pre.chains@[bb][kk + 1] == last {
                        x_i
                    } else {
                        pre.chains@[bb][kk + 1]
                    }));
                }
                if y == last {
                    // The relocated slot keeps the moved entry's links, and
                    // its neighbours are not `last` themselves.
                    assert(bb == bl && kk == kl);
                    assert(post.entries@[x_i].prev == mvd.prev);
                    assert(post.entries@[x_i].next == mvd.next);
                } else if mvd.prev != usize::MAX && y == mvd.prev as int {
                    // Its next pointer now reads the relocated slot.
                    assert(bb == bl && kk == kl - 1);
                    assert(post.entries@[y].next == x);
                    assert(c1[bb][kk + 1] == x_i);
                    assert(post.entries@[y].prev == pre.entries@[y].prev);
                } else if mvd.next != usize::MAX && y == mvd.next as int {
                    assert(bb == bl && kk == kl + 1);
                    assert(post.entries@[y].prev == x);
                    assert(c1[bb][kk - 1] == x_i);
                    assert(post.entries@[y].next == pre.entries@[y].next);
                } else {
                    assert(post.entries@[y] == pre.entries@[y]);
                    if kk > 0 {
                        assert(pre.chains@[bb][kk - 1] != last) by {
                            if pre.chains@[bb][kk - 1] == last {
                                assert(pre.places@[last] == (bb, kk - 1));
                                assert(mvd.next as int == y);
                            }
                        }
                    }
                    if kk < c1[bb].len() - 1 {
                        assert(pre.chains@[bb][kk + 1] != last) by {
                            if pre.chains@[bb][kk + 1] == last {
                                assert(pre.places@[last] == (bb, kk + 1));
                                assert(mvd.prev as int == y);
                            }
                        }
                    }
                }
            }
            assert forall|bb: int| 0 <= bb < m implies (#[trigger] post.table@[bb]) as int
                == if c1[bb].len() == 0 {
                usize::MAX as int
            } else {
                c1[bb][0]
            } by {
                if mvd.prev == usize::MAX {
                    assert(kl == 0);
                    if bb == bl {
                        assert(post.table@[bb] == x);
                        assert(c1[bb][0] == x_i);
                    } else {
                        assert(post.table@[bb] == pre.table@[bb]);
                        assert(pre.chains@[bb].len() > 0 ==> pre.chains@[bb][0] != last) by {
                            if pre.chains@[bb].len() > 0 && pre.chains@[bb][0] == last {
                                assert(pre.places@[last] == (bb, 0int));
                            }
                        }
                    }
                } else {
                    assert(post.table@[bb] == pre.table@[bb]);
                    assert(pre.chains@[bb].len() > 0 ==> pre.chains@[bb][0] != last) by {
                        if pre.chains@[bb].len() > 0 && pre.chains@[bb][0] == last {
                            assert(pre.places@[last] == (bb, 0int));
                            assert(bb == bl && kl == 0);
                        }
                    }
                }
            }
        } else {
            // Removing the last slot: nothing was relocated and no chain
            // mentions `last`.
            assert forall|bb: int, kk: int|
                0 <= bb < m && 0 <= kk < pre.chains@[bb].len() implies #[trigger] pre.chains@[
                bb][kk] != last by {
                assert(pre.chains@[bb][kk] != x_i);
            }
            assert forall|bb: int| 0 <= bb < m implies #[trigger] c1[bb] == pre.chains@[bb] by {
                assert(c1[bb] =~= pre.chains@[bb]);
            }
        }
    }

    /// After the relocation, runs stay contiguous: positions and hashes are
    /// untouched, only one index was renamed.
    proof fn lemma_relocate_runs(pre: Self, post: Self, x: usize, last: int)
        requires
            Self::relocate_shape(pre, post, x, last),
        ensures
            post.wf_runs(),
    {
        let m = pre.table@.len() as int;
        let c1 = post.chains@;
        let x_i = x as int;
        assert forall|bb: int, kk: int|
            0 <= bb < m && 0 <= kk < c1[bb].len() implies (#[trigger] post.entries@[c1[bb][
        kk]].hash) == pre.entries@[pre.chains@[bb][kk]].hash by {
            let y = pre.chains@[bb][kk];
            assert(c1[bb][kk] == (if y == last {
                x_i
            } else {
                y
            }));
            assert(pre.places@[y] == (bb, kk));
            assert(y != x_i);
            if y == last {
                assert(x_i < last);
            } else {
                if (x as int) < last {
                    let mvd = pre.entries@[last];
                    if mvd.prev != usize::MAX && y == mvd.prev as int {
                    } else if mvd.next != usize::MAX && y == mvd.next as int {
                    } else {
                        assert(post.entries@[y] == pre.entries@[y]);
                    }
                }
            }
        }
        assert forall|bb: int, k1: int, k2: int|
            #![trigger c1[bb][k1], c1[bb][k2]]
            0 <= bb < m && 0 <= k1 < k2 < c1[bb].len() && post.entries@[c1[bb][k1]].hash
                == post.entries@[c1[bb][k2]].hash implies post.entries@[c1[bb][k1 + 1]].hash
            == post.entries@[c1[bb][k1]].hash by {
            assert(pre.chains@[bb][k1] == pre.chains@[bb][k1]);
            assert(pre.chains@[bb][k2] == pre.chains@[bb][k2]);
            assert(pre.chains@[bb][k1 + 1] == pre.chains@[bb][k1 + 1]);
        }
    }

    /// After the relocation, every hash's matches read `x` where they read
    /// `last`.
    proof fn lemma_relocate_matches(pre: Self, post: Self, x: usize, last: int)
        requires
            Self::relocate_shape(pre, post, x, last),
        ensures
            forall|h: usize|
                post.matches_of(h) == rename_value(pre.matches_of(h), last, x as int),
            post.hashes() == pre.hashes().update(x as int, pre.hashes()[last]).drop_last(),
    {
        let n = pre.entries@.len() as int;
        let m = pre.table@.len() as int;
        let x_i = x as int;
        assert(post.hashes() =~= pre.hashes().update(x_i, pre.hashes()[last]).drop_last()) by {
            assert forall|i: int| 0 <= i < last implies #[trigger] post.hashes()[i]
                == pre.hashes().update(x_i, pre.hashes()[last]).drop_last()[i] by {
                if i == x_i && x_i < last {
                    assert(post.entries@[x_i].hash == pre.entries@[last].hash);
                } else {
                    if (x as int) < last {
                        let mvd = pre.entries@[last];
                        if mvd.prev != usize::MAX && i == mvd.prev as int {
                        } else if mvd.next != usize::MAX && i == mvd.next as int {
                        } else {
                            assert(post.entries@[i] == pre.entries@[i]);
                        }
                    }
                }
            }
        }
        assert forall|h: usize|
            post.matches_of(h) == rename_value(pre.matches_of(h), last, x_i) by {
            let ph_old = hash_match_pred(pre.hashes(), h);
            let ph_new = hash_match_pred(post.hashes(), h);
            let bb = pre.bucket_index(h);
            assert(post.bucket_index(h) == bb);
            let chain = pre.chains@[bb];
            assert(0 <= bb < m) by {
                assert((h as int) % m >= 0) by (nonlinear_arith)
                    requires
                        m > 0,
                ;
                assert((h as int) % m < m) by (nonlinear_arith)
                    requires
                        m > 0,
                ;
            }
            assert(post.chains@[bb] == rename_value(chain, last, x_i));
            assert forall|j: int| 0 <= j < chain.len() implies ph_new(
                if #[trigger] chain[j] == last {
                    x_i
                } else {
                    chain[j]
                },
            ) == ph_old(chain[j]) by {
                let y = chain[j];
                assert(pre.places@[y] == (bb, j));
                assert(y != x_i);
                if y == last {
                    assert(post.hashes()[x_i] == pre.hashes()[last]);
                } else {
                    assert(y < last);
                    assert(post.hashes()[y] == pre.hashes()[y]);
                }
            }
            lemma_rename_filter(chain, ph_old, ph_new, last, x_i);
        }
    }

    /// Whether an insertion would push the load factor past 0.7 (entries
    /// per bucket, the threshold rounded half-up).
    spec fn table_full_spec(&self) -> bool {
        self.table_size() == 0 || self.num_spec() > (7 * self.table_size() + 5) / 10
    }

    fn table_is_full(&self) -> (r: bool)
        ensures
            r == self.table_full_spec(),
    {
        let table_num = self.table.num();
        if table_num == 0 {
            true
        } else {
            let threshold = (7 * (table_num as u128) + 5) / 10;
            (self.entries.num() as u128) > threshold
        }
    }

    /// Rebuild the bucket table with `new_table_size` slots and re-splice
    /// every entry, in ascending index order. The stored elements and their
    /// hashes are untouched.
    pub fn rehash(&mut self, new_table_size: usize)
        requires
            old(self).wf(),
            new_table_size > 0,
        ensures
            final(self).wf(),
            final(self)@ == old(self)@,
            final(self).hashes() == old(self).hashes(),
            final(self).num_spec() == old(self).num_spec(),
            final(self).table_size() == new_table_size as int,
            final(self).cap_spec() == old(self).cap_spec(),
    {
        self.table.clear();
        self.table.set_capacity(new_table_size);
        self.table.insert_range(0, new_table_size, usize::MAX);

        let entries_num = self.entries.num();
        let mut index: usize = 0;
        while index < entries_num
            invariant
                self.data == old(self).data,
                self.table@.len() == new_table_size as int,
                forall|b: int| 0 <= b < new_table_size as int ==> self.table@[b] == usize::MAX,
                self.table.wf(),
                self.entries.wf(),
                self.entries@.len() == entries_num,
                entries_num as int == old(self).num_spec(),
                self.entries.cap_spec() == old(self).cap_spec(),
                index <= entries_num,
                forall|i: int|
                    0 <= i < entries_num as int ==> (#[trigger] self.entries@[i]).hash == old(
                        self,
                    ).entries@[i].hash,
                forall|i: int|
                    0 <= i < entries_num as int ==> (#[trigger] self.entries@[i]).index == old(
                        self,
                    ).entries@[i].index,
                forall|i: int|
                    0 <= i < index as int ==> (#[trigger] self.entries@[i]).prev == usize::MAX
                        && self.entries@[i].next == usize::MAX,
                self.places@ == old(self).places@,
            decreases entries_num - index,
        {
            let mut entry = *self.entries.index(index);
            entry.prev = usize::MAX;
            entry.next = usize::MAX;
            *self.entries.index_mut(index) = entry;
            index = index + 1;
        }

        self.chains = Ghost(Seq::new(new_table_size as nat, |b: int| Seq::<int>::empty()));

        proof {
            assert(self.hashes() =~= old(self).hashes());
        }

        index = 0;
        while index < entries_num
            invariant
                self.chains_wf(),
                self.spliced_upto(index as int),
                self.chain_elems_below(index as int),
                self.detached_from(index as int),
                index <= entries_num,
                self.num_spec() == entries_num as int,
                self@ == old(self)@,
                self.hashes() == old(self).hashes(),
                self.table_size() == new_table_size as int,
                self.cap_spec() == old(self).cap_spec(),
            decreases entries_num - index,
        {
            self.setup_new_entry(index);
            index = index + 1;
        }
    }

    fn grow_table(&mut self)
        requires
            old(self).wf(),
        ensures
            final(self).wf(),
            final(self)@ == old(self)@,
            final(self).hashes() == old(self).hashes(),
            final(self).num_spec() == old(self).num_spec(),
            final(self).table_size() > 0,
            final(self).cap_spec() == old(self).cap_spec(),
    {
        let table_num = self.table.num();
        let wanted = 2 * (table_num as u128) + 8;
        let max_size = usize::MAX - 1;
        let new_table_size = if wanted > (max_size as u128) {
            max_size
        } else {
            wanted as usize
        };
        self.rehash(new_table_size);
    }

    /// Append an element under `hash`: grow the table first if the load
    /// factor calls for it, then splice the new entry in as the head of its
    /// hash's run, so the most recently inserted duplicate is found first.
    pub fn insert_data(&mut self, hash: usize, value: T) -> (r: usize)
        requires
            old(self).wf(),
            old(self).num_spec() + 1 < usize::MAX,
        ensures
            final(self).wf(),
            r as int == old(self).num_spec(),
            final(self)@ == old(self)@.push(value),
            final(self).hashes() == old(self).hashes().push(hash),
            final(self).num_spec() == old(self).num_spec() + 1,
            final(self).table_size() > 0,
            final(self).matches_of(hash).len() > 0,
            final(self).matches_of(hash)[0] == old(self).num_spec(),
    {
        if self.table_is_full() {
            self.grow_table();
        }

        let new_entry_index = self.entries.num();
        let new_entry = RawSetEntry {
            hash,
            index: new_entry_index,
            prev: usize::MAX,
            next: usize::MAX,
        };
        self.entries.push_back(new_entry);
        self.data.allocate_back(value);
        self.places = Ghost(self.places@.push((0int, 0int)));

        let ghost pre_splice = *self;

        proof {
            assert(pre_splice.chains_wf());
            assert(pre_splice.spliced_upto(new_entry_index as int));
            assert(pre_splice.chain_elems_below(new_entry_index as int));
            assert(pre_splice.detached_from(new_entry_index as int));
            assert(pre_splice.hashes() =~= old(self).hashes().push(hash));
        }

        self.setup_new_entry(new_entry_index);

        new_entry_index
    }

    /// Remove the element at `index` with swap-with-last semantics: it is
    /// unlinked from its chain, the payload and entry arrays swap-remove it,
    /// and the entry that moved into its slot has its own position and its
    /// neighbours' links corrected.
    #[verifier::rlimit(100)]
    #[verifier::spinoff_prover]
    pub fn remove_data(&mut self, index: usize) -> (r: T)
        requires
            old(self).wf(),
            (index as int) < old(self).num_spec(),
        ensures
            final(self).wf(),
            r == old(self)@[index as int],
            final(self)@ == old(self)@.update(index as int, old(self)@.last()).drop_last(),
            final(self).hashes() == old(self).hashes().update(
                index as int,
                old(self).hashes().last(),
            ).drop_last(),
            final(self).num_spec() == old(self).num_spec() - 1,
            final(self).table_size() == old(self).table_size(),
            final(self).cap_spec() == old(self).cap_spec(),
            forall|h: usize|
                final(self).matches_of(h) == rename_value(
                    without_value(old(self).matches_of(h), index as int),
                    old(self).num_spec() - 1,
                    index as int,
                ),
    {
        let ghost b = self.places@[index as int].0;
        let ghost k = self.places@[index as int].1;
        let ghost n = self.entries@.len() as int;
        let ghost c0 = self.chains@;
        let ghost p0 = self.places@;
        let ghost chain = c0[b];
        proof {
            assert(chain[k] == index as int);
        }

        let rem = *self.entries.index(index);

        // Unlink `index` from its chain.
        if rem.prev == usize::MAX {
            let table_num = self.table.num();
            let table_index = rem.hash % table_num;
            proof {
                assert(table_index as int == b);
            }
            *self.table.index_mut(table_index) = rem.next;
        } else {
            let mut prev_entry = *self.entries.index(rem.prev);
            prev_entry.next = rem.next;
            *self.entries.index_mut(rem.prev) = prev_entry;
        }
        if rem.next != usize::MAX {
            let mut next_entry = *self.entries.index(rem.next);
            next_entry.prev = rem.prev;
            *self.entries.index_mut(rem.next) = next_entry;
        }
        self.chains = Ghost(c0.update(b, chain.remove(k)));
        self.places = Ghost(
            Seq::new(
                p0.len(),
                |i: int|
                    if i == index as int {
                        p0[i]
                    } else if p0[i].0 == b && p0[i].1 > k {
                        (b, p0[i].1 - 1)
                    } else {
                        p0[i]
                    },
            ),
        );

        proof {
            let pre = *old(self);
            let post = *self;
            assert(post.places@.len() == n);
            assert(forall|i: int|
                0 <= i < n ==> #[trigger] post.places@[i] == (if i == index as int {
                    pre.places@[i]
                } else if pre.places@[i].0 == b && pre.places@[i].1 > k {
                    (b, pre.places@[i].1 - 1)
                } else {
                    pre.places@[i]
                }));
            assert(k > 0 ==> rem.prev as int == chain[k - 1]);
            assert(k < chain.len() - 1 ==> rem.next as int == chain[k + 1]);
            assert(k == 0 <==> rem.prev == usize::MAX);
            assert(Self::unsplice_shape(pre, post, index, b, k));
            Self::lemma_unsplice_ranges(pre, post, index, b, k);
            Self::lemma_unsplice_links(pre, post, index, b, k);
            Self::lemma_unsplice_runs(pre, post, index, b, k);
            Self::lemma_unsplice_matches(pre, post, index, b, k);
        }

        let ghost mid = *self;

        // Swap-remove the parallel arrays and relocate the moved entry.
        let last_index = self.entries.num() - 1;
        let ghost last = last_index as int;
        let _removed_entry = self.entries.swap_remove(index);
        let r = self.data.swap_remove(index);

        if index < last_index {
            let mut moved = *self.entries.index(index);
            moved.index = index;
            *self.entries.index_mut(index) = moved;
            let mvd = *self.entries.index(index);
            proof {
                // The moved entry's neighbours are chain members distinct
                // from both `index` and `last`, so they survived the
                // swap-remove in place.
                let bl = mid.places@[last].0;
                let kl = mid.places@[last].1;
                assert(mid.chains@[bl][kl] == last);
                assert(mvd.prev == mid.entries@[last].prev);
                assert(mvd.next == mid.entries@[last].next);
                if mvd.prev != usize::MAX {
                    assert(mvd.prev as int == mid.chains@[bl][kl - 1]);
                    assert(mid.places@[mid.chains@[bl][kl - 1]] == (bl, kl - 1));
                    assert(mvd.prev as int != last);
                    assert(mvd.prev as int != index as int);
                }
                if mvd.next != usize::MAX {
                    assert(mvd.next as int == mid.chains@[bl][kl + 1]);
                    assert(mid.places@[mid.chains@[bl][kl + 1]] == (bl, kl + 1));
                    assert(mvd.next as int != last);
                    assert(mvd.next as int != index as int);
                }
            }
            if mvd.prev == usize::MAX {
                let table_num = self.table.num();
                let moved_table_index = mvd.hash % table_num;
                *self.table.index_mut(moved_table_index) = index;
            } else {
                let mut pe = *self.entries.index(mvd.prev);
                pe.next = index;
                *self.entries.index_mut(mvd.prev) = pe;
            }
            if mvd.next != usize::MAX {
                let mut ne = *self.entries.index(mvd.next);
                ne.prev = index;
                *self.entries.index_mut(mvd.next) = ne;
            }
        }

        self.chains = Ghost(
            Seq::new(
                mid.chains@.len(),
                |bb: int| rename_value(mid.chains@[bb], last, index as int),
            ),
        );
        self.places = Ghost(
            Seq::new(
                (n - 1) as nat,
                |i: int|
                    if i == index as int {
                        mid.places@[last]
                    } else {
                        mid.places@[i]
                    },
            ),
        );

        proof {
            let post = *self;
            assert(post.chains@.len() == mid.table@.len() as int);
            assert(forall|bb: int|
                0 <= bb < mid.table@.len() as int ==> #[trigger] post.chains@[bb] == rename_value(
                    mid.chains@[bb],
                    last,
                    index as int,
                ));
            assert(post.places@.len() == last);
            assert(forall|i: int|
                0 <= i < last ==> #[trigger] post.places@[i] == (if i == index as int {
                    mid.places@[last]
                } else {
                    mid.places@[i]
                }));
            assert(Self::relocate_shape(mid, post, index, last));
            Self::lemma_relocate_ranges(mid, post, index, last);
            Self::lemma_relocate_links(mid, post, index, last);
            Self::lemma_relocate_runs(mid, post, index, last);
            Self::lemma_relocate_matches(mid, post, index, last);
            assert(mid.hashes() =~= old(self).hashes());
            assert(self.hashes() =~= old(self).hashes().update(
                index as int,
                old(self).hashes().last(),
            ).drop_last());
            assert forall|h: usize|
                self.matches_of(h) == rename_value(
                    without_value(old(self).matches_of(h), index as int),
                    n - 1,
                    index as int,
                ) by {
                assert(self.matches_of(h) == rename_value(mid.matches_of(h), last, index as int));
                assert(mid.matches_of(h) == without_value(
                    old(self).matches_of(h),
                    index as int,
                ));
            }
        }

        r
    }

    /// Drop every element and reset each bucket to empty; the reserved
    /// capacities and the table size are retained.
    pub fn clear(&mut self)
        requires
            old(self).wf(),
        ensures
            final(self).wf(),
            final(self)@ == Seq::<T>::empty(),
            final(self).hashes() == Seq::<usize>::empty(),
            final(self).num_spec() == 0,
            final(self).table_size() == old(self).table_size(),
            final(self).cap_spec() == old(self).cap_spec(),
            forall|h: usize| final(self).matches_of(h) == Seq::<int>::empty(),
    {
        self.data.clear();
        self.entries.clear();

        let table_num = self.table.num();
        let mut table_index: usize = 0;
        while table_index < table_num
            invariant
                table_index <= table_num,
                self.table@.len() == table_num,
                self.table.wf(),
                self.table.cap_spec() == old(self).table.cap_spec(),
                forall|b: int| 0 <= b < table_index as int ==> self.table@[b] == usize::MAX,
                self.data@.len() == 0,
                self.data.wf(),
                self.data.cap_spec() == old(self).data.cap_spec(),
                self.entries@.len() == 0,
                self.entries.wf(),
                self.entries.cap_spec() == old(self).entries.cap_spec(),
            decreases table_num - table_index,
        {
            *self.table.index_mut(table_index) = usize::MAX;
            table_index = table_index + 1;
        }

        self.chains = Ghost(Seq::new(self.table@.len(), |b: int| Seq::<int>::empty()));
        self.places = Ghost(Seq::empty());

        proof {
            assert(self.hashes() =~= Seq::<usize>::empty());
            assert forall|h: usize| self.matches_of(h) == Seq::<int>::empty() by {
                if self.table@.len() != 0 {
                    let m = self.table@.len() as int;
                    assert(0 <= self.bucket_index(h) < m) by {
                        assert((h as int) % m >= 0) by (nonlinear_arith)
                            requires
                                m > 0,
                        ;
                        assert((h as int) % m < m) by (nonlinear_arith)
                            requires
                                m > 0,
                        ;
                    }
                    assert(self.chains@[self.bucket_index(h)] =~= Seq::<int>::empty());
                    assert(Seq::<int>::empty().filter(hash_match_pred(self.hashes(), h))
                        =~= Seq::<int>::empty()) by {
                        reveal(Seq::filter);
                    }
                }
            }
        }
    }

    /// The reserved payload capacity, in elements.
    pub fn capacity(&self) -> (r: usize)
        ensures
            r as int == self.cap_spec(),
    {
        self.entries.capacity()
    }

    /// Reserve room for exactly `capacity` elements in the payload and
    /// entry arrays, clamped so that live elements are never truncated.
    pub fn set_capacity(&mut self, capacity: usize)
        requires
            old(self).wf(),
        ensures
            final(self).wf(),
            final(self)@ == old(self)@,
            final(self).hashes() == old(self).hashes(),
            final(self).num_spec() == old(self).num_spec(),
            final(self).table_size() == old(self).table_size(),
            final(self).cap_spec() == if capacity as int >= old(self).num_spec() {
                capacity as int
            } else {
                old(self).num_spec()
            },
            forall|h: usize| final(self).matches_of(h) == old(self).matches_of(h),
    {
        self.entries.set_capacity(capacity);
        self.data.set_capacity(capacity);
    }

    /// Grow the reserved capacity only if `additional` more elements would
    /// not fit.
    pub fn reserve(&mut self, additional: usize)
        requires
            old(self).wf(),
            old(self).num_spec() + additional <= usize::MAX,
        ensures
            final(self).wf(),
            final(self)@ == old(self)@,
            final(self).hashes() == old(self).hashes(),
            final(self).num_spec() == old(self).num_spec(),
            final(self).table_size() == old(self).table_size(),
            final(self).cap_spec() >= old(self).num_spec() + additional,
            forall|h: usize| final(self).matches_of(h) == old(self).matches_of(h),
    {
        let wanted_capacity = self.entries.num() + additional;
        if wanted_capacity > self.capacity() {
            self.set_capacity(wanted_capacity);
        }
    }

    pub fn num(&self) -> (r: usize)
        ensures
            r as int == self.num_spec(),
    {
        self.entries.num()
    }

    pub fn is_empty(&self) -> (r: bool)
        ensures
            r == (self.num_spec() == 0),
    {
        self.entries.is_empty()
    }

    /// The stored hash of the element at `index`.
    pub fn get_hash(&self, index: usize) -> (r: usize)
        requires
            self.wf(),
            (index as int) < self.num_spec(),
        ensures
            r == self.hashes()[index as int],
    {
        self.entries.index(index).hash
    }

    /// A shared reference to the element at `index`.
    pub fn get_data(&self, index: usize) -> (r: &T)
        requires
            self.wf(),
            (index as int) < self.num_spec(),
        ensures
            *r == self@[index as int],
    {
        self.data.index(index)
    }

    /// A mutable reference to the element at `index`. The hashes and the
    /// chain structure are untouched, so well-formedness survives whatever
    /// the caller writes through the reference.
    pub fn get_data_mut(&mut self, index: usize) -> (r: &mut T)
        requires
            old(self).wf(),
            (index as int) < old(self).num_spec(),
        ensures
            *r == old(self)@[index as int],
            final(self)@ == old(self)@.update(index as int, *final(r)),
            final(self).wf(),
            final(self).hashes() == old(self).hashes(),
            final(self).num_spec() == old(self).num_spec(),
            final(self).table_size() == old(self).table_size(),
            final(self).cap_spec() == old(self).cap_spec(),
            forall|h: usize| final(self).matches_of(h) == old(self).matches_of(h),
    {
        self.data.index_mut(index)
    }

    /// The payload as a slice, in slot order.
    pub fn as_slice(&self) -> (r: &[T])
        ensures
            r@ == self@,
    {
        self.data.as_slice()
    }

    /// The payload as a read-only slice: the verified stand-in for a base
    /// pointer, which has no checked counterpart.
    pub fn as_ptr(&self) -> (r: &[T])
        ensures
            r@ == self@,
    {
        self.data.as_slice()
    }

    /// The payload as a mutable slice: the verified stand-in for a mutable
    /// base pointer. The chain structure never reads the payload, so
    /// well-formedness survives whatever the caller writes.
    pub fn as_mut_ptr(&mut self) -> (r: &mut [T])
        requires
            old(self).wf(),
        ensures
            r@ == old(self)@,
            final(self)@ == final(r)@,
            final(self).hashes() == old(self).hashes(),
            final(self).num_spec() == old(self).num_spec(),
            final(self).table_size() == old(self).table_size(),
            final(self).cap_spec() == old(self).cap_spec(),
            forall|h: usize| final(self).matches_of(h) == old(self).matches_of(h),
            final(r)@.len() == old(self)@.len() ==> final(self).wf(),
    {
        self.data.as_mut_slice()
    }
}

} // verus!
