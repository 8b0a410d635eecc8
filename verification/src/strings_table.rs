use vstd::prelude::*;
use vstd::seq_lib::*;
use vstd::string::StringSliceAdditionalSpecFns;

use crate::fast_hash::{lower_bytes_spec, fnv_hash, fnv_hash_spec, FastHash, SetKey};
use crate::raw_set::RawSet;

verus! {

broadcast use crate::raw_set::lemma_raw_set_dims;

/// The longest byte string the interning table stores.
pub const STRINGS_TABLE_ENTRY_MAX_LEN: usize = 128;

/// One when the probe is still running, zero once a match is held.
spec fn still_probing(found: usize) -> int {
    if found == usize::MAX {
        1
    } else {
        0
    }
}

/// Whether two byte strings are equal up to ASCII case.
pub open spec fn ci_eq_spec(a: Seq<u8>, b: Seq<u8>) -> bool {
    lower_bytes_spec(a) == lower_bytes_spec(b)
}

/// One interned string, stored in the casing of its first writer.
struct StringsTableEntry {
    data: String,
}

/// The UTF-8 bytes an entry stores.
spec fn entry_bytes(entry: StringsTableEntry) -> Seq<u8> {
    vstd::utf8::encode_utf8(entry.data@)
}

/// Whether two byte slices hold case-insensitively equal bytes.
fn bytes_eq_ignore_case(a: &[u8], b: &[u8]) -> (r: bool)
    ensures
        r == ci_eq_spec(a@, b@),
{
    let a_len = a.len();
    let b_len = b.len();
    if a_len != b_len {
        proof {
            assert(lower_bytes_spec(a@).len() == a_len);
            assert(lower_bytes_spec(b@).len() == b_len);
        }
        return false;
    }
    let mut i: usize = 0;
    while i < a_len
        invariant
            i <= a_len,
            a@.len() == a_len,
            b@.len() == a_len,
            forall|j: int|
                0 <= j < i ==> crate::fast_hash::lower_byte_spec(a@[j])
                    == crate::fast_hash::lower_byte_spec(b@[j]),
        decreases a_len - i,
    {
        let ab = a[i];
        let bb = b[i];
        let al = if ab >= 65 && ab <= 90 {
            ab + 32
        } else {
            ab
        };
        let bl = if bb >= 65 && bb <= 90 {
            bb + 32
        } else {
            bb
        };
        if al != bl {
            proof {
                assert(lower_bytes_spec(a@)[i as int] != lower_bytes_spec(b@)[i as int]);
            }
            return false;
        }
        i = i + 1;
    }
    proof {
        assert(lower_bytes_spec(a@) =~= lower_bytes_spec(b@));
    }
    true
}

/// A deduplicating store of strings: case-insensitive probing, first-writer
/// casing, and cheap handles (`StringAtom`) that compare by hash and slot
/// alone. It is an owned service object; callers needing cross-thread
/// sharing must add their own synchronization.
pub struct StringsTable {
    initialized: bool,
    table: RawSet<StringsTableEntry>,
}

impl StringsTable {
    /// The interned strings' bytes, by slot.
    pub closed spec fn strings(&self) -> Seq<Seq<u8>> {
        Seq::new(self.table@.len(), |i: int| entry_bytes(self.table@[i]))
    }

    /// Every stored hash is its entry's case-insensitive FNV-1a hash, no
    /// entry is overlong, and no two entries are case-insensitively equal.
    pub closed spec fn wf(&self) -> bool {
        &&& self.table.wf()
        &&& (forall|i: int|
            0 <= i < self.table@.len() ==> (#[trigger] self.table.hashes()[i]) == fnv_hash_spec(
                entry_bytes(self.table@[i]),
                true,
            ) as usize)
        &&& (forall|i: int|
            0 <= i < self.table@.len() ==> (#[trigger] entry_bytes(self.table@[i])).len()
                <= STRINGS_TABLE_ENTRY_MAX_LEN as int)
        &&& (forall|i: int, j: int|
            #![trigger ci_eq_spec(entry_bytes(self.table@[i]), entry_bytes(self.table@[j]))]
            0 <= i < self.table@.len() && 0 <= j < self.table@.len() && i != j ==> !ci_eq_spec(
                entry_bytes(self.table@[i]),
                entry_bytes(self.table@[j]),
            ))
    }

    /// Whether some slot holds a case-insensitive match of `bytes`.
    pub open spec fn is_interned(&self, bytes: Seq<u8>) -> bool {
        exists|i: int|
            0 <= i < self.strings().len() && ci_eq_spec(#[trigger] self.strings()[i], bytes)
    }

    /// The slot matching `bytes` (meaningful when interned).
    pub open spec fn intern_index(&self, bytes: Seq<u8>) -> int {
        choose|i: int|
            0 <= i < self.strings().len() && ci_eq_spec(#[trigger] self.strings()[i], bytes)
    }

    /// Interning resolves case-insensitively equal byte strings to the one
    /// slot: the canonical casing is whichever variant was stored first.
    pub proof fn lemma_interning_deterministic(&self, bytes1: Seq<u8>, bytes2: Seq<u8>)
        requires
            self.wf(),
            ci_eq_spec(bytes1, bytes2),
        ensures
            self.is_interned(bytes1) == self.is_interned(bytes2),
            self.is_interned(bytes1) ==> self.intern_index(bytes1) == self.intern_index(bytes2),
    {
        assert(self.is_interned(bytes1) == self.is_interned(bytes2)) by {
            if self.is_interned(bytes1) {
                let i = self.intern_index(bytes1);
                assert(ci_eq_spec(self.strings()[i], bytes2));
            }
            if self.is_interned(bytes2) {
                let i = self.intern_index(bytes2);
                assert(ci_eq_spec(self.strings()[i], bytes1));
            }
        }
        if self.is_interned(bytes1) {
            let i1 = self.intern_index(bytes1);
            let i2 = self.intern_index(bytes2);
            assert(ci_eq_spec(self.strings()[i1], bytes2));
            if i1 != i2 {
                assert(ci_eq_spec(self.strings()[i1], self.strings()[i2]));
            }
        }
    }

    pub fn new() -> (r: Self)
        ensures
            r.wf(),
            r.strings() == Seq::<Seq<u8>>::empty(),
    {
        let r = StringsTable { initialized: false, table: RawSet::for_type() };
        proof {
            assert(r.strings() =~= Seq::<Seq<u8>>::empty());
        }
        r
    }

    pub fn lazy_init(&mut self)
        requires
            old(self).wf(),
        ensures
            final(self).wf(),
            final(self).strings() == old(self).strings(),
    {
        if !self.initialized {
            self.initialized = true;
        }
    }

    /// A slot whose entry matches `bytes` case-insensitively is the unique
    /// interned slot for them.
    proof fn lemma_found_match(&self, bytes: Seq<u8>, found: int)
        requires
            self.wf(),
            0 <= found < self.table@.len(),
            ci_eq_spec(entry_bytes(self.table@[found]), bytes),
        ensures
            self.is_interned(bytes),
            self.intern_index(bytes) == found,
    {
        assert(self.is_interned(bytes)) by {
            assert(ci_eq_spec(self.strings()[found], bytes));
        }
        let i = self.intern_index(bytes);
        if i != found {
            assert(ci_eq_spec(entry_bytes(self.table@[i]), entry_bytes(self.table@[found])));
        }
    }

    /// When no element of `hash`'s run matches `bytes`, nothing in the
    /// table does: a match would share the case-insensitive hash.
    proof fn lemma_no_match_anywhere(&self, hash: usize, bytes: Seq<u8>)
        requires
            self.wf(),
            hash == fnv_hash_spec(bytes, true) as usize,
            forall|jj: int|
                0 <= jj < self.table.matches_of(hash).len() ==> !ci_eq_spec(
                    entry_bytes(self.table@[self.table.matches_of(hash)[jj]]),
                    bytes,
                ),
        ensures
            forall|i: int|
                0 <= i < self.table@.len() ==> !ci_eq_spec(
                    entry_bytes(#[trigger] self.table@[i]),
                    bytes,
                ),
            !self.is_interned(bytes),
    {
        let ms = self.table.matches_of(hash);
        self.table.lemma_matches_characterize(hash);
        assert forall|i: int|
            0 <= i < self.table@.len() implies !ci_eq_spec(
            entry_bytes(#[trigger] self.table@[i]),
            bytes,
        ) by {
            if ci_eq_spec(entry_bytes(self.table@[i]), bytes) {
                crate::fast_hash::lemma_fnv_lowercase(entry_bytes(self.table@[i]));
                crate::fast_hash::lemma_fnv_lowercase(bytes);
                assert(self.table.hashes()[i] == hash);
                assert(ms.contains(i));
                let jj = choose|jj: int| 0 <= jj < ms.len() && ms[jj] == i;
                assert(!ci_eq_spec(entry_bytes(self.table@[ms[jj]]), bytes));
            }
        }
        assert(!self.is_interned(bytes)) by {
            if self.is_interned(bytes) {
                let i = self.intern_index(bytes);
                assert(self.strings()[i] == entry_bytes(self.table@[i]));
            }
        }
    }

    /// Appending an entry that matches nothing keeps the table
    /// well-formed, and interns exactly its bytes at the new slot.
    proof fn lemma_intern_insert(pre: Self, post: Self, entry: StringsTableEntry, hash: usize)
        requires
            pre.wf(),
            entry_bytes(entry).len() <= STRINGS_TABLE_ENTRY_MAX_LEN as int,
            hash == fnv_hash_spec(entry_bytes(entry), true) as usize,
            forall|i: int|
                0 <= i < pre.table@.len() ==> !ci_eq_spec(
                    entry_bytes(#[trigger] pre.table@[i]),
                    entry_bytes(entry),
                ),
            post.table.wf(),
            post.table@ == pre.table@.push(entry),
            post.table.hashes() == pre.table.hashes().push(hash),
        ensures
            post.wf(),
            post.strings() == pre.strings().push(entry_bytes(entry)),
            post.is_interned(entry_bytes(entry)),
            post.intern_index(entry_bytes(entry)) == pre.table@.len(),
    {
        let n = pre.table@.len() as int;
        let target = entry_bytes(entry);
        assert(post.strings() =~= pre.strings().push(target));
        assert forall|i: int, jx: int|
            #![trigger ci_eq_spec(entry_bytes(post.table@[i]), entry_bytes(post.table@[jx]))]
            0 <= i < post.table@.len() && 0 <= jx < post.table@.len() && i != jx implies !ci_eq_spec(
            entry_bytes(post.table@[i]),
            entry_bytes(post.table@[jx]),
        ) by {
            if i < n && jx < n {
                assert(post.table@[i] == pre.table@[i]);
                assert(post.table@[jx] == pre.table@[jx]);
                assert(!ci_eq_spec(entry_bytes(pre.table@[i]), entry_bytes(pre.table@[jx])));
            } else if i == n {
                if ci_eq_spec(entry_bytes(post.table@[i]), entry_bytes(post.table@[jx])) {
                    assert(ci_eq_spec(entry_bytes(pre.table@[jx]), target));
                }
            } else {
                if ci_eq_spec(entry_bytes(post.table@[i]), entry_bytes(post.table@[jx])) {
                    assert(ci_eq_spec(entry_bytes(pre.table@[i]), target));
                }
            }
        }
        post.lemma_found_match(target, n);
    }

    /// Resolve `string` to its atom: a case-insensitive match reuses the
    /// existing slot (and its first-writer casing); otherwise the string is
    /// stored as given. The caller supplies the case-insensitive hash.
    #[verifier::rlimit(100)]
    pub fn get_or_add_string(&mut self, hash: usize, string: &str) -> (r: StringAtom)
        requires
            old(self).wf(),
            string.spec_bytes().len() <= STRINGS_TABLE_ENTRY_MAX_LEN as int,
            hash == fnv_hash_spec(string.spec_bytes(), true) as usize,
            old(self).strings().len() + 1 < usize::MAX,
        ensures
            final(self).wf(),
            old(self).is_interned(string.spec_bytes()) ==> {
                &&& final(self).strings() == old(self).strings()
                &&& r.slot_spec() == old(self).intern_index(string.spec_bytes())
            },
            !old(self).is_interned(string.spec_bytes()) ==> {
                &&& final(self).strings() == old(self).strings().push(string.spec_bytes())
                &&& r.slot_spec() == old(self).strings().len() as int
            },
            r.hash_spec() == hash,
            (r.len_spec() == 0) == (string.spec_bytes().len() == 0),
            final(self).is_interned(string.spec_bytes()),
            0 <= r.slot_spec() < final(self).strings().len(),
            ci_eq_spec(final(self).strings()[r.slot_spec()], string.spec_bytes()),
    {
        self.lazy_init();

        let bytes = string.as_bytes();
        let ghost target = string.spec_bytes();
        let ghost ms = self.table.matches_of(hash);
        proof {
            self.table.lemma_matches_characterize(hash);
            assert forall|jj: int|
                0 <= jj < ms.len() implies 0 <= #[trigger] ms[jj] < self.table@.len()
                && self.table.hashes()[ms[jj]] == hash by {
                assert(ms.contains(ms[jj]));
            }
        }

        let mut entry_index = self.table.find_first_index(hash);
        let ghost mut j: int = 0;
        let mut found = usize::MAX;
        while entry_index != usize::MAX && found == usize::MAX
            invariant
                self.wf(),
                self.strings() == old(self).strings(),
                bytes@ == target,
                ms == self.table.matches_of(hash),
                self.table@.len() < usize::MAX as int,
                forall|jj: int|
                    0 <= jj < ms.len() ==> 0 <= #[trigger] ms[jj] < self.table@.len()
                        && self.table.hashes()[ms[jj]] == hash,
                0 <= j <= ms.len(),
                found == usize::MAX ==> (entry_index == usize::MAX <==> j == ms.len()),
                found == usize::MAX && entry_index != usize::MAX ==> entry_index as int == ms[j],
                forall|jj: int|
                    0 <= jj < j ==> !ci_eq_spec(
                        entry_bytes(self.table@[ms[jj]]),
                        target,
                    ),
                found != usize::MAX ==> {
                    &&& 0 <= (found as int) < self.table@.len()
                    &&& ci_eq_spec(entry_bytes(self.table@[found as int]), target)
                },
            decreases ms.len() - j + still_probing(found),
        {
            let entry = self.table.get_data(entry_index);
            if bytes_eq_ignore_case(entry.data.as_str().as_bytes(), bytes) {
                found = entry_index;
            } else {
                proof {
                    assert(self.table.matches_of(self.table.hashes()[entry_index as int])[j]
                        == entry_index as int);
                }
                let next = self.table.find_next_index(entry_index);
                proof {
                    if j < ms.len() - 1 {
                        assert(ms.contains(ms[j + 1]));
                        assert(next as int == ms[j + 1]);
                        assert(next != usize::MAX);
                    } else {
                        assert(next == usize::MAX);
                    }
                    j = j + 1;
                }
                entry_index = next;
            }
        }

        if found == usize::MAX {
            proof {
                self.lemma_no_match_anywhere(hash, target);
            }
            let ghost pre = *self;
            let new_entry = StringsTableEntry { data: string.to_owned() };
            let ghost new_entry_snap = new_entry;
            let len = string.as_bytes().len();
            let new_index = self.table.insert_data(hash, new_entry);
            proof {
                assert(entry_bytes(new_entry_snap) == target);
                Self::lemma_intern_insert(pre, *self, new_entry_snap, hash);
            }
            StringAtom { hash, slot: new_index, len }
        } else {
            let entry = self.table.get_data(found);
            let len = entry.data.as_str().as_bytes().len();
            proof {
                // Case folding keeps lengths, so the stored casing is as
                // long as the probe string.
                assert(lower_bytes_spec(entry_bytes(self.table@[found as int])).len()
                    == lower_bytes_spec(target).len());
                self.lemma_found_match(target, found as int);
                assert(old(self).is_interned(target));
                assert(old(self).intern_index(target) == found as int);
            }
            StringAtom { hash, slot: found, len }
        }
    }

    /// The stored string behind an atom.
    pub fn resolve<'a>(&'a self, atom: &StringAtom) -> (r: &'a str)
        requires
            self.wf(),
            0 <= atom.slot_spec() < self.strings().len(),
        ensures
            vstd::utf8::encode_utf8(r@) == self.strings()[atom.slot_spec()],
    {
        self.table.get_data(atom.slot).data.as_str()
    }
}

/// A cheap handle to an interned string: its case-insensitive hash, its
/// slot in the table, and the stored length. Equality compares hash and
/// slot alone, which suffices because equal content always resolves to the
/// one slot.
#[derive(Clone, Copy, Debug, PartialEq, Eq, Structural)]
pub struct StringAtom {
    hash: usize,
    slot: usize,
    len: usize,
}

impl StringAtom {
    pub closed spec fn hash_field_spec(&self) -> usize {
        self.hash
    }

    pub closed spec fn slot_spec(&self) -> int {
        self.slot as int
    }

    pub closed spec fn len_spec(&self) -> int {
        self.len as int
    }

    /// The canonical empty atom, referring to no slot.
    pub fn none() -> (r: Self)
        ensures
            r.len_spec() == 0,
            r.hash_field_spec() == 0,
    {
        StringAtom { hash: 0, slot: usize::MAX, len: 0 }
    }

    /// Build an atom for `string`, interning it on first sight.
    pub fn new(table: &mut StringsTable, string: &str) -> (r: StringAtom)
        requires
            old(table).wf(),
            string.spec_bytes().len() <= STRINGS_TABLE_ENTRY_MAX_LEN as int,
            old(table).strings().len() + 1 < usize::MAX,
        ensures
            final(table).wf(),
            final(table).is_interned(string.spec_bytes()),
            0 <= r.slot_spec() < final(table).strings().len(),
            ci_eq_spec(final(table).strings()[r.slot_spec()], string.spec_bytes()),
            r.hash_field_spec() == fnv_hash_spec(string.spec_bytes(), true) as usize,
            old(table).is_interned(string.spec_bytes()) ==> {
                &&& final(table).strings() == old(table).strings()
                &&& r.slot_spec() == old(table).intern_index(string.spec_bytes())
            },
            !old(table).is_interned(string.spec_bytes()) ==> final(table).strings() == old(
                table,
            ).strings().push(string.spec_bytes()),
    {
        let hash = fnv_hash::<true>(string.as_bytes()) as usize;
        table.get_or_add_string(hash, string)
    }

    pub fn is_none(&self) -> (r: bool)
        ensures
            r == (self.len_spec() == 0),
    {
        self.len == 0
    }

    /// The interned string's canonical casing, or the empty string for the
    /// none atom.
    pub fn as_str<'a>(&self, table: &'a StringsTable) -> (r: &'a str)
        requires
            table.wf(),
            self.len_spec() > 0 ==> 0 <= self.slot_spec() < table.strings().len(),
        ensures
            self.len_spec() == 0 ==> r@ == Seq::<char>::empty(),
            self.len_spec() > 0 ==> vstd::utf8::encode_utf8(r@) == table.strings()[self.slot_spec()],
    {
        if self.len > 0 {
            table.resolve(self)
        } else {
            proof {
                reveal_strlit("");
            }
            ""
        }
    }
}

impl FastHash for StringAtom {
    closed spec fn hash_spec(&self) -> usize {
        self.hash
    }

    fn fast_hash(&self) -> (r: usize) {
        self.hash
    }
}

impl SetKey for StringAtom {
    closed spec fn key_eq_spec(&self, other: &Self) -> bool {
        self.hash == other.hash && self.slot == other.slot
    }

    fn key_eq(&self, other: &Self) -> (r: bool) {
        self.hash == other.hash && self.slot == other.slot
    }

    proof fn lemma_key_eq_reflexive(&self) {
    }

    proof fn lemma_key_eq_symmetric(&self, other: &Self) {
    }

    proof fn lemma_key_eq_transitive(&self, mid: &Self, other: &Self) {
    }

    proof fn lemma_key_eq_same_hash(&self, other: &Self) {
    }
}

} // verus!
