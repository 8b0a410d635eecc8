use vstd::prelude::*;

verus! {

/// ASCII lowercase folding of one byte.
pub open spec fn lower_byte_spec(b: u8) -> u8 {
    if 65 <= b <= 90 {
        (b + 32) as u8
    } else {
        b
    }
}

/// Lowercase folding of a byte sequence.
pub open spec fn lower_bytes_spec(bytes: Seq<u8>) -> Seq<u8> {
    bytes.map_values(|b: u8| lower_byte_spec(b))
}

/// One FNV-1a round: xor the byte in, multiply by the FNV prime modulo 2^32.
pub open spec fn fnv_step_spec(hash: u32, byte: u8) -> u32 {
    ((((hash ^ (byte as u32)) as int) * 16777619) % 0x1_0000_0000) as u32
}

/// FNV-1a over a byte sequence, optionally folding each byte to ASCII
/// lowercase first.
pub open spec fn fnv_hash_spec(bytes: Seq<u8>, lowercase: bool) -> u32
    decreases bytes.len(),
{
    if bytes.len() == 0 {
        2166136261u32
    } else {
        let byte = if lowercase {
            lower_byte_spec(bytes.last())
        } else {
            bytes.last()
        };
        fnv_step_spec(fnv_hash_spec(bytes.drop_last(), lowercase), byte)
    }
}

/// Lowercase folding commutes with hashing: hashing case-insensitively is
/// hashing the folded bytes case-sensitively, so byte sequences that fold to
/// the same sequence share their case-insensitive hash.
pub proof fn lemma_fnv_lowercase(bytes: Seq<u8>)
    ensures
        fnv_hash_spec(bytes, true) == fnv_hash_spec(lower_bytes_spec(bytes), false),
    decreases bytes.len(),
{
    if bytes.len() > 0 {
        lemma_fnv_lowercase(bytes.drop_last());
        assert(lower_bytes_spec(bytes).drop_last() =~= lower_bytes_spec(bytes.drop_last()));
    }
}

fn fnv_byte<const LOWERCASE: bool>(hash: u32, byte: u8) -> (r: u32)
    ensures
        r == fnv_step_spec(hash, if LOWERCASE { lower_byte_spec(byte) } else { byte }),
{
    let b = if LOWERCASE && byte >= 65 && byte <= 90 {
        byte + 32
    } else {
        byte
    };
    let mixed = hash ^ (b as u32);
    let product: u64 = (mixed as u64) * 16777619u64;
    (product % 0x1_0000_0000u64) as u32
}

/// FNV-1a over a fixed-size byte array.
pub fn fnv_hash_const<const N: usize>(bytes: &[u8; N], lowercase: bool) -> (r: u32)
    ensures
        r == fnv_hash_spec(bytes@, lowercase),
{
    let mut hash = 2166136261u32;
    let mut i: usize = 0;
    while i < N
        invariant
            i <= N,
            bytes@.len() == N,
            hash == fnv_hash_spec(bytes@.take(i as int), lowercase),
        decreases N - i,
    {
        hash = if lowercase {
            fnv_byte::<true>(hash, bytes[i])
        } else {
            fnv_byte::<false>(hash, bytes[i])
        };
        proof {
            assert(bytes@.take(i + 1).drop_last() =~= bytes@.take(i as int));
            assert(bytes@.take(i + 1).last() == bytes@[i as int]);
        }
        i = i + 1;
    }
    proof {
        assert(bytes@.take(N as int) =~= bytes@);
    }
    hash
}

/// FNV-1a over a byte slice.
pub fn fnv_hash<const LOWERCASE: bool>(bytes: &[u8]) -> (r: u32)
    ensures
        r == fnv_hash_spec(bytes@, LOWERCASE),
{
    let bytes_len = bytes.len();
    let mut hash = 2166136261u32;
    let mut i: usize = 0;
    while i < bytes_len
        invariant
            i <= bytes_len,
            bytes@.len() == bytes_len,
            hash == fnv_hash_spec(bytes@.take(i as int), LOWERCASE),
        decreases bytes_len - i,
    {
        hash = fnv_byte::<LOWERCASE>(hash, bytes[i]);
        proof {
            assert(bytes@.take(i + 1).drop_last() =~= bytes@.take(i as int));
            assert(bytes@.take(i + 1).last() == bytes@[i as int]);
        }
        i = i + 1;
    }
    proof {
        assert(bytes@.take(bytes_len as int) =~= bytes@);
    }
    hash
}

/// A type with a cheap, deterministic hash.
pub trait FastHash {
    /// The hash as a mathematical function of the value.
    spec fn hash_spec(&self) -> usize;

    fn fast_hash(&self) -> (r: usize)
        ensures
            r == self.hash_spec(),
    ;
}

/// A hashable key with a decidable equivalence that the hash respects.
pub trait SetKey: FastHash + Sized {
    /// The equivalence that decides whether two keys are the same.
    spec fn key_eq_spec(&self, other: &Self) -> bool;

    fn key_eq(&self, other: &Self) -> (r: bool)
        ensures
            r == self.key_eq_spec(other),
    ;

    proof fn lemma_key_eq_reflexive(&self)
        ensures
            self.key_eq_spec(self),
    ;

    proof fn lemma_key_eq_symmetric(&self, other: &Self)
        ensures
            self.key_eq_spec(other) == other.key_eq_spec(self),
    ;

    proof fn lemma_key_eq_transitive(&self, mid: &Self, other: &Self)
        requires
            self.key_eq_spec(mid),
            mid.key_eq_spec(other),
        ensures
            self.key_eq_spec(other),
    ;

    /// Keys that compare equal hash equally.
    proof fn lemma_key_eq_same_hash(&self, other: &Self)
        requires
            self.key_eq_spec(other),
        ensures
            self.hash_spec() == other.hash_spec(),
    ;
}

impl FastHash for i32 {
    open spec fn hash_spec(&self) -> usize {
        *self as usize
    }

    fn fast_hash(&self) -> (r: usize) {
        *self as usize
    }
}

impl FastHash for u32 {
    open spec fn hash_spec(&self) -> usize {
        *self as usize
    }

    fn fast_hash(&self) -> (r: usize) {
        *self as usize
    }
}

impl FastHash for i64 {
    open spec fn hash_spec(&self) -> usize {
        *self as usize
    }

    fn fast_hash(&self) -> (r: usize) {
        *self as usize
    }
}

impl FastHash for u64 {
    open spec fn hash_spec(&self) -> usize {
        *self as usize
    }

    fn fast_hash(&self) -> (r: usize) {
        *self as usize
    }
}

impl SetKey for i32 {
    open spec fn key_eq_spec(&self, other: &Self) -> bool {
        self == other
    }

    fn key_eq(&self, other: &Self) -> (r: bool) {
        *self == *other
    }

    proof fn lemma_key_eq_reflexive(&self) {
    }

    proof fn lemma_key_eq_symmetric(&self, other: &Self) {
    }

    proof fn lemma_key_eq_transitive(&self, mid: &Self, other: &Self) {
    }

    proof fn lemma_key_eq_same_hash(&self, other: &Self) {
    }
}

impl SetKey for u32 {
    open spec fn key_eq_spec(&self, other: &Self) -> bool {
        self == other
    }

    fn key_eq(&self, other: &Self) -> (r: bool) {
        *self == *other
    }

    proof fn lemma_key_eq_reflexive(&self) {
    }

    proof fn lemma_key_eq_symmetric(&self, other: &Self) {
    }

    proof fn lemma_key_eq_transitive(&self, mid: &Self, other: &Self) {
    }

    proof fn lemma_key_eq_same_hash(&self, other: &Self) {
    }
}

impl SetKey for i64 {
    open spec fn key_eq_spec(&self, other: &Self) -> bool {
        self == other
    }

    fn key_eq(&self, other: &Self) -> (r: bool) {
        *self == *other
    }

    proof fn lemma_key_eq_reflexive(&self) {
    }

    proof fn lemma_key_eq_symmetric(&self, other: &Self) {
    }

    proof fn lemma_key_eq_transitive(&self, mid: &Self, other: &Self) {
    }

    proof fn lemma_key_eq_same_hash(&self, other: &Self) {
    }
}

impl SetKey for u64 {
    open spec fn key_eq_spec(&self, other: &Self) -> bool {
        self == other
    }

    fn key_eq(&self, other: &Self) -> (r: bool) {
        *self == *other
    }

    proof fn lemma_key_eq_reflexive(&self) {
    }

    proof fn lemma_key_eq_symmetric(&self, other: &Self) {
    }

    proof fn lemma_key_eq_transitive(&self, mid: &Self, other: &Self) {
    }

    proof fn lemma_key_eq_same_hash(&self, other: &Self) {
    }
}

/// Whether two byte slices hold the same bytes.
pub fn bytes_eq(a: &[u8], b: &[u8]) -> (r: bool)
    ensures
        r == (a@ == b@),
{
    let a_len = a.len();
    let b_len = b.len();
    if a_len != b_len {
        proof {
            assert(a@ != b@);
        }
        return false;
    }
    let mut i: usize = 0;
    while i < a_len
        invariant
            i <= a_len,
            a@.len() == a_len,
            b@.len() == a_len,
            forall|j: int| 0 <= j < i ==> a@[j] == b@[j],
        decreases a_len - i,
    {
        if a[i] != b[i] {
            proof {
                assert(a@[i as int] != b@[i as int]);
            }
            return false;
        }
        i = i + 1;
    }
    proof {
        assert(a@ =~= b@);
    }
    true
}

impl FastHash for String {
    open spec fn hash_spec(&self) -> usize {
        fnv_hash_spec(vstd::utf8::encode_utf8(self@), false) as usize
    }

    fn fast_hash(&self) -> (r: usize) {
        fnv_hash::<false>(self.as_str().as_bytes()) as usize
    }
}

impl SetKey for String {
    open spec fn key_eq_spec(&self, other: &Self) -> bool {
        self@ == other@
    }

    fn key_eq(&self, other: &Self) -> (r: bool) {
        let r = bytes_eq(self.as_str().as_bytes(), other.as_str().as_bytes());
        proof {
            if vstd::utf8::encode_utf8(self@) == vstd::utf8::encode_utf8(other@) {
                vstd::utf8::encode_utf8_decode_utf8(self@);
                vstd::utf8::encode_utf8_decode_utf8(other@);
                assert(self@ == other@);
            }
        }
        r
    }

    proof fn lemma_key_eq_reflexive(&self) {
    }

    proof fn lemma_key_eq_symmetric(&self, other: &Self) {
    }

    proof fn lemma_key_eq_transitive(&self, mid: &Self, other: &Self) {
    }

    proof fn lemma_key_eq_same_hash(&self, other: &Self) {
    }
}

/// A value stored in a `Set`: it carries a key, extracted on demand.
pub trait SetItem: Sized {
    type KeyType: SetKey;

    /// The key as a mathematical function of the value.
    spec fn key_spec(&self) -> Self::KeyType;

    fn get_key(&self) -> (r: &Self::KeyType)
        ensures
            *r == self.key_spec(),
    ;
}

/// A key paired with a value; the item stored by `Map`.
pub struct KeyValuePair<K: SetKey, V>(K, V);

impl<K: SetKey, V> SetItem for KeyValuePair<K, V> {
    type KeyType = K;

    closed spec fn key_spec(&self) -> K {
        self.0
    }

    fn get_key(&self) -> (r: &K) {
        &self.0
    }
}

impl<K: SetKey, V> KeyValuePair<K, V> {
    /// The carried value as a mathematical function of the pair.
    pub closed spec fn value_spec(&self) -> V {
        self.1
    }

    pub fn new(key: K, value: V) -> (r: Self)
        ensures
            r.key_spec() == key,
            r.value_spec() == value,
    {
        KeyValuePair(key, value)
    }

    pub fn get_value(&self) -> (r: &V)
        ensures
            *r == self.value_spec(),
    {
        &self.1
    }

    pub fn get_value_mut(&mut self) -> (r: &mut V)
        ensures
            *r == old(self).value_spec(),
            final(self).key_spec() == old(self).key_spec(),
            final(self).value_spec() == *final(r),
    {
        &mut self.1
    }

    /// Replace the carried value, handing the previous one back.
    pub fn swap_value(&mut self, new_value: V) -> (r: V)
        ensures
            r == old(self).value_spec(),
            final(self).key_spec() == old(self).key_spec(),
            final(self).value_spec() == new_value,
    {
        let mut taken = new_value;
        core::mem::swap(&mut self.1, &mut taken);
        taken
    }

    pub fn take_value(pair: KeyValuePair<K, V>) -> (r: V)
        ensures
            r == pair.value_spec(),
    {
        pair.1
    }
}

impl<K: SetKey, V: Default> KeyValuePair<K, V> {
    /// Pair the key with the value type's default.
    pub fn new_with_key(key: K) -> (r: Self)
        ensures
            r.key_spec() == key,
    {
        KeyValuePair(key, Default::default())
    }
}

} // verus!
