use rl_core::allocators::{AllocatorBase, DefaultAllocator, InlineAllocator};
use rl_core::{fnv_hash, fnv_hash_const, Array, FastMap, FastSet, KeyValuePair, SetItem};

#[test]
fn fnv_test() {
    assert_eq!(
        fnv_hash::<false>("Hello world!".as_bytes()),
        fnv_hash_const(b"Hello world!", false)
    );
    assert_eq!(
        fnv_hash::<true>("hello WORLD!".as_bytes()),
        fnv_hash_const(b"HeLLo woRLd!", true)
    );
}

#[test]
fn fnv_known_values() {
    // FNV-1a of the empty input is the offset basis; of "a" it is a
    // published reference value.
    assert_eq!(fnv_hash::<false>(b""), 2166136261);
    assert_eq!(fnv_hash::<false>(b"a"), 0xe40c292c);
    assert_eq!(fnv_hash::<true>(b"A"), fnv_hash::<false>(b"a"));
}

#[test]
fn array_test() {
    let mut array = Array::new();
    array.push_back(2);
    array.push_front(1);
    array.push_back(3);
    assert_eq!(array.num(), 3);
    assert_eq!(array.capacity(), 4);
    assert_eq!(*array.index(0), 1);
    assert_eq!(*array.index(1), 2);
    assert_eq!(*array.index(2), 3);
    array.set_capacity(4);
    assert_eq!(array.capacity(), 4);
    assert_eq!(array.remove(1), 2);
    assert_eq!(array.swap_remove(0), 1);
    assert_eq!(array.num(), 1);
    assert_eq!(*array.index(0), 3);
    for i in 0..array.num() {
        *array.index_mut(i) += 1;
    }
    assert_eq!(*array.index(0), 4);
    array.insert(0, 2);
    array.insert(1, 3);
    array.insert(3, 5);
    assert_eq!(*array.index(0), 2);
    assert_eq!(*array.index(1), 3);
    assert_eq!(*array.index(2), 4);
    assert_eq!(*array.index(3), 5);
    assert!(!array.is_empty());
    array.clear();
    assert!(array.is_empty());

    array.insert_range(0, 10, 0);
    assert_eq!(array.num(), 10);
    for i in 0..10 {
        assert_eq!(*array.index(i), 0);
    }
    array.insert_range(1, 3, 1);
    assert_eq!(*array.index(0), 0);
    assert_eq!(*array.index(1), 1);
    assert_eq!(*array.index(2), 1);
    assert_eq!(*array.index(3), 0);
    array.insert_range(array.num(), 20, 2);
    assert_eq!(*array.index(19), 2);
}

#[test]
fn array_capacity_invariant() {
    let mut array: Array<u32> = Array::with_capacity(3);
    assert_eq!(array.capacity(), 3);
    assert_eq!(array.num(), 0);
    for v in 0..20u32 {
        array.push_back(v);
        assert!(array.capacity() >= array.num());
    }
    array.pop_front();
    assert_eq!(array.num(), 19);
    assert_eq!(*array.index(0), 1);
    let last = array.pop_back();
    assert_eq!(last, 19);
    assert!(array.capacity() >= array.num());
    array.reserve(100);
    assert!(array.capacity() >= array.num() + 100);
}

#[test]
fn allocator_growth_policy() {
    let heap = DefaultAllocator::new_allocator();
    assert_eq!(heap.grow(0, 1), 1);
    assert_eq!(heap.grow(1, 2), 2);
    assert_eq!(heap.grow(2, 3), 4);
    assert_eq!(heap.grow(4, 5), 8);

    // The inline policy grants exactly what is wanted while it still fits
    // the inline footprint, and only then falls back to doubling.
    let inline = InlineAllocator::<4, i32>::new_allocator();
    assert_eq!(inline.grow(0, 1), 1);
    assert_eq!(inline.grow(1, 2), 2);
    assert_eq!(inline.grow(2, 3), 3);
    assert_eq!(inline.grow(3, 4), 4);
    assert_eq!(inline.grow(4, 5), 8);
}

#[derive(Copy, Clone, PartialEq, Eq, Debug)]
struct SetNumber(i32);

impl SetItem for SetNumber {
    type KeyType = i32;

    fn key_spec(&self) -> i32 {
        self.0
    }

    fn get_key(&self) -> &i32 {
        &self.0
    }
}

impl SetNumber {
    fn new(n: i32) -> Self {
        Self(n)
    }

    fn get_num(&self) -> i32 {
        self.0
    }
}

#[test]
fn set_test() {
    let mut set = FastSet::new();
    set.insert(SetNumber::new(10));
    set.insert(SetNumber::new(10));
    set.insert(SetNumber::new(10));
    set.insert(SetNumber::new(15));
    set.insert(SetNumber::new(15));
    set.insert(SetNumber::new(20));

    assert_eq!(set.swap_remove(0).get_num(), 10);

    set.insert(SetNumber::new(25));
    assert_eq!(set.num(), 6);
    let elem20_index = set.find_first_index(&20);
    assert_eq!(set.index(elem20_index).get_num(), 20);
    assert_eq!(set.find_next_index(elem20_index), usize::MAX);
    let first10_index = set.find_first_index(&10);
    assert_eq!(set.index(first10_index).get_num(), 10);
    let second10_index = set.find_next_index(first10_index);
    assert_eq!(set.index(second10_index).get_num(), 10);
    assert_eq!(set.find_next_index(second10_index), usize::MAX);
    set.clear();
    assert_eq!(set.num(), 0);

    for i in 0..10 {
        set.insert(SetNumber::new(i % 2));
    }
    assert_eq!(set.remove_all::<DefaultAllocator>(&0).num(), 5);
    assert_eq!(set.remove_all::<DefaultAllocator>(&1).num(), 5);
    assert_eq!(set.num(), 0);
}

#[test]
fn set_remove_all_partitions() {
    // Round trip: removing every distinct key empties the set exactly.
    let mut set = FastSet::new();
    let keys = [3, 7, 3, 11, 7, 3, 42, 11];
    for (i, k) in keys.iter().enumerate() {
        set.insert(KeyValuePair::new(*k as i64, i));
    }
    assert_eq!(set.num(), keys.len());
    let removed3 = set.remove_all::<DefaultAllocator>(&3);
    assert_eq!(removed3.num(), 3);
    for i in 0..removed3.num() {
        assert_eq!(*removed3.index(i).get_key(), 3);
    }
    let removed7 = set.remove_all::<DefaultAllocator>(&7);
    assert_eq!(removed7.num(), 2);
    assert_eq!(set.remove_all::<DefaultAllocator>(&11).num(), 2);
    assert_eq!(set.remove_all::<DefaultAllocator>(&42).num(), 1);
    assert_eq!(set.num(), 0);
    // A key with no matches removes nothing.
    assert_eq!(set.remove_all::<DefaultAllocator>(&3).num(), 0);
}

#[test]
fn set_find_or_insert() {
    let mut set = FastSet::new();
    let first = set.find_index_or_insert_mut(SetNumber::new(8));
    assert_eq!(first, 0);
    let again = set.find_index_or_insert_mut(SetNumber::new(8));
    assert_eq!(again, 0);
    assert_eq!(set.num(), 1);
    let other = set.find_index_or_insert_mut(SetNumber::new(9));
    assert_eq!(other, 1);
    assert_eq!(set.num(), 2);
}

#[test]
fn map_test() {
    let mut map: FastMap<String, i32> = FastMap::new();
    assert_eq!(map.contains(&"key".to_string()), false);
    map.insert("key".to_string(), 10);
    map.insert("other key".to_string(), 20);
    assert!(!map.is_empty());
    assert_eq!(map.contains(&"key".to_string()), true);
    assert_eq!(map.contains(&"other key".to_string()), true);
    assert_eq!(*map.get(&"other key".to_string()).unwrap(), 20);
    assert_eq!(*map.index(&"other key".to_string()), 20);
    *map.get_mut(&"other key".to_string()).unwrap() = 30;
    assert_eq!(*map.get(&"other key".to_string()).unwrap(), 30);
    assert_eq!(*map.index(&"other key".to_string()), 30);
    *map.index_mut(&"other key".to_string()) = 40;
    assert_eq!(*map.index(&"other key".to_string()), 40);
    assert_eq!(map.remove(&"key".to_string()).unwrap(), 10);
    map.clear();
    assert!(map.is_empty());
    assert_eq!(
        *map.get_or_insert_default_mut("default key".to_string()),
        Default::default()
    );
    assert_eq!(map.contains(&"default key".to_string()), true);
}

#[test]
fn map_insert_replaces() {
    // Inserting the same key twice hands the previous value back and
    // leaves the count unchanged.
    let mut map: FastMap<u32, u32> = FastMap::new();
    assert_eq!(map.insert(5, 100), None);
    assert_eq!(map.num(), 1);
    assert_eq!(map.insert(5, 200), Some(100));
    assert_eq!(map.num(), 1);
    assert_eq!(*map.get(&5).unwrap(), 200);
    assert_eq!(map.remove(&5), Some(200));
    assert_eq!(map.remove(&5), None);
    assert_eq!(map.num(), 0);
}

#[test]
fn map_get_or_insert() {
    let mut map: FastMap<i64, String> = FastMap::new();
    {
        let v = map.get_or_insert_mut(1, "one".to_string());
        assert_eq!(*v, "one");
        v.push('!');
    }
    assert_eq!(*map.get(&1).unwrap(), "one!");
    {
        let v = map.get_or_insert_mut(1, "ignored".to_string());
        assert_eq!(*v, "one!");
    }
    assert_eq!(map.num(), 1);
}

#[test]
fn key_value_pair_accessors() {
    let mut pair = KeyValuePair::new(7u32, 40i32);
    assert_eq!(*pair.get_key(), 7);
    assert_eq!(*pair.get_value(), 40);
    *pair.get_value_mut() += 1;
    assert_eq!(*pair.get_value(), 41);
    assert_eq!(pair.swap_value(50), 41);
    assert_eq!(KeyValuePair::take_value(pair), 50);
    let defaulted: KeyValuePair<u32, i32> = KeyValuePair::new_with_key(9);
    assert_eq!(*defaulted.get_key(), 9);
    assert_eq!(*defaulted.get_value(), 0);
}
