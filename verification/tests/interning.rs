use rl_core::{RawSet, StringAtom, StringsTable};

#[test]
fn stringatom_test() {
    let mut table = StringsTable::new();
    let name0 = StringAtom::new(&mut table, "nAMe tESt");
    let name1 = StringAtom::new(&mut table, "Name test");
    let name2 = StringAtom::new(&mut table, "name Test");
    assert_eq!(name0, name1);
    assert_eq!(name0, name2);
    assert_eq!(name1, name2);
    assert_eq!(name2.as_str(&table), "nAMe tESt");
}

#[test]
fn stringatom_distinct_strings() {
    let mut table = StringsTable::new();
    table.lazy_init();
    let alpha = StringAtom::new(&mut table, "alpha");
    let beta = StringAtom::new(&mut table, "beta");
    let alpha_again = StringAtom::new(&mut table, "ALPHA");
    assert_ne!(alpha, beta);
    assert_eq!(alpha, alpha_again);
    assert_eq!(alpha.as_str(&table), "alpha");
    assert_eq!(beta.as_str(&table), "beta");
    assert_eq!(alpha_again.as_str(&table), "alpha");
}

#[test]
fn stringatom_none() {
    let table = StringsTable::new();
    let none = StringAtom::none();
    assert!(none.is_none());
    assert_eq!(none.as_str(&table), "");
    let mut table2 = StringsTable::new();
    let filled = StringAtom::new(&mut table2, "x");
    assert!(!filled.is_none());
}

#[test]
fn raw_set_chain_walk() {
    let mut raw: RawSet<u32> = RawSet::for_type();
    let first = raw.insert_data(5, 40);
    assert_eq!(first, 0);
    let second = raw.insert_data(5, 41);
    assert_eq!(second, 1);
    let third = raw.insert_data(7, 42);
    assert_eq!(third, 2);
    assert_eq!(raw.num(), 3);
    assert!(!raw.is_empty());

    // The most recently inserted duplicate heads its run.
    let head5 = raw.find_first_index(5);
    assert_eq!(head5, 1);
    assert_eq!(raw.get_hash(head5), 5);
    assert_eq!(*raw.get_data(head5), 41);
    let next5 = raw.find_next_index(head5);
    assert_eq!(next5, 0);
    assert_eq!(*raw.get_data(next5), 40);
    assert_eq!(raw.find_next_index(next5), usize::MAX);

    let head7 = raw.find_first_index(7);
    assert_eq!(*raw.get_data(head7), 42);
    assert_eq!(raw.find_next_index(head7), usize::MAX);
    assert_eq!(raw.find_first_index(9), usize::MAX);

    // A rebuild keeps the contents and the run structure.
    raw.rehash(64);
    assert_eq!(raw.num(), 3);
    let head5_after = raw.find_first_index(5);
    let tail5_after = raw.find_next_index(head5_after);
    let mut values = [*raw.get_data(head5_after), *raw.get_data(tail5_after)];
    values.sort();
    assert_eq!(values, [40, 41]);
    assert_eq!(raw.find_next_index(tail5_after), usize::MAX);

    // Swap-with-last removal keeps the other runs reachable.
    let removed = raw.remove_data(raw.find_first_index(5));
    assert!(removed == 40 || removed == 41);
    assert_eq!(raw.num(), 2);
    assert_ne!(raw.find_first_index(5), usize::MAX);
    assert_ne!(raw.find_first_index(7), usize::MAX);

    raw.clear();
    assert_eq!(raw.num(), 0);
    assert_eq!(raw.find_first_index(5), usize::MAX);
}

#[test]
fn raw_set_capacity() {
    let mut raw: RawSet<u8> = RawSet::for_type_with_table_size(16);
    assert_eq!(raw.capacity(), 0);
    raw.set_capacity(10);
    assert_eq!(raw.capacity(), 10);
    raw.reserve(20);
    assert!(raw.capacity() >= 20);
    raw.insert_data(1, 9);
    assert_eq!(raw.num(), 1);
}
