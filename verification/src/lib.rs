//! A generic container library: a growable buffer parameterized over an
//! allocation policy, an open-chained hash table with multimap semantics,
//! typed set / map wrappers, a string interning table, and an object pool
//! with borrow-state tracking.

mod fast_hash;

pub use fast_hash::FastHash;
pub use fast_hash::KeyValuePair;
pub use fast_hash::SetItem;
pub use fast_hash::SetKey;
pub use fast_hash::bytes_eq;
pub use fast_hash::fnv_hash;
pub use fast_hash::fnv_hash_const;

pub mod allocators;

mod strings_table;

pub use strings_table::STRINGS_TABLE_ENTRY_MAX_LEN;
pub use strings_table::StringAtom;
pub use strings_table::StringsTable;

mod raw_array;

pub use raw_array::RawArray;

mod array;

pub use array::Array;
pub use array::InlineArray;

mod raw_set;

pub use raw_set::RawSet;
pub use raw_set::RawSetEntry;

mod set;

pub use set::FastSet;

mod map;

pub use map::FastMap;

mod object;

pub use object::BORROW_HIGH_BIT;
pub use object::ObjBorrow;
pub use object::ObjBorrowError;
pub use object::ObjBorrowMut;
pub use object::ObjBorrowState;
pub use object::ObjHandle;
pub use object::ObjStorage;
pub use object::Object;
