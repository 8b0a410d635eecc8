use rl_core::{ObjBorrowError, ObjBorrowState, ObjHandle, ObjStorage, Object, SetItem};

#[test]
fn borrow_state_exclusion() {
    // A held exclusive borrow turns shared attempts away with `Unique`,
    // and vice versa a shared holder turns writers away with `Shared`.
    let mut state = ObjBorrowState::new();
    let writer = match state.try_write() {
        Ok(w) => w,
        Err(_) => panic!("a free state must grant the exclusive borrow"),
    };
    match state.try_read() {
        Err(ObjBorrowError::Unique) => {}
        _ => panic!("a reader must be blocked by the exclusive borrow"),
    }
    match state.try_write() {
        Err(ObjBorrowError::Unique) => {}
        _ => panic!("a second writer must be blocked by the exclusive borrow"),
    }
    state.release_write(writer);

    let reader = match state.try_read() {
        Ok(r) => r,
        Err(_) => panic!("a free state must grant a shared borrow"),
    };
    match state.try_write() {
        Err(ObjBorrowError::Shared) => {}
        _ => panic!("a writer must be blocked by the shared borrow"),
    }
    assert!(!state.try_destroy());

    // Releasing the sole outstanding borrow lets the destroy succeed.
    state.release_read(reader);
    assert!(state.try_destroy());
    assert!(!state.try_destroy());
}

#[derive(Clone, PartialEq, Eq, Debug)]
struct PoolItem {
    id: u64,
    payload: u32,
}

impl SetItem for PoolItem {
    type KeyType = u64;

    fn key_spec(&self) -> u64 {
        self.id
    }

    fn get_key(&self) -> &u64 {
        &self.id
    }
}

impl Object for PoolItem {}

#[test]
fn obj_storage_lifecycle() {
    let mut pool: ObjStorage<PoolItem> = ObjStorage::with_table_size(8);
    assert_eq!(pool.num(), 0);
    pool.insert(PoolItem { id: 1, payload: 11 });
    pool.insert(PoolItem { id: 2, payload: 22 });
    pool.insert(PoolItem { id: 3, payload: 33 });
    assert_eq!(pool.num(), 3);

    let got = pool.try_get(&2).expect("id 2 was pooled");
    assert_eq!(got.payload, 22);
    assert!(pool.try_get(&9).is_none());

    // Pruning before any retirement request removes nothing.
    pool.prune();
    assert_eq!(pool.num(), 3);

    // A retired object disappears on the next prune; the rest stay.
    pool.request_drop(&2);
    assert_eq!(pool.num(), 3);
    pool.prune();
    assert_eq!(pool.num(), 2);
    assert!(pool.try_get(&2).is_none());
    assert_eq!(pool.try_get(&1).expect("id 1 stays").payload, 11);
    assert_eq!(pool.try_get(&3).expect("id 3 stays").payload, 33);

    // Retiring an absent key is a no-op.
    pool.request_drop(&9);
    pool.prune();
    assert_eq!(pool.num(), 2);

    let handle: ObjHandle<PoolItem> = ObjHandle::new(3);
    assert_eq!(pool.try_get(&handle.unique_id).expect("via handle").payload, 33);
}

#[test]
fn obj_storage_fresh_pool() {
    let mut pool: ObjStorage<PoolItem> = ObjStorage::new();
    assert_eq!(pool.num(), 0);
    assert!(pool.try_get(&1).is_none());
    pool.prune();
    assert_eq!(pool.num(), 0);
}
