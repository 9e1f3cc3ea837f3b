use somnium_ui::pool::{Handle, Pool, PoolError};

#[test]
fn a_spawned_value_is_borrowed_back() {
    let mut pool: Pool<u32> = Pool::new();
    let a = pool.spawn(10);
    let b = pool.spawn(20);
    assert_eq!(a, Handle::new(0, 1));
    assert_eq!(b, Handle::new(1, 1));
    assert_eq!(*pool.borrow(a), 10);
    assert_eq!(pool.try_borrow(b), Ok(&20));
    assert!(pool.is_valid_handle(a));
    assert_eq!(pool.alive_count(), 2);
    assert_eq!(pool.capacity(), 2);
}

#[test]
fn a_freed_slot_is_reused_with_a_new_generation() {
    let mut pool: Pool<&str> = Pool::with_capacity(4);
    let a = pool.spawn("a");
    let _b = pool.spawn("b");
    assert_eq!(pool.free(a), "a");
    assert!(!pool.is_valid_handle(a));
    assert_eq!(pool.next_free_handle(), Handle::new(0, 2));
    let c = pool.spawn("c");
    assert_eq!(c, Handle::new(0, 2));
    assert_eq!(pool.try_borrow(a), Err(PoolError::InvalidGeneration(1)));
    assert_eq!(*pool.borrow(c), "c");
    assert_eq!(pool.alive_count(), 2);
}

#[test]
fn every_refusal_names_its_reason() {
    let mut pool: Pool<u8> = Pool::new();
    let a = pool.spawn(1);
    assert_eq!(pool.try_free(Handle::new(5, 1)), Err(PoolError::InvalidIndex(5)));
    assert_eq!(pool.try_free(Handle::new(0, 9)), Err(PoolError::InvalidGeneration(9)));
    assert_eq!(pool.try_free(a), Ok(1));
    assert_eq!(pool.try_free(a), Err(PoolError::Empty(0)));
    assert_eq!(pool.try_borrow(a), Err(PoolError::Empty(0)));
    assert_eq!(pool.alive_count(), 0);
    assert_eq!(pool.next_free_handle(), Handle::new(0, 2));
}

#[test]
fn the_none_handle_names_nothing() {
    let none: Handle<u8> = Handle::none();
    assert!(none.is_none());
    assert!(!none.is_some());
    assert!(Handle::<u8>::new(0, 1).is_some());
    assert_eq!(Handle::<u8>::default(), none);
    let pool: Pool<u8> = Pool::new();
    assert!(!pool.is_valid_handle(none));
    let moved: Handle<u16> = Handle::<u8>::new(3, 4).transmute();
    assert_eq!(moved, Handle::new(3, 4));
    assert_eq!(moved.index(), 3);
}

#[test]
fn mutation_iteration_and_retain() {
    let mut pool: Pool<u32> = Pool::new();
    let handles: Vec<Handle<u32>> = (0..6).map(|i| pool.spawn(i)).collect();
    *pool.borrow_mut(handles[2]) += 100;
    if let Ok(v) = pool.try_borrow_mut(handles[3]) {
        *v += 200;
    }
    assert_eq!(pool.try_borrow_mut(Handle::new(99, 1)).err(), Some(PoolError::InvalidIndex(99)));
    pool.free(handles[0]);
    let items: Vec<u32> = pool.iter().into_iter().copied().collect();
    assert_eq!(items, vec![1, 102, 203, 4, 5]);
    let pairs: Vec<(Handle<u32>, u32)> = pool.pair_iter().into_iter().map(|(h, v)| (h, *v)).collect();
    assert_eq!(pairs[0], (handles[1], 1));
    assert_eq!(pairs.len(), 5);
    pool.retain(|v| *v % 2 == 1);
    let kept: Vec<u32> = pool.iter().into_iter().copied().collect();
    assert_eq!(kept, vec![1, 203, 5]);
    assert!(!pool.is_valid_handle(handles[2]));
    assert_eq!(pool.alive_count(), 3);
    pool.clear();
    assert_eq!(pool.capacity(), 0);
    assert_eq!(pool.alive_count(), 0);
}

#[test]
fn payloads_are_written_in_place_through_the_mutable_walks() {
    let mut pool: Pool<u32> = Pool::new();
    let handles: Vec<Handle<u32>> = (0..4).map(|i| pool.spawn(i * 10)).collect();
    pool.free(handles[1]);
    for v in pool.iter_mut() {
        *v += 1;
    }
    let items: Vec<u32> = pool.iter().into_iter().copied().collect();
    assert_eq!(items, vec![1, 21, 31]);
    for (h, v) in pool.pair_iter_mut() {
        *v += h.index() * 100;
    }
    assert_eq!(*pool.borrow(handles[0]), 1);
    assert_eq!(*pool.borrow(handles[2]), 221);
    assert_eq!(*pool.borrow(handles[3]), 331);
    let seen: Vec<Handle<u32>> = pool.pair_iter_mut().into_iter().map(|(h, _)| h).collect();
    assert_eq!(seen, vec![handles[0], handles[2], handles[3]]);
    assert_eq!(pool.alive_count(), 3);
}

#[test]
fn validity_follows_the_history_of_spawns_frees_and_clears() {
    let mut pool: Pool<u32> = Pool::new();
    let a = pool.spawn(1);
    let b = pool.spawn(2);
    let c = pool.spawn(3);
    assert_eq!((a.index(), b.index(), c.index()), (0, 1, 2), "spawns alone fill the slots in order");
    assert_eq!(pool.next_free_handle(), Handle::new(3, 1));
    pool.free(b);
    assert!(!pool.is_valid_handle(b));
    let d = pool.spawn(4);
    assert_eq!(d, Handle::new(1, 2), "the freed slot comes back one generation on");
    assert!(!pool.is_valid_handle(b), "a freed handle stays stale after its slot is reused");
    assert!(pool.is_valid_handle(a) && pool.is_valid_handle(c) && pool.is_valid_handle(d));
    pool.clear();
    assert!(!pool.is_valid_handle(a));
    let e = pool.spawn(5);
    assert_eq!(e, a, "a clear restarts the generations");
    assert!(pool.is_valid_handle(a));
}
