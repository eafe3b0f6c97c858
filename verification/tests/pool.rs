use sat_tunnel::pool::{Buffer, BufferPool, PoolError};

#[test]
fn buffer_starts_empty_with_the_size_of_its_block() {
    let b = Buffer::new(vec![7u8; 32]);
    assert_eq!(b.len(), 0);
    assert_eq!(b.capacity(), 32);
    assert_eq!(b.as_slice(), &[] as &[u8]);
}

#[test]
fn buffer_append_writes_behind() {
    let mut b = Buffer::new(vec![0u8; 8]);
    b.append(&[1, 2, 3, 4, 5], 1, 4);
    b.append(&[9, 9], 0, 2);
    assert_eq!(b.as_slice(), &[2, 3, 4, 9, 9]);
    assert_eq!(b.to_vec(), vec![2, 3, 4, 9, 9]);
    assert_eq!(b.len(), 5);
    assert_eq!(b.capacity(), 8);
}

#[test]
fn buffer_clear_keeps_the_size() {
    let mut b = Buffer::new(vec![0u8; 8]);
    b.append(&[1, 2, 3], 0, 3);
    b.clear();
    assert_eq!(b.len(), 0);
    assert_eq!(b.capacity(), 8);
}

#[test]
fn new_pool_is_empty() {
    let pool = BufferPool::new(3);
    assert_eq!(pool.slots(), 3);
    assert_eq!(pool.free_count(), 0);
    assert_eq!(pool.lent_count(), 0);
    assert_eq!(pool.next_size(), None);
}

#[test]
fn provision_fails_when_every_slot_is_taken() {
    let mut pool = BufferPool::new(2);
    assert_eq!(pool.provision(vec![0; 10]), Ok(()));
    assert_eq!(pool.provision(vec![0; 20]), Ok(()));
    assert_eq!(pool.provision(vec![0; 30]), Err(PoolError::PoolFull));
    assert_eq!(pool.free_count(), 2);
}

#[test]
fn provision_counts_lent_blocks_too() {
    let mut pool = BufferPool::new(1);
    assert_eq!(pool.provision(vec![0; 10]), Ok(()));
    let b = pool.acquire().expect("a block");
    assert_eq!(pool.provision(vec![0; 10]), Err(PoolError::PoolFull));
    assert_eq!(pool.release(b), Ok(()));
}

#[test]
fn pool_of_no_slots_takes_nothing() {
    let mut pool = BufferPool::new(0);
    assert_eq!(pool.provision(vec![0; 10]), Err(PoolError::PoolFull));
    assert!(matches!(pool.acquire(), Err(PoolError::PoolExhausted)));
}

#[test]
fn acquire_lends_the_block_that_came_last() {
    let mut pool = BufferPool::new(3);
    pool.provision(vec![0; 10]).unwrap();
    pool.provision(vec![0; 20]).unwrap();
    assert_eq!(pool.next_size(), Some(20));
    let b = pool.acquire().expect("a block");
    assert_eq!(b.capacity(), 20);
    assert_eq!(b.len(), 0);
    assert_eq!(pool.free_count(), 1);
    assert_eq!(pool.lent_count(), 1);
    assert_eq!(pool.next_size(), Some(10));
}

#[test]
fn acquire_fails_when_nothing_is_free() {
    let mut pool = BufferPool::new(1);
    pool.provision(vec![0; 10]).unwrap();
    let _held = pool.acquire().expect("a block");
    assert!(matches!(pool.acquire(), Err(PoolError::PoolExhausted)));
    assert_eq!(pool.lent_count(), 1);
}

#[test]
fn release_takes_back_and_empties() {
    let mut pool = BufferPool::new(1);
    pool.provision(vec![0; 10]).unwrap();
    let mut b = pool.acquire().expect("a block");
    b.append(&[1, 2, 3], 0, 3);
    assert_eq!(pool.release(b), Ok(()));
    assert_eq!(pool.free_count(), 1);
    assert_eq!(pool.lent_count(), 0);
    let again = pool.acquire().expect("a block");
    assert_eq!(again.len(), 0);
    assert_eq!(again.capacity(), 10);
}

#[test]
fn release_is_refused_when_nothing_is_lent() {
    let mut pool = BufferPool::new(2);
    pool.provision(vec![0; 10]).unwrap();
    let stray = Buffer::new(vec![0; 10]);
    assert_eq!(pool.release(stray), Err(PoolError::NotLent));
    assert_eq!(pool.free_count(), 1);
    assert_eq!(pool.lent_count(), 0);
}
