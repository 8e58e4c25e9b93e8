use pagealloc::{BlockDescriptor, FreeBlockPool};

fn free_total(pool: &FreeBlockPool<8>) -> usize {
    let mut sum = 0;
    for i in 0..pool.len() {
        sum += pool.block(i).length;
    }
    sum
}

fn coalesce_in_order(order: [usize; 3]) {
    let mut pool: FreeBlockPool<8> = FreeBlockPool::new(0, 10);
    let a = pool.acquire(3).unwrap();
    let b = pool.acquire(2).unwrap();
    let c = pool.acquire(4).unwrap();
    assert_eq!(pool.len(), 1);
    assert_eq!(pool.block(0), BlockDescriptor::new(0, 1));
    let runs = [a, b, c];
    for i in order {
        assert_eq!(pool.release(runs[i]), Ok(()));
    }
    assert_eq!(pool.len(), 1);
    assert_eq!(pool.block(0), BlockDescriptor::new(0, 10));
}

#[test]
fn coalescing_order_abc() {
    coalesce_in_order([0, 1, 2]);
}

#[test]
fn coalescing_order_acb() {
    coalesce_in_order([0, 2, 1]);
}

#[test]
fn coalescing_order_bac() {
    coalesce_in_order([1, 0, 2]);
}

#[test]
fn coalescing_order_bca() {
    coalesce_in_order([1, 2, 0]);
}

#[test]
fn coalescing_order_cab() {
    coalesce_in_order([2, 0, 1]);
}

#[test]
fn coalescing_order_cba() {
    coalesce_in_order([2, 1, 0]);
}

#[test]
fn acquire_carves_from_the_right() {
    let mut pool: FreeBlockPool<8> = FreeBlockPool::new(100, 10);
    assert_eq!(pool.acquire(3), Some(BlockDescriptor::new(107, 3)));
    assert_eq!(pool.block(0), BlockDescriptor::new(100, 7));
    assert_eq!(pool.acquire(7), Some(BlockDescriptor::new(100, 7)));
    assert_eq!(pool.len(), 0);
    assert_eq!(pool.acquire(1), None);
}

#[test]
fn first_fit_not_best_fit() {
    let mut pool: FreeBlockPool<8> = FreeBlockPool::new(0, 10);
    let a = pool.acquire(2).unwrap(); // [8, 10)
    let _b = pool.acquire(2).unwrap(); // [6, 8)
    assert_eq!(pool.release(a), Ok(()));
    // Free: [0, 6) then [8, 10). The first that holds 2 units is [0, 6).
    assert_eq!(pool.find_fit(2), Some(0));
    assert_eq!(pool.find_fit(6), Some(0));
    assert_eq!(pool.find_fit(7), None);
    assert_eq!(pool.acquire(2), Some(BlockDescriptor::new(4, 2)));
}

#[test]
fn conservation_over_a_series() {
    let mut pool: FreeBlockPool<8> = FreeBlockPool::new(0, 10);
    let mut held: Vec<BlockDescriptor> = Vec::new();
    let check = |pool: &FreeBlockPool<8>, held: &Vec<BlockDescriptor>| {
        let h: usize = held.iter().map(|b| b.length).sum();
        assert_eq!(free_total(pool) + h, 10);
    };
    for n in [1, 3, 2] {
        held.push(pool.acquire(n).unwrap());
        check(&pool, &held);
    }
    let b = held.swap_remove(1);
    assert_eq!(pool.release(b), Ok(()));
    check(&pool, &held);
    held.push(pool.acquire(4).unwrap());
    check(&pool, &held);
    assert_eq!(pool.acquire(5), None);
    check(&pool, &held);
    while let Some(b) = held.pop() {
        assert_eq!(pool.release(b), Ok(()));
        check(&pool, &held);
    }
    assert_eq!(pool.len(), 1);
}

#[test]
fn full_pool_hands_the_block_back() {
    let mut pool: FreeBlockPool<2> = FreeBlockPool::new(0, 10);
    let a = pool.acquire(2).unwrap(); // [8, 10), free [0, 8)
    let b = pool.acquire(2).unwrap(); // [6, 8), free [0, 6)
    let c = pool.acquire(2).unwrap(); // [4, 6), free [0, 4)
    assert_eq!(pool.release(b), Ok(())); // free [0, 4), [6, 8)
    assert_eq!(pool.len(), 2);
    assert_eq!(pool.release(a), Err(a));
    assert_eq!(pool.len(), 2);
    assert_eq!(pool.release(c), Err(c));
}

#[test]
fn block_descriptor_split_and_join() {
    let mut b = BlockDescriptor::new(4, 10);
    assert!(b.can_accommodate(10));
    assert!(!b.can_accommodate(11));
    assert!(b.is_exact(10));
    assert!(!b.is_exact(9));
    let right = b.take_partially(3);
    assert_eq!(right, BlockDescriptor::new(11, 3));
    assert_eq!(b, BlockDescriptor::new(4, 7));
    assert!(b.can_join_right(&right));
    assert!(!right.can_join_right(&b));
    b.join_right(right);
    assert_eq!(b, BlockDescriptor::new(4, 10));
}
