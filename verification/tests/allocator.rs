use nano_batch_rs::block_allocator::{BlockAllocator, InvalidFree};

#[test]
fn allocate_ascending_then_exhausted() {
    let mut a = BlockAllocator::new(4, 16);
    assert_eq!(a.allocate(), Some(0));
    assert_eq!(a.allocate(), Some(1));
    assert_eq!(a.allocate(), Some(2));
    assert_eq!(a.allocate(), Some(3));
    assert_eq!(a.allocate(), None);
}

#[test]
fn allocate_on_empty_allocator_is_none() {
    let mut a = BlockAllocator::new(0, 16);
    assert_eq!(a.remaining(), 0);
    assert_eq!(a.allocate(), None);
}

#[test]
fn free_of_never_allocated_id_is_invalid() {
    let mut a = BlockAllocator::new(4, 16);
    assert_eq!(a.free(2), Err(InvalidFree));
    assert_eq!(a.remaining(), 4);
    assert_eq!(a.free(100), Err(InvalidFree));
    assert_eq!(a.remaining(), 4);
}

#[test]
fn double_free_is_invalid_and_leaves_state_unchanged() {
    let mut a = BlockAllocator::new(4, 16);
    assert_eq!(a.allocate(), Some(0));
    assert_eq!(a.allocate(), Some(1));
    assert_eq!(a.remaining(), 2);
    assert_eq!(a.free(0), Ok(()));
    assert_eq!(a.remaining(), 3);
    assert_eq!(a.free(0), Err(InvalidFree));
    assert_eq!(a.remaining(), 3);
}

#[test]
fn lifo_reuse_of_freshly_freed_id() {
    let mut a = BlockAllocator::new(4, 16);
    assert_eq!(a.allocate(), Some(0));
    assert_eq!(a.allocate(), Some(1));
    assert_eq!(a.free(0), Ok(()));
    assert_eq!(a.allocate(), Some(0));
}

#[test]
fn config_getters_report_construction_values() {
    let a = BlockAllocator::new(7, 16);
    assert_eq!(a.num_blocks(), 7);
    assert_eq!(a.block_size(), 16);
    assert_eq!(a.remaining(), 7);
}
