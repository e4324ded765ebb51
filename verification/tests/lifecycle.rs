use nano_batch_rs::block_allocator::BlockAllocator;
use nano_batch_rs::request::{Request, Status};

#[test]
fn should_end_when_max_tokens_reached() {
    let mut a = BlockAllocator::new(4, 4);
    let mut r = Request::new(0, vec![], 3, vec![]);
    assert!(r.start(&mut a));
    assert!(r.append_token(11, &mut a));
    assert!(!r.should_end());
    assert!(r.append_token(22, &mut a));
    assert!(!r.should_end());
    assert!(r.append_token(33, &mut a));
    assert_eq!(r.len(), 3);
    assert!(r.should_end());
}

#[test]
fn should_end_when_last_token_is_end_token() {
    let mut a = BlockAllocator::new(4, 4);
    let mut r = Request::new(1, vec![], 10, vec![50256]);
    assert!(r.start(&mut a));
    assert!(r.append_token(50256, &mut a));
    assert!(r.should_end());
}

#[test]
fn should_end_false_when_no_condition_met() {
    let mut a = BlockAllocator::new(4, 4);
    let mut r = Request::new(2, vec![], 5, vec![50256]);
    assert!(r.start(&mut a));
    assert!(r.append_token(42, &mut a));
    assert_eq!(r.len(), 1);
    assert!(!r.should_end());
}

#[test]
fn should_end_with_zero_budget() {
    let mut a = BlockAllocator::new(4, 4);
    let mut r = Request::new(3, vec![], 0, vec![]);
    assert!(r.start(&mut a));
    assert!(r.should_end());
}

#[test]
fn block_growth_crosses_boundary_at_seventh_token() {
    let mut a = BlockAllocator::new(8, 16);
    let prompt: Vec<u32> = vec![5; 10];
    let mut r = Request::new(7, prompt, 100, vec![]);
    assert!(matches!(r.status, Status::WaitingPrefill));
    assert!(r.start(&mut a));
    assert!(matches!(r.status, Status::Running));
    // one block covers the prompt of length 10
    assert_eq!(r.mapped_blocks().len(), 1);
    assert_eq!(a.remaining(), 7);
    // six more tokens fill the first block without requesting another
    for t in 0..6u32 {
        assert!(r.append_token(t, &mut a));
        assert_eq!(r.mapped_blocks().len(), 1);
        assert_eq!(a.remaining(), 7);
    }
    // the seventh generated token crosses the boundary: one allocation
    assert!(r.append_token(6, &mut a));
    assert_eq!(r.mapped_blocks().len(), 2);
    assert_eq!(a.remaining(), 6);
}

#[test]
fn start_covers_multi_block_prompt() {
    let mut a = BlockAllocator::new(8, 4);
    let prompt: Vec<u32> = vec![1; 9];
    let mut r = Request::new(4, prompt, 10, vec![]);
    assert!(r.start(&mut a));
    // nine tokens over blocks of four need three blocks
    assert_eq!(r.mapped_blocks().len(), 3);
    assert_eq!(a.remaining(), 5);
    assert_eq!(r.mapped_blocks(), &vec![0, 1, 2]);
}

#[test]
fn start_backpressure_leaves_request_waiting() {
    let mut a = BlockAllocator::new(1, 4);
    let prompt: Vec<u32> = vec![1; 9];
    let mut r = Request::new(5, prompt, 10, vec![]);
    assert!(!r.start(&mut a));
    assert!(matches!(r.status, Status::WaitingPrefill));
    assert_eq!(r.mapped_blocks().len(), 0);
    assert_eq!(a.remaining(), 1);
}

#[test]
fn append_backpressure_leaves_request_unchanged() {
    let mut a = BlockAllocator::new(0, 4);
    let mut r = Request::new(6, vec![], 10, vec![]);
    assert!(r.start(&mut a));
    // the first token needs a block and none exists
    assert!(!r.append_token(9, &mut a));
    assert_eq!(r.len(), 0);
    assert_eq!(r.mapped_blocks().len(), 0);
}

#[test]
fn finish_returns_every_block_and_restores_partition() {
    let mut a = BlockAllocator::new(4, 4);
    let before = a.remaining();
    let prompt: Vec<u32> = vec![2; 6];
    let mut r = Request::new(8, prompt, 10, vec![]);
    assert!(r.start(&mut a));
    assert_eq!(r.mapped_blocks().len(), 2);
    assert!(r.append_token(1, &mut a));
    assert!(r.append_token(2, &mut a));
    assert!(r.append_token(3, &mut a));
    // nine tokens over blocks of four: a third block by now
    assert_eq!(r.mapped_blocks().len(), 3);
    assert_eq!(a.remaining(), 1);
    r.finish(&mut a);
    assert!(matches!(r.status, Status::Finished));
    assert_eq!(r.mapped_blocks().len(), 0);
    // the partition matches its state before the request was created
    assert_eq!(a.remaining(), before);
    let mut ids: Vec<u32> = Vec::new();
    while let Some(id) = a.allocate() {
        ids.push(id);
    }
    ids.sort();
    assert_eq!(ids, vec![0, 1, 2, 3]);
}

#[test]
fn finish_with_no_blocks_held() {
    let mut a = BlockAllocator::new(2, 4);
    let mut r = Request::new(9, vec![], 5, vec![]);
    assert!(r.start(&mut a));
    r.finish(&mut a);
    assert!(matches!(r.status, Status::Finished));
    assert_eq!(a.remaining(), 2);
}
