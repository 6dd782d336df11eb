use shared_ownership::block::ControlBlock;

#[test]
fn a_fresh_block_counts_one_owner() {
    let block = ControlBlock::allocate(7);
    assert_eq!(block.strong_count(), 1);
    assert_eq!(block.weak_count(), 0);
    assert!(block.is_alive());
    assert!(!block.is_reclaimable());
    assert_eq!(*block.payload(), 7);
}

#[test]
fn release_strong_hands_out_the_payload_at_zero_only() {
    let mut block = ControlBlock::allocate(String::from("v"));
    block.retain_strong();
    block.retain_strong();
    assert_eq!(block.strong_count(), 3);
    assert_eq!(block.release_strong(), None);
    assert_eq!(block.release_strong(), None);
    assert!(block.is_alive());
    assert_eq!(block.release_strong(), Some(String::from("v")));
    assert_eq!(block.strong_count(), 0);
    assert!(!block.is_alive());
    assert!(block.is_reclaimable());
}

#[test]
fn the_shell_outlives_the_payload_while_weak_handles_remain() {
    let mut block = ControlBlock::allocate(1);
    block.retain_weak();
    block.retain_weak();
    assert_eq!(block.weak_count(), 2);
    assert_eq!(block.release_strong(), Some(1));
    assert!(!block.is_alive());
    assert!(!block.is_reclaimable());
    assert!(!block.try_retain_strong());
    assert_eq!(block.strong_count(), 0);
    block.release_weak();
    assert!(!block.is_reclaimable());
    block.release_weak();
    assert!(block.is_reclaimable());
}

#[test]
fn try_retain_strong_counts_while_alive() {
    let mut block = ControlBlock::allocate(1);
    assert!(block.try_retain_strong());
    assert_eq!(block.strong_count(), 2);
    *block.payload_mut() = 9;
    assert_eq!(*block.payload(), 9);
    assert_eq!(block.release_strong(), None);
    assert_eq!(block.release_strong(), Some(9));
}
