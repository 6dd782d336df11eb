use shared_ownership::atomic::AtomicCounts;
use shared_ownership::counts::{CountFault, Released, Upgrade};
use std::sync::Arc;

#[test]
fn fresh_counts_hold_one_owner() {
    let counts = AtomicCounts::new();
    assert_eq!(counts.strong_count(), 1);
    assert_eq!(counts.weak_count(), 0);
}

#[test]
fn clone_and_release_move_the_strong_count() {
    let counts = AtomicCounts::new();
    assert_eq!(counts.retain_strong(), Ok(2));
    assert_eq!(counts.retain_strong(), Ok(3));
    assert_eq!(counts.strong_count(), 3);
    assert_eq!(
        counts.release_strong(),
        Ok(Released { remaining: 2, destroys_payload: false, frees_storage: false })
    );
    assert_eq!(
        counts.release_strong(),
        Ok(Released { remaining: 1, destroys_payload: false, frees_storage: false })
    );
    assert_eq!(
        counts.release_strong(),
        Ok(Released { remaining: 0, destroys_payload: true, frees_storage: true })
    );
    assert_eq!(counts.strong_count(), 0);
    assert_eq!(counts.release_strong(), Err(CountFault::Underflow));
    assert_eq!(counts.retain_strong(), Err(CountFault::Underflow));
    assert_eq!(counts.strong_count(), 0);
}

#[test]
fn the_storage_waits_for_the_last_weak_handle() {
    let counts = AtomicCounts::new();
    assert_eq!(counts.retain_weak(), Ok(2));
    assert_eq!(counts.retain_weak(), Ok(3));
    assert_eq!(counts.weak_count(), 2);
    assert_eq!(counts.upgrade(), Upgrade::Upgraded { strong: 2 });
    assert_eq!(
        counts.release_strong(),
        Ok(Released { remaining: 1, destroys_payload: false, frees_storage: false })
    );
    assert_eq!(
        counts.release_strong(),
        Ok(Released { remaining: 0, destroys_payload: true, frees_storage: false })
    );
    assert_eq!(counts.weak_count(), 2);
    assert_eq!(counts.upgrade(), Upgrade::Gone);
    assert_eq!(counts.release_weak(), Ok(false));
    assert_eq!(counts.upgrade(), Upgrade::Gone);
    assert_eq!(counts.release_weak(), Ok(true));
    assert_eq!(counts.release_weak(), Err(CountFault::Underflow));
    assert_eq!(counts.retain_weak(), Err(CountFault::Underflow));
}

#[test]
fn interleaved_owners_leave_the_count_at_what_is_outstanding() {
    let counts = Arc::new(AtomicCounts::new());
    counts.retain_weak().unwrap();
    let owners: Vec<Arc<AtomicCounts>> = (0..8).map(|_| Arc::clone(&counts)).collect();
    let mut destroyed = 0;
    for round in 0..2000 {
        for (index, owner) in owners.iter().enumerate() {
            owner.retain_strong().unwrap();
            match owners[(index + round) % owners.len()].upgrade() {
                Upgrade::Upgraded { strong } => {
                    assert!(strong >= 3);
                    assert!(!owner.release_strong().unwrap().destroys_payload);
                }
                other => panic!("the payload is alive, got {:?}", other),
            }
        }
        for owner in owners.iter().rev() {
            if owner.release_strong().unwrap().destroys_payload {
                destroyed += 1;
            }
        }
        assert_eq!(counts.strong_count(), 1);
    }
    assert_eq!(counts.strong_count(), 1);
    assert_eq!(counts.weak_count(), 1);
    assert_eq!(destroyed, 0);
}

#[test]
fn the_last_of_many_releases_destroys_the_payload_exactly_once() {
    for owners in 1..40usize {
        let counts = AtomicCounts::new();
        counts.retain_weak().unwrap();
        for _ in 1..owners {
            counts.retain_strong().unwrap();
        }
        let mut destroyed = 0;
        let mut freed = 0;
        for turn in 0..owners {
            if turn % 3 == 0 {
                if let Upgrade::Upgraded { .. } = counts.upgrade() {
                    assert!(!counts.release_strong().unwrap().destroys_payload);
                }
            }
            let released = counts.release_strong().unwrap();
            assert_eq!(released.remaining, owners - turn - 1);
            if released.destroys_payload {
                destroyed += 1;
            }
            if released.frees_storage {
                freed += 1;
            }
        }
        assert_eq!(destroyed, 1);
        assert_eq!(freed, 0);
        assert_eq!(counts.strong_count(), 0);
        assert_eq!(counts.upgrade(), Upgrade::Gone);
        assert_eq!(counts.weak_count(), 1);
        assert_eq!(counts.release_weak(), Ok(true));
    }
}
