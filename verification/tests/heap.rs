use shared_ownership::heap::{Heap, SharedHandle, WeakHandle};

#[test]
fn strong_count_is_the_number_of_outstanding_handles() {
    let mut heap: Heap<String> = Heap::new();
    let a = SharedHandle::new(&mut heap, String::from("payload"));
    assert_eq!(a.strong_count(&heap), 1);
    let b = a.clone(&mut heap);
    assert_eq!(a.strong_count(&heap), 2);
    {
        let c = a.clone(&mut heap);
        assert_eq!(a.strong_count(&heap), 3);
        assert!(c.release(&mut heap).is_none());
    }
    assert_eq!(a.strong_count(&heap), 2);
    assert_eq!(b.get(&heap), "payload");
    assert!(b.release(&mut heap).is_none());
    assert_eq!(a.strong_count(&heap), 1);
    assert_eq!(a.release(&mut heap), Some(String::from("payload")));
}

#[test]
fn the_payload_is_destroyed_once_with_the_last_handle() {
    let mut heap: Heap<u32> = Heap::new();
    let first = SharedHandle::new(&mut heap, 7);
    let slot = first.slot_index();
    let mut handles = vec![first];
    for _ in 0..9 {
        let copy = handles[0].clone(&mut heap);
        handles.push(copy);
    }
    assert_eq!(handles[0].strong_count(&heap), 10);
    let mut destroyed = 0;
    let mut left = 10;
    while let Some(handle) = handles.pop() {
        let payload = handle.release(&mut heap);
        left -= 1;
        if let Some(value) = payload {
            assert_eq!(value, 7);
            assert_eq!(left, 0);
            destroyed += 1;
        } else {
            assert!(heap.is_alive(slot));
        }
    }
    assert_eq!(destroyed, 1);
    assert!(!heap.is_alive(slot));
    assert!(!heap.is_allocated(slot));
}

#[test]
fn upgrade_succeeds_while_a_strong_handle_is_outstanding() {
    let mut heap: Heap<i32> = Heap::new();
    let strong = SharedHandle::new(&mut heap, 5);
    let weak = strong.downgrade(&mut heap);
    assert_eq!(strong.strong_count(&heap), 1);
    assert_eq!(strong.weak_count(&heap), 1);
    let upgraded = weak.upgrade(&mut heap).expect("the payload is alive");
    assert_eq!(strong.strong_count(&heap), 2);
    assert_eq!(*upgraded.get(&heap), 5);
    assert!(upgraded.release(&mut heap).is_none());
    assert_eq!(strong.strong_count(&heap), 1);
    assert_eq!(strong.release(&mut heap), Some(5));
    weak.release(&mut heap);
}

#[test]
fn upgrade_fails_for_good_once_the_payload_is_gone() {
    let mut heap: Heap<i32> = Heap::new();
    let strong = SharedHandle::new(&mut heap, 5);
    let slot = strong.slot_index();
    let weak = strong.downgrade(&mut heap);
    let other = weak.clone(&mut heap);
    assert_eq!(strong.weak_count(&heap), 2);
    assert_eq!(strong.release(&mut heap), Some(5));
    assert!(!heap.is_alive(slot));
    assert!(heap.is_allocated(slot));
    assert!(weak.upgrade(&mut heap).is_none());
    assert!(other.upgrade(&mut heap).is_none());
    weak.release(&mut heap);
    assert!(heap.is_allocated(slot));
    assert!(other.upgrade(&mut heap).is_none());
    other.release(&mut heap);
    assert!(!heap.is_allocated(slot));
}

#[test]
fn the_empty_weak_handle_never_upgrades() {
    let mut heap: Heap<i32> = Heap::new();
    let empty: WeakHandle<i32> = WeakHandle::empty();
    assert!(empty.refers_to_nothing());
    assert_eq!(empty.slot_index(), None);
    assert!(empty.upgrade(&mut heap).is_none());
    let copy = empty.clone(&mut heap);
    assert!(copy.refers_to_nothing());
    copy.release(&mut heap);
    empty.release(&mut heap);
    assert_eq!(heap.len(), 0);
}

#[test]
fn storage_goes_with_the_last_handle_of_either_kind() {
    let mut heap: Heap<i32> = Heap::new();
    let strong = SharedHandle::new(&mut heap, 1);
    let slot = strong.slot_index();
    assert_eq!(strong.release(&mut heap), Some(1));
    assert!(!heap.is_allocated(slot));

    let strong = SharedHandle::new(&mut heap, 2);
    let slot = strong.slot_index();
    let weak = strong.downgrade(&mut heap);
    assert_eq!(weak.slot_index(), Some(slot));
    weak.release(&mut heap);
    assert!(heap.is_alive(slot));
    assert_eq!(strong.weak_count(&heap), 0);
    assert_eq!(strong.release(&mut heap), Some(2));
    assert!(!heap.is_allocated(slot));
    assert!(!heap.is_alive(99));
    assert!(!heap.is_allocated(99));
}

#[test]
fn handles_to_different_blocks_count_apart() {
    let mut heap: Heap<&'static str> = Heap::new();
    let a = SharedHandle::new(&mut heap, "a");
    let b = SharedHandle::new(&mut heap, "b");
    let a2 = a.clone(&mut heap);
    assert_eq!(a.strong_count(&heap), 2);
    assert_eq!(b.strong_count(&heap), 1);
    assert_eq!(*a2.get(&heap), "a");
    assert_eq!(*b.get(&heap), "b");
    assert_eq!(heap.len(), 2);
    assert_eq!(b.release(&mut heap), Some("b"));
    assert_eq!(a.strong_count(&heap), 2);
    assert!(a.release(&mut heap).is_none());
    assert_eq!(a2.release(&mut heap), Some("a"));
}
