use shared_ownership::cell::{BorrowConflict, BorrowState, MutableCell};
use shared_ownership::heap::{Heap, SharedHandle};

#[test]
fn every_owner_sees_what_one_owner_wrote() {
    let mut heap: Heap<MutableCell<i32>> = Heap::new();
    let value = SharedHandle::new(&mut heap, MutableCell::new(5));
    let a = value.clone(&mut heap);
    let b = value.clone(&mut heap);
    assert_eq!(value.strong_count(&heap), 3);

    let writer = value.borrow_mut(&mut heap).expect("nothing is outstanding");
    *value.write(&mut heap, &writer) += 10;
    value.release_write(&mut heap, writer);

    let reader = a.borrow(&mut heap).unwrap();
    assert_eq!(*a.read(&heap, &reader), 15);
    assert_eq!(*b.read(&heap, &reader), 15);
    a.release_read(&mut heap, reader);

    assert!(a.release(&mut heap).is_none());
    assert!(b.release(&mut heap).is_none());
    let cell = value.release(&mut heap).expect("the last owner takes the payload");
    assert_eq!(cell.into_inner(), 15);
}

#[test]
fn a_borrow_through_one_handle_blocks_the_others() {
    let mut heap: Heap<MutableCell<String>> = Heap::new();
    let first = SharedHandle::new(&mut heap, MutableCell::new(String::from("a")));
    let second = first.clone(&mut heap);

    let reader = first.borrow(&mut heap).unwrap();
    assert_eq!(
        second.borrow_mut(&mut heap).unwrap_err(),
        BorrowConflict { held: BorrowState::SharedBorrowed(1) }
    );
    let other = second.borrow(&mut heap).unwrap();
    assert_eq!(first.get(&heap).borrow_state(), BorrowState::SharedBorrowed(2));
    first.release_read(&mut heap, reader);
    second.release_read(&mut heap, other);

    let writer = second.borrow_mut(&mut heap).unwrap();
    assert_eq!(
        first.borrow(&mut heap).unwrap_err(),
        BorrowConflict { held: BorrowState::ExclusiveBorrowed }
    );
    assert_eq!(
        first.borrow_mut(&mut heap).unwrap_err(),
        BorrowConflict { held: BorrowState::ExclusiveBorrowed }
    );
    second.write(&mut heap, &writer).push('b');
    second.release_write(&mut heap, writer);
    assert_eq!(first.get(&heap).borrow_state(), BorrowState::Unborrowed);

    assert!(first.release(&mut heap).is_none());
    let cell = second.release(&mut heap).unwrap();
    assert_eq!(cell.into_inner(), "ab");
}
