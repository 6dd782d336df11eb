use shared_ownership::cell::{BorrowConflict, BorrowState, MutableCell};

#[test]
fn a_read_guard_blocks_a_writer_until_it_is_released() {
    let mut cell = MutableCell::new(5);
    let reader = cell.borrow().expect("nothing is outstanding");
    assert_eq!(cell.borrow_state(), BorrowState::SharedBorrowed(1));
    let refused = cell.borrow_mut();
    assert_eq!(
        refused.unwrap_err(),
        BorrowConflict { held: BorrowState::SharedBorrowed(1) }
    );
    assert_eq!(cell.borrow_state(), BorrowState::SharedBorrowed(1));
    cell.release_read(reader);
    assert_eq!(cell.borrow_state(), BorrowState::Unborrowed);
    let writer = cell.borrow_mut().expect("the read guard was released");
    assert_eq!(cell.borrow_state(), BorrowState::ExclusiveBorrowed);
    *cell.get_mut(&writer) += 10;
    cell.release_write(writer);
    assert_eq!(cell.into_inner(), 15);
}

#[test]
fn a_write_guard_blocks_readers_and_writers() {
    let mut cell = MutableCell::new(String::from("x"));
    let writer = cell.borrow_mut().unwrap();
    assert_eq!(
        cell.borrow().unwrap_err(),
        BorrowConflict { held: BorrowState::ExclusiveBorrowed }
    );
    assert_eq!(
        cell.borrow_mut().unwrap_err(),
        BorrowConflict { held: BorrowState::ExclusiveBorrowed }
    );
    cell.get_mut(&writer).push('y');
    cell.release_write(writer);
    let reader = cell.borrow().unwrap();
    assert_eq!(cell.get(&reader), "xy");
    cell.release_read(reader);
    assert_eq!(cell.borrow_state(), BorrowState::Unborrowed);
}

#[test]
fn readers_are_counted_up_and_down() {
    let mut cell = MutableCell::new(1u8);
    let a = cell.borrow().unwrap();
    let b = cell.borrow().unwrap();
    let c = cell.borrow().unwrap();
    assert_eq!(cell.borrow_state(), BorrowState::SharedBorrowed(3));
    assert_eq!(*cell.get(&a), 1);
    assert_eq!(*cell.get(&b), 1);
    cell.release_read(b);
    assert_eq!(cell.borrow_state(), BorrowState::SharedBorrowed(2));
    assert!(cell.borrow_mut().is_err());
    cell.release_read(a);
    cell.release_read(c);
    assert_eq!(cell.borrow_state(), BorrowState::Unborrowed);
    assert!(cell.borrow_mut().is_ok());
}

#[test]
fn replace_is_a_scoped_write() {
    let mut cell = MutableCell::new(1);
    assert_eq!(cell.replace(2), Ok(1));
    assert_eq!(cell.borrow_state(), BorrowState::Unborrowed);
    let reader = cell.borrow().unwrap();
    assert_eq!(
        cell.replace(3),
        Err(BorrowConflict { held: BorrowState::SharedBorrowed(1) })
    );
    assert_eq!(*cell.get(&reader), 2);
    assert_eq!(cell.borrow_state(), BorrowState::SharedBorrowed(1));
    cell.release_read(reader);
    assert_eq!(cell.replace(4), Ok(2));
    assert_eq!(cell.into_inner(), 4);
}

#[test]
fn a_cell_is_reusable_after_every_release() {
    let mut cell = MutableCell::new(0u32);
    for round in 0..5u32 {
        let writer = cell.borrow_mut().unwrap();
        *cell.get_mut(&writer) = round;
        cell.release_write(writer);
        let reader = cell.borrow().unwrap();
        assert_eq!(*cell.get(&reader), round);
        cell.release_read(reader);
        assert_eq!(cell.borrow_state(), BorrowState::Unborrowed);
    }
}
