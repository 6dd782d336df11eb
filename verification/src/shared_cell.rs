//! A cell behind owning handles: many owners, one value that changes.
//!
//! An owning handle grants read access to its payload and nothing more. Where
//! the payload is a [`MutableCell`], the heap forwards the cell's own
//! operations, so the value is changed only under the write guard of the
//! cell, whichever handle asks.

use crate::cell::{BorrowConflict, BorrowState, MutableCell, ReadGuard, WriteGuard};
use crate::heap::{Heap, SharedHandle};
use vstd::prelude::*;

verus! {

/// The cell that `handle` refers to.
pub open spec fn cell_of<U>(heap: &Heap<MutableCell<U>>, handle: &SharedHandle<MutableCell<U>>)
    -> MutableCell<U> {
    heap@[handle.slot()].payload().unwrap()
}

/// The heaps differ in the cell that `handle` refers to, if at all.
pub open spec fn same_but_cell<U>(
    before: &Heap<MutableCell<U>>,
    after: &Heap<MutableCell<U>>,
    handle: &SharedHandle<MutableCell<U>>,
) -> bool {
    &&& after.next_id() == before.next_id()
    &&& after@ == before@.update(
        handle.slot(),
        before@[handle.slot()].with_payload(cell_of(after, handle)),
    )
}

impl<U> SharedHandle<MutableCell<U>> {
    /// Asks the cell for shared read access.
    pub fn borrow(&self, heap: &mut Heap<MutableCell<U>>) -> (result: Result<
        ReadGuard,
        BorrowConflict,
    >)
        requires
            old(heap).wf(),
            old(heap).owns(self),
            cell_of(old(heap), self).wf(),
        ensures
            final(heap).wf(),
            final(heap).owns(self),
            same_but_cell(old(heap), final(heap), self),
            cell_of(final(heap), self).wf(),
            cell_of(final(heap), self).value() == cell_of(old(heap), self).value(),
            result is Ok <==> cell_of(old(heap), self).state().admits_shared(),
            cell_of(final(heap), self).state() == if result is Ok {
                cell_of(old(heap), self).state().acquire_shared()
            } else {
                cell_of(old(heap), self).state()
            },
            result matches Err(conflict) ==> conflict.held == cell_of(old(heap), self).state(),
    {
        proof {
            heap.lemma_owned_is_alive(self);
        }
        let cell = heap.payload_mut_at(self.slot_index());
        cell.borrow()
    }

    /// Asks the cell for exclusive write access.
    pub fn borrow_mut(&self, heap: &mut Heap<MutableCell<U>>) -> (result: Result<
        WriteGuard,
        BorrowConflict,
    >)
        requires
            old(heap).wf(),
            old(heap).owns(self),
            cell_of(old(heap), self).wf(),
        ensures
            final(heap).wf(),
            final(heap).owns(self),
            same_but_cell(old(heap), final(heap), self),
            cell_of(final(heap), self).wf(),
            cell_of(final(heap), self).value() == cell_of(old(heap), self).value(),
            result is Ok <==> cell_of(old(heap), self).state().admits_exclusive(),
            cell_of(final(heap), self).state() == if result is Ok {
                BorrowState::ExclusiveBorrowed
            } else {
                cell_of(old(heap), self).state()
            },
            result matches Err(conflict) ==> conflict.held == cell_of(old(heap), self).state(),
    {
        proof {
            heap.lemma_owned_is_alive(self);
        }
        let cell = heap.payload_mut_at(self.slot_index());
        cell.borrow_mut()
    }

    /// Hands a read guard back to the cell.
    pub fn release_read(&self, heap: &mut Heap<MutableCell<U>>, guard: ReadGuard)
        requires
            old(heap).wf(),
            old(heap).owns(self),
            cell_of(old(heap), self).wf(),
            cell_of(old(heap), self).state() is SharedBorrowed,
        ensures
            final(heap).wf(),
            final(heap).owns(self),
            same_but_cell(old(heap), final(heap), self),
            cell_of(final(heap), self).wf(),
            cell_of(final(heap), self).value() == cell_of(old(heap), self).value(),
            cell_of(final(heap), self).state() == cell_of(old(heap), self).state().release_one(),
    {
        proof {
            heap.lemma_owned_is_alive(self);
        }
        let cell = heap.payload_mut_at(self.slot_index());
        cell.release_read(guard);
    }

    /// Hands the write guard back to the cell.
    pub fn release_write(&self, heap: &mut Heap<MutableCell<U>>, guard: WriteGuard)
        requires
            old(heap).wf(),
            old(heap).owns(self),
            cell_of(old(heap), self).wf(),
            cell_of(old(heap), self).state() is ExclusiveBorrowed,
        ensures
            final(heap).wf(),
            final(heap).owns(self),
            same_but_cell(old(heap), final(heap), self),
            cell_of(final(heap), self).wf(),
            cell_of(final(heap), self).value() == cell_of(old(heap), self).value(),
            cell_of(final(heap), self).state() == BorrowState::Unborrowed,
    {
        proof {
            heap.lemma_owned_is_alive(self);
        }
        let cell = heap.payload_mut_at(self.slot_index());
        cell.release_write(guard);
    }

    /// The value in the cell, for reading under a read guard.
    pub fn read<'a>(&self, heap: &'a Heap<MutableCell<U>>, guard: &ReadGuard) -> (value: &'a U)
        requires
            heap.wf(),
            heap.owns(self),
            cell_of(heap, self).state() is SharedBorrowed,
        ensures
            *value == cell_of(heap, self).value(),
    {
        self.get(heap).get(guard)
    }

    /// The value in the cell, for changing in place under the write guard.
    pub fn write<'a>(&self, heap: &'a mut Heap<MutableCell<U>>, guard: &WriteGuard) -> (value:
        &'a mut U)
        requires
            old(heap).wf(),
            old(heap).owns(self),
            cell_of(old(heap), self).state() is ExclusiveBorrowed,
        ensures
            *value == cell_of(old(heap), self).value(),
            final(heap).wf(),
            final(heap).owns(self),
            same_but_cell(old(heap), final(heap), self),
            cell_of(final(heap), self).value() == *final(value),
            cell_of(final(heap), self).state() == cell_of(old(heap), self).state(),
    {
        proof {
            heap.lemma_owned_is_alive(self);
        }
        let cell = heap.payload_mut_at(self.slot_index());
        cell.get_mut(guard)
    }
}

} // verus!
