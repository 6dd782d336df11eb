//! A cell that checks shared and exclusive access when it is asked for.
//!
//! A guard is a ticket for one access. It is handed out by `borrow` or
//! `borrow_mut` and handed back by `release_read` or `release_write`; between
//! the two the cell counts it in its borrow state. A guard that is thrown
//! away instead of handed back stays counted, and the cell stays borrowed.
//! [`MutableCell::replace`] is an access that begins and ends in one call.

use vstd::prelude::*;

verus! {

/// The access that is outstanding on a cell.
#[derive(Clone, Copy, Debug, PartialEq, Eq, Structural)]
pub enum BorrowState {
    /// No guard is outstanding.
    Unborrowed,
    /// That many read guards are outstanding, at least one.
    SharedBorrowed(usize),
    /// One write guard is outstanding.
    ExclusiveBorrowed,
}

impl BorrowState {
    /// A shared state counts at least one reader.
    pub open spec fn wf(self) -> bool {
        self matches BorrowState::SharedBorrowed(n) ==> n >= 1
    }

    /// The number of guards that are outstanding.
    pub open spec fn outstanding(self) -> nat {
        match self {
            BorrowState::Unborrowed => 0,
            BorrowState::SharedBorrowed(n) => n as nat,
            BorrowState::ExclusiveBorrowed => 1,
        }
    }

    /// One more read guard can be handed out: no write guard is outstanding,
    /// and the count of readers still fits the machine word.
    pub open spec fn admits_shared(self) -> bool {
        match self {
            BorrowState::Unborrowed => true,
            BorrowState::SharedBorrowed(n) => n < usize::MAX,
            BorrowState::ExclusiveBorrowed => false,
        }
    }

    /// A write guard can be handed out: no guard at all is outstanding.
    pub open spec fn admits_exclusive(self) -> bool {
        self is Unborrowed
    }

    /// The state after one more read guard was handed out.
    pub open spec fn acquire_shared(self) -> BorrowState {
        match self {
            BorrowState::SharedBorrowed(n) => BorrowState::SharedBorrowed((n + 1) as usize),
            _ => BorrowState::SharedBorrowed(1),
        }
    }

    /// The state after the write guard was handed out.
    pub open spec fn acquire_exclusive(self) -> BorrowState {
        BorrowState::ExclusiveBorrowed
    }

    /// The state after one guard was handed back.
    pub open spec fn release_one(self) -> BorrowState {
        match self {
            BorrowState::SharedBorrowed(n) => if n <= 1 {
                BorrowState::Unborrowed
            } else {
                BorrowState::SharedBorrowed((n - 1) as usize)
            },
            _ => BorrowState::Unborrowed,
        }
    }

    /// The cell may pass from this state to `next` in one step: a reader
    /// more or fewer, or the writer in or out, and nothing else. There is no
    /// step between a shared and an exclusive state.
    pub open spec fn steps_to(self, next: BorrowState) -> bool {
        match (self, next) {
            (BorrowState::Unborrowed, BorrowState::SharedBorrowed(n)) => n == 1,
            (BorrowState::SharedBorrowed(n), BorrowState::SharedBorrowed(m)) => m == n + 1 || m
                + 1 == n,
            (BorrowState::SharedBorrowed(n), BorrowState::Unborrowed) => n == 1,
            (BorrowState::Unborrowed, BorrowState::ExclusiveBorrowed) => true,
            (BorrowState::ExclusiveBorrowed, BorrowState::Unborrowed) => true,
            _ => false,
        }
    }

    /// The state after `k` guards were handed back, one after the other.
    pub open spec fn release_many(self, k: nat) -> BorrowState
        decreases k,
    {
        if k == 0 {
            self
        } else {
            self.release_one().release_many((k - 1) as nat)
        }
    }
}

/// Why a borrow was refused.
#[derive(Clone, Copy, Debug, PartialEq, Eq, Structural)]
pub struct BorrowConflict {
    /// The access that was outstanding when the borrow was asked for.
    pub held: BorrowState,
}

/// The ticket for one shared read access.
#[derive(Debug)]
pub struct ReadGuard {
    ticket: (),
}

/// The ticket for the one exclusive write access.
#[derive(Debug)]
pub struct WriteGuard {
    ticket: (),
}

/// A value with a borrow state that is checked at access time.
pub struct MutableCell<T> {
    value: T,
    state: BorrowState,
}

impl<T> MutableCell<T> {
    /// The value in the cell.
    pub closed spec fn value(&self) -> T {
        self.value
    }

    /// The access that is outstanding.
    pub closed spec fn state(&self) -> BorrowState {
        self.state
    }

    /// The borrow state is well formed.
    pub open spec fn wf(&self) -> bool {
        self.state().wf()
    }

    /// A cell around `value` on which nothing is outstanding.
    pub fn new(value: T) -> (cell: Self)
        ensures
            cell.wf(),
            cell.value() == value,
            cell.state() == BorrowState::Unborrowed,
    {
        MutableCell { value, state: BorrowState::Unborrowed }
    }

    /// The access that is outstanding.
    pub fn borrow_state(&self) -> (state: BorrowState)
        ensures
            state == self.state(),
    {
        self.state
    }

    /// Asks for shared read access. It is refused while the write guard is
    /// outstanding, and when the count of readers is at the limit of the
    /// machine word; otherwise the cell counts one more reader.
    pub fn borrow(&mut self) -> (result: Result<ReadGuard, BorrowConflict>)
        requires
            old(self).wf(),
        ensures
            final(self).wf(),
            final(self).value() == old(self).value(),
            result is Ok <==> old(self).state().admits_shared(),
            result is Ok ==> final(self).state() == old(self).state().acquire_shared(),
            result matches Err(conflict) ==> conflict.held == old(self).state() && final(self).state() == old(self).state(),
    {
        match self.state {
            BorrowState::Unborrowed => {
                self.state = BorrowState::SharedBorrowed(1);
                Ok(ReadGuard { ticket: () })
            },
            BorrowState::SharedBorrowed(n) => {
                if n < usize::MAX {
                    self.state = BorrowState::SharedBorrowed(n + 1);
                    Ok(ReadGuard { ticket: () })
                } else {
                    Err(BorrowConflict { held: self.state })
                }
            },
            BorrowState::ExclusiveBorrowed => Err(BorrowConflict { held: self.state }),
        }
    }

    /// Asks for exclusive write access. It is refused while any guard is
    /// outstanding.
    pub fn borrow_mut(&mut self) -> (result: Result<WriteGuard, BorrowConflict>)
        requires
            old(self).wf(),
        ensures
            final(self).wf(),
            final(self).value() == old(self).value(),
            result is Ok <==> old(self).state().admits_exclusive(),
            result is Ok ==> final(self).state() == old(self).state().acquire_exclusive(),
            result matches Err(conflict) ==> conflict.held == old(self).state() && final(self).state() == old(self).state(),
    {
        match self.state {
            BorrowState::Unborrowed => {
                self.state = BorrowState::ExclusiveBorrowed;
                Ok(WriteGuard { ticket: () })
            },
            _ => Err(BorrowConflict { held: self.state }),
        }
    }

    /// Hands a read guard back: one reader fewer, and no borrow at all after
    /// the last one.
    pub fn release_read(&mut self, guard: ReadGuard)
        requires
            old(self).wf(),
            old(self).state() is SharedBorrowed,
        ensures
            final(self).wf(),
            final(self).value() == old(self).value(),
            final(self).state() == old(self).state().release_one(),
    {
        match self.state {
            BorrowState::SharedBorrowed(n) => {
                if n <= 1 {
                    self.state = BorrowState::Unborrowed;
                } else {
                    self.state = BorrowState::SharedBorrowed(n - 1);
                }
            },
            _ => {},
        }
    }

    /// Hands the write guard back: nothing is outstanding afterwards.
    pub fn release_write(&mut self, guard: WriteGuard)
        requires
            old(self).wf(),
            old(self).state() is ExclusiveBorrowed,
        ensures
            final(self).wf(),
            final(self).value() == old(self).value(),
            final(self).state() == old(self).state().release_one(),
            final(self).state() == BorrowState::Unborrowed,
    {
        self.state = BorrowState::Unborrowed;
    }

    /// The value, for reading under a read guard.
    pub fn get(&self, guard: &ReadGuard) -> (value: &T)
        requires
            self.state() is SharedBorrowed,
        ensures
            *value == self.value(),
    {
        &self.value
    }

    /// The value, for changing in place under the write guard.
    pub fn get_mut(&mut self, guard: &WriteGuard) -> (value: &mut T)
        requires
            old(self).state() is ExclusiveBorrowed,
        ensures
            *value == old(self).value(),
            final(self).value() == *final(value),
            final(self).state() == old(self).state(),
    {
        &mut self.value
    }

    /// Puts `value` into the cell and returns what was there, under a write
    /// access that begins and ends inside the call: the borrow state is the
    /// same before and after, whether the access was granted or refused.
    pub fn replace(&mut self, value: T) -> (result: Result<T, BorrowConflict>)
        requires
            old(self).wf(),
        ensures
            final(self).wf(),
            final(self).state() == old(self).state(),
            result is Ok <==> old(self).state().admits_exclusive(),
            result matches Ok(previous) ==> previous == old(self).value() && final(self).value()
                == value,
            result matches Err(conflict) ==> conflict.held == old(self).state() && final(self).value() == old(self).value(),
    {
        match self.borrow_mut() {
            Ok(guard) => {
                let mut value = value;
                std::mem::swap(self.get_mut(&guard), &mut value);
                self.release_write(guard);
                Ok(value)
            },
            Err(conflict) => Err(conflict),
        }
    }

    /// Takes the cell apart and returns the value.
    pub fn into_inner(self) -> (value: T)
        ensures
            value == self.value(),
    {
        self.value
    }
}

/// Every change of the borrow state is a legal step: a borrow that is
/// granted and a guard that is handed back move the cell along
/// unborrowed, shared and back, or unborrowed, exclusive and back.
pub proof fn lemma_steps_are_legal(state: BorrowState)
    requires
        state.wf(),
    ensures
        state.admits_shared() ==> state.steps_to(state.acquire_shared())
            && state.acquire_shared().wf(),
        state.admits_exclusive() ==> state.steps_to(state.acquire_exclusive()),
        state.outstanding() >= 1 ==> state.steps_to(state.release_one())
            && state.release_one().wf(),
        state.admits_shared() ==> state.acquire_shared().release_one() == state,
        state.admits_exclusive() ==> state.acquire_exclusive().release_one() == state,
{
}

/// A cell that counts readers rejects a writer.
pub proof fn lemma_shared_rejects_exclusive(state: BorrowState)
    requires
        state.wf(),
        state is SharedBorrowed,
    ensures
        !state.admits_exclusive(),
{
}

/// A cell that is borrowed exclusively rejects readers and writers alike.
pub proof fn lemma_exclusive_rejects_all(state: BorrowState)
    requires
        state is ExclusiveBorrowed,
    ensures
        !state.admits_shared(),
        !state.admits_exclusive(),
{
}

/// Handing back every outstanding guard leaves the cell unborrowed, and
/// handing back fewer leaves it borrowed.
pub proof fn lemma_release_all_guards(state: BorrowState, k: nat)
    requires
        state.wf(),
        k <= state.outstanding(),
    ensures
        state.release_many(k).wf(),
        state.release_many(k).outstanding() == state.outstanding() - k,
        k == state.outstanding() <==> state.release_many(k) == BorrowState::Unborrowed,
    decreases k,
{
    if k > 0 {
        lemma_release_all_guards(state.release_one(), (k - 1) as nat);
    }
}

} // verus!
