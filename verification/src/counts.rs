//! The changes that a count can undergo, as functions from the value seen to
//! the value stored and to what the caller has to do.
//!
//! Each change is a single step from the old value of the count: the test
//! and the arithmetic are one function, so that a count shared between
//! threads can apply it in one atomic update.

use crate::block::BlockState;
use vstd::prelude::*;

verus! {

/// A change to one count.
#[derive(Clone, Copy, Debug, PartialEq, Eq, Structural)]
pub enum Step {
    /// One more handle, unless the count is zero.
    RetainLive,
    /// One handle fewer.
    Release,
}

/// What went wrong with a count.
#[derive(Clone, Copy, Debug, PartialEq, Eq, Structural)]
pub enum CountFault {
    /// A handle was given up or cloned though the count was zero: more
    /// handles were in use than were counted.
    Underflow,
    /// The count is at the limit of the machine word and cannot count one
    /// more handle.
    Overflow,
}

/// What an attempt to make an owning handle from a non-owning one came to.
#[derive(Clone, Copy, Debug, PartialEq, Eq, Structural)]
pub enum Upgrade {
    /// There is one more owning handle; the strong count is now `strong`.
    Upgraded { strong: usize },
    /// The payload is gone: no owning handle was outstanding.
    Gone,
    /// The strong count is at the limit of the machine word.
    Saturated,
}

/// What giving up an owning handle came to.
#[derive(Clone, Copy, Debug, PartialEq, Eq, Structural)]
pub struct Released {
    /// The strong count after the release.
    pub remaining: usize,
    /// This release was the last one: the caller destroys the payload.
    pub destroys_payload: bool,
    /// No handle of either kind is left: the caller frees the storage.
    pub frees_storage: bool,
}

/// The count that a step stores when it sees `count`, or nothing where the
/// step does not apply.
pub open spec fn stepped(step: Step, count: int) -> Option<int> {
    match step {
        Step::RetainLive => if 1 <= count < usize::MAX {
            Some(count + 1)
        } else {
            None
        },
        Step::Release => if count >= 1 {
            Some(count - 1)
        } else {
            None
        },
    }
}

/// The step applies to a count of this value.
pub open spec fn applies(step: Step, count: usize) -> bool {
    stepped(step, count as int) is Some
}

/// Applies a step to the value of a count.
pub fn step(change: Step, count: usize) -> (next: Option<usize>)
    ensures
        next is Some <==> applies(change, count),
        next matches Some(n) ==> n == stepped(change, count as int).unwrap(),
{
    match change {
        Step::RetainLive => if count == 0 {
            None
        } else {
            count.checked_add(1)
        },
        Step::Release => count.checked_sub(1),
    }
}

/// What a step that counts one more handle came to, for a handle that must
/// be there, from the count that the step saw: the new count, or the fault.
pub fn retained(fetched: Result<usize, usize>) -> (outcome: Result<usize, CountFault>)
    ensures
        outcome == match fetched {
            Ok(before) => if before < usize::MAX {
                Ok::<usize, CountFault>((before + 1) as usize)
            } else {
                Err::<usize, CountFault>(CountFault::Overflow)
            },
            Err(before) => Err::<usize, CountFault>(
                if before == 0 {
                    CountFault::Underflow
                } else {
                    CountFault::Overflow
                },
            ),
        },
{
    match fetched {
        Ok(before) => match before.checked_add(1) {
            Some(count) => Ok(count),
            None => Err(CountFault::Overflow),
        },
        Err(before) => if before == 0 {
            Err(CountFault::Underflow)
        } else {
            Err(CountFault::Overflow)
        },
    }
}

/// What `Step::RetainLive` came to for an upgrade, from the count that the
/// step saw.
pub fn upgraded(fetched: Result<usize, usize>) -> (outcome: Upgrade)
    ensures
        outcome == match fetched {
            Ok(before) => if before < usize::MAX {
                Upgrade::Upgraded { strong: (before + 1) as usize }
            } else {
                Upgrade::Saturated
            },
            Err(before) => if before == 0 {
                Upgrade::Gone
            } else {
                Upgrade::Saturated
            },
        },
{
    match fetched {
        Ok(before) => match before.checked_add(1) {
            Some(strong) => Upgrade::Upgraded { strong },
            None => Upgrade::Saturated,
        },
        Err(before) => if before == 0 {
            Upgrade::Gone
        } else {
            Upgrade::Saturated
        },
    }
}

/// What `Step::Release` came to, from the count that the step saw: the new
/// count and whether the handle was the last one, or the fault.
pub fn released(fetched: Result<usize, usize>) -> (outcome: Result<(usize, bool), CountFault>)
    ensures
        outcome == match fetched {
            Ok(before) => if before >= 1 {
                Ok::<(usize, bool), CountFault>(((before - 1) as usize, before == 1))
            } else {
                Err::<(usize, bool), CountFault>(CountFault::Underflow)
            },
            Err(_) => Err::<(usize, bool), CountFault>(CountFault::Underflow),
        },
{
    match fetched {
        Ok(before) => match before.checked_sub(1) {
            Some(remaining) => Ok((remaining, before == 1)),
            None => Err(CountFault::Underflow),
        },
        Err(_) => Err(CountFault::Underflow),
    }
}

/// The number of non-owning handles behind `shares` shares in the storage,
/// of which the owning handles hold one while `strong` is not zero.
pub fn weak_of(shares: usize, strong: usize) -> (weak: usize)
    ensures
        weak == if strong >= 1 && shares >= 1 {
            shares - 1
        } else {
            shares as int
        },
{
    if strong >= 1 && shares >= 1 {
        shares - 1
    } else {
        shares
    }
}

/// The steps on a strong count are the changes of the control block: a clone
/// and a successful upgrade store what `retain_strong` counts, an upgrade
/// applies exactly while the payload is alive, and a release stores what
/// `release_strong` counts and is the last one exactly when the payload goes.
pub proof fn lemma_steps_follow_the_block<T>(block: BlockState<T>)
    requires
        block.wf(),
        block.strong < usize::MAX,
    ensures
        stepped(Step::RetainLive, block.strong as int) is Some <==> block.alive(),
        block.alive() ==> stepped(Step::RetainLive, block.strong as int) == Some(
            block.upgrade().strong as int,
        ),
        block.alive() ==> stepped(Step::Release, block.strong as int) == Some(
            block.release_strong().strong as int,
        ),
        !block.alive() ==> stepped(Step::Release, block.strong as int) is None,
        block.alive() ==> (block.strong == 1 <==> block.release_strong().payload is None),
{
}

} // verus!
