//! The counts of a control block that is shared between threads.
//!
//! Each count is an atomic word, and every change to it is one atomic update
//! that tests and stores in the same step. Two threads that give up the last
//! two handles at once see different values of the count, so exactly one of
//! them is told to destroy the payload; an upgrade that races with the last
//! release either comes first and keeps the payload alive, or sees zero and
//! yields nothing.
//!
//! The block holds the counts only. The payload lives with the caller, who
//! acts on what a release reports.

use crate::counts::{
    applies, released, retained, step, upgraded, weak_of, CountFault, Released, Step, Upgrade,
};
use std::sync::atomic::{AtomicUsize, Ordering};
use vstd::prelude::*;

verus! {

/// Applies `change` to the counter in one atomic update, by
/// `AtomicUsize::fetch_update`. The result holds the value that the update
/// saw: `Ok` where the step applied to it, and its result was stored; `Err`
/// where it did not apply, and the counter was left as it was.
#[verifier::external_body]
fn fetch_step(counter: &AtomicUsize, change: Step) -> (fetched: Result<usize, usize>)
    ensures
        match fetched {
            Ok(before) => applies(change, before),
            Err(before) => !applies(change, before),
        },
{
    counter.fetch_update(Ordering::AcqRel, Ordering::Acquire, |count| step(change, count))
}

/// The counts of one block. The strong count is the number of owning
/// handles. All owning handles together hold one share in the storage, and
/// every non-owning handle holds one; the storage goes with the last share.
pub struct AtomicCounts {
    strong: AtomicUsize,
    shares: AtomicUsize,
}

impl AtomicCounts {
    /// The counts of a fresh block: one owning handle, no other.
    pub fn new() -> (counts: AtomicCounts) {
        AtomicCounts { strong: AtomicUsize::new(1), shares: AtomicUsize::new(1) }
    }

    /// Counts one more owning handle, for the clone of one that is
    /// outstanding, and returns the new strong count.
    pub fn retain_strong(&self) -> (outcome: Result<usize, CountFault>)
        ensures
            outcome matches Ok(strong) ==> strong >= 2,
    {
        retained(fetch_step(&self.strong, Step::RetainLive))
    }

    /// Counts one more owning handle if the payload is still alive. The test
    /// and the increment are one atomic step.
    pub fn upgrade(&self) -> (outcome: Upgrade)
        ensures
            outcome matches Upgrade::Upgraded { strong } ==> strong >= 2,
    {
        upgraded(fetch_step(&self.strong, Step::RetainLive))
    }

    /// Counts one owning handle fewer. The release that takes the strong
    /// count to zero is the one that destroys the payload, and it gives up
    /// the share that the owning handles held in the storage. The one fault
    /// that a release can meet is a count that is zero already.
    pub fn release_strong(&self) -> (outcome: Result<Released, CountFault>)
        ensures
            outcome matches Ok(r) ==> (r.destroys_payload <==> r.remaining == 0) && (
            r.frees_storage ==> r.destroys_payload) && r.remaining < usize::MAX,
            outcome matches Err(fault) ==> fault == CountFault::Underflow,
    {
        match released(fetch_step(&self.strong, Step::Release)) {
            Ok((remaining, last)) => {
                if last {
                    match released(fetch_step(&self.shares, Step::Release)) {
                        Ok((_, last_share)) => Ok(
                            Released { remaining, destroys_payload: true, frees_storage: last_share },
                        ),
                        Err(fault) => Err(fault),
                    }
                } else {
                    Ok(Released { remaining, destroys_payload: false, frees_storage: false })
                }
            },
            Err(fault) => Err(fault),
        }
    }

    /// Counts one more non-owning handle and returns the number of shares in
    /// the storage.
    pub fn retain_weak(&self) -> (outcome: Result<usize, CountFault>)
        ensures
            outcome matches Ok(shares) ==> shares >= 2,
    {
        retained(fetch_step(&self.shares, Step::RetainLive))
    }

    /// Counts one non-owning handle fewer, and says whether the caller frees
    /// the storage: whether that was the last share. The one fault that a
    /// release can meet is a count that is zero already.
    pub fn release_weak(&self) -> (outcome: Result<bool, CountFault>)
        ensures
            outcome matches Err(fault) ==> fault == CountFault::Underflow,
    {
        match released(fetch_step(&self.shares, Step::Release)) {
            Ok((_, last_share)) => Ok(last_share),
            Err(fault) => Err(fault),
        }
    }

    /// The number of owning handles, as it was at some moment of the call.
    pub fn strong_count(&self) -> (strong: usize) {
        self.strong.load(Ordering::Acquire)
    }

    /// The number of non-owning handles, from the counts as they were at
    /// some moment of the call: the shares, less the one that the owning
    /// handles hold while there are any.
    pub fn weak_count(&self) -> (weak: usize) {
        let shares = self.shares.load(Ordering::Acquire);
        let strong = self.strong.load(Ordering::Acquire);
        weak_of(shares, strong)
    }
}

} // verus!
