//! The heap of control blocks, and the two kinds of handle into it.
//!
//! The heap is the one owner of all storage. A handle is a ticket: it names a
//! slot and carries an identity that the heap issued. Every operation on a
//! handle goes through the heap, which keeps, for each slot, the set of
//! tickets that are still outstanding; the counts in a control block are the
//! sizes of those sets.
//!
//! A heap of this kind is confined to one thread of control: every operation
//! that changes a count takes the heap by unique reference.

use crate::block::{BlockState, ControlBlock};
use std::marker::PhantomData;
use std::rc::Rc;
use vstd::prelude::*;

verus! {

/// One slot of the heap, as a mathematical value.
pub struct SlotState<T> {
    /// The control block, until its storage is released.
    pub block: Option<BlockState<T>>,
    /// The identities of the outstanding owning handles.
    pub strong: Set<nat>,
    /// The identities of the outstanding non-owning handles.
    pub weak: Set<nat>,
}

impl<T> SlotState<T> {
    /// The counts are the numbers of outstanding handles, and the storage is
    /// there exactly while a handle of either kind is outstanding.
    pub open spec fn wf(self) -> bool {
        &&& self.strong.finite()
        &&& self.weak.finite()
        &&& match self.block {
            Some(b) => {
                &&& b.wf()
                &&& b.strong == self.strong.len()
                &&& b.weak == self.weak.len()
                &&& !b.reclaimable()
            },
            None => self.strong.len() == 0 && self.weak.len() == 0,
        }
    }

    /// The payload has not been destroyed.
    pub open spec fn alive(self) -> bool {
        self.block is Some && self.block.unwrap().alive()
    }

    /// The storage of the block has not been released.
    pub open spec fn allocated(self) -> bool {
        self.block is Some
    }

    /// The number of outstanding owning handles.
    pub open spec fn strong_count(self) -> nat {
        self.strong.len()
    }

    /// The number of outstanding non-owning handles.
    pub open spec fn weak_count(self) -> nat {
        self.weak.len()
    }

    /// The payload, where it has not been destroyed.
    pub open spec fn payload(self) -> Option<T> {
        match self.block {
            Some(b) => b.payload,
            None => None,
        }
    }

    /// A block unless nothing refers to it any more.
    pub open spec fn keep(b: BlockState<T>) -> Option<BlockState<T>> {
        if b.reclaimable() {
            None
        } else {
            Some(b)
        }
    }

    /// A fresh slot around `value`, owned by the handle `id`.
    pub open spec fn fresh(value: T, id: nat) -> Self {
        SlotState {
            block: Some(BlockState::allocate(value)),
            strong: Set::empty().insert(id),
            weak: Set::empty(),
        }
    }

    /// The slot with one more owning handle, `id`.
    pub open spec fn with_strong(self, id: nat) -> Self {
        SlotState {
            block: Some(self.block.unwrap().retain_strong()),
            strong: self.strong.insert(id),
            weak: self.weak,
        }
    }

    /// The slot without the owning handle `id`. The payload goes with the
    /// last owning handle, the storage with the last handle of either kind.
    pub open spec fn without_strong(self, id: nat) -> Self {
        SlotState {
            block: Self::keep(self.block.unwrap().release_strong()),
            strong: self.strong.remove(id),
            weak: self.weak,
        }
    }

    /// The slot with one more non-owning handle, `id`.
    pub open spec fn with_weak(self, id: nat) -> Self {
        SlotState {
            block: Some(self.block.unwrap().retain_weak()),
            strong: self.strong,
            weak: self.weak.insert(id),
        }
    }

    /// The slot without the non-owning handle `id`. The storage goes with the
    /// last handle of either kind.
    pub open spec fn without_weak(self, id: nat) -> Self {
        SlotState {
            block: Self::keep(self.block.unwrap().release_weak()),
            strong: self.strong,
            weak: self.weak.remove(id),
        }
    }

    /// The slot around another payload.
    pub open spec fn with_payload(self, value: T) -> Self {
        SlotState { block: Some(self.block.unwrap().with_payload(value)), ..self }
    }

    /// A fresh slot is well formed, alive, and counts one owner.
    pub proof fn lemma_fresh(value: T, id: nat)
        ensures
            Self::fresh(value, id).wf(),
            Self::fresh(value, id).alive(),
            Self::fresh(value, id).strong_count() == 1,
            Self::fresh(value, id).weak_count() == 0,
    {
    }

    /// A new owning handle raises the strong count by one and changes
    /// nothing else.
    pub proof fn lemma_with_strong(self, id: nat)
        requires
            self.wf(),
            self.alive(),
            !self.strong.contains(id),
        ensures
            self.with_strong(id).wf(),
            self.with_strong(id).alive(),
            self.with_strong(id).strong_count() == self.strong_count() + 1,
            self.with_strong(id).weak_count() == self.weak_count(),
            self.with_strong(id).payload() == self.payload(),
    {
    }

    /// Giving up an owning handle lowers the strong count by one; the
    /// payload stays exactly while another owning handle is outstanding.
    pub proof fn lemma_without_strong(self, id: nat)
        requires
            self.wf(),
            self.strong.contains(id),
        ensures
            self.alive(),
            self.without_strong(id).wf(),
            self.without_strong(id).strong_count() == self.strong_count() - 1,
            self.without_strong(id).weak_count() == self.weak_count(),
            self.without_strong(id).alive() <==> self.strong_count() >= 2,
            self.without_strong(id).alive() ==> self.without_strong(id).payload()
                == self.payload(),
            self.without_strong(id).allocated() <==> self.strong_count() >= 2
                || self.weak_count() >= 1,
    {
        if self.strong.len() == 0 {
            self.strong.lemma_len0_is_empty();
        }
    }

    /// A new non-owning handle raises the weak count by one and changes
    /// nothing else.
    pub proof fn lemma_with_weak(self, id: nat)
        requires
            self.wf(),
            self.allocated(),
            !self.weak.contains(id),
        ensures
            self.with_weak(id).wf(),
            self.with_weak(id).alive() == self.alive(),
            self.with_weak(id).strong_count() == self.strong_count(),
            self.with_weak(id).weak_count() == self.weak_count() + 1,
            self.with_weak(id).payload() == self.payload(),
    {
    }

    /// Giving up a non-owning handle lowers the weak count by one and never
    /// touches the payload.
    pub proof fn lemma_without_weak(self, id: nat)
        requires
            self.wf(),
            self.weak.contains(id),
        ensures
            self.allocated(),
            self.without_weak(id).wf(),
            self.without_weak(id).strong_count() == self.strong_count(),
            self.without_weak(id).weak_count() == self.weak_count() - 1,
            self.without_weak(id).alive() == self.alive(),
            self.without_weak(id).payload() == self.payload(),
            self.without_weak(id).allocated() <==> self.strong_count() >= 1
                || self.weak_count() >= 2,
    {
        if self.weak.len() == 0 {
            self.weak.lemma_len0_is_empty();
        }
    }
}

/// An owning reference to a control block. It is neither `Clone` nor `Copy`:
/// a second owner is made by [`SharedHandle::clone`], which counts it, and
/// an owner goes by [`SharedHandle::release`], which counts it off. A handle
/// that is thrown away instead stays counted, and keeps its payload alive.
/// Its marker keeps it from being sent to another thread.
pub struct SharedHandle<T> {
    slot: usize,
    id: Ghost<nat>,
    marker: PhantomData<Rc<T>>,
}

/// A non-owning reference to a control block, or the empty handle, which
/// refers to nothing. Its marker keeps it from being sent to another thread.
pub struct WeakHandle<T> {
    slot: Option<usize>,
    id: Ghost<nat>,
    marker: PhantomData<Rc<T>>,
}

/// The store of control blocks.
pub struct Heap<T> {
    slots: Vec<Option<ControlBlock<T>>>,
    strong_ids: Ghost<Seq<Set<nat>>>,
    weak_ids: Ghost<Seq<Set<nat>>>,
    next_id: Ghost<nat>,
}

impl<T> SharedHandle<T> {
    /// The slot that the handle refers to.
    pub closed spec fn slot(&self) -> int {
        self.slot as int
    }

    /// The identity under which the heap knows the handle.
    pub closed spec fn id(&self) -> nat {
        self.id@
    }
}

impl<T> WeakHandle<T> {
    /// The slot that the handle refers to, if any.
    pub closed spec fn target(&self) -> Option<int> {
        match self.slot {
            Some(s) => Some(s as int),
            None => None,
        }
    }

    /// The identity under which the heap knows the handle.
    pub closed spec fn id(&self) -> nat {
        self.id@
    }

    /// The handle refers to nothing.
    pub open spec fn is_empty(&self) -> bool {
        self.target() is None
    }
}

/// The mathematical value of a slot, from what the heap stores for it.
pub closed spec fn slot_state<T>(
    block: Option<ControlBlock<T>>,
    strong: Set<nat>,
    weak: Set<nat>,
) -> SlotState<T> {
    SlotState {
        block: match block {
            Some(b) => Some(b@),
            None => None,
        },
        strong,
        weak,
    }
}

impl<T> View for Heap<T> {
    type V = Seq<SlotState<T>>;

    closed spec fn view(&self) -> Seq<SlotState<T>> {
        Seq::new(
            self.slots@.len(),
            |i: int| slot_state(self.slots@[i], self.strong_ids@[i], self.weak_ids@[i]),
        )
    }
}

impl<T> Heap<T> {
    /// The identity that the next handle will get.
    pub closed spec fn next_id(&self) -> nat {
        self.next_id@
    }

    /// The bookkeeping behind the view is consistent.
    pub closed spec fn inv(&self) -> bool {
        &&& self.strong_ids@.len() == self.slots@.len()
        &&& self.weak_ids@.len() == self.slots@.len()
        &&& forall|i: int|
            0 <= i < self.slots@.len() && self.slots@[i] is Some ==> (
            #[trigger] self.slots@[i]).unwrap().wf()
        &&& forall|i: int|
            0 <= i < self.slots@.len() ==> slot_state(
                #[trigger] self.slots@[i],
                self.strong_ids@[i],
                self.weak_ids@[i],
            ).wf()
        &&& forall|i: int, id: nat|
            0 <= i < self.slots@.len() && (#[trigger] self.strong_ids@[i].contains(id)) ==> id
                < self.next_id@
        &&& forall|i: int, id: nat|
            0 <= i < self.slots@.len() && (#[trigger] self.weak_ids@[i].contains(id)) ==> id
                < self.next_id@
    }

    /// Every slot is well formed, and every outstanding handle was issued
    /// before `next_id`.
    pub open spec fn wf(&self) -> bool {
        &&& self.inv()
        &&& forall|i: int| 0 <= i < self@.len() ==> (#[trigger] self@[i]).wf()
        &&& forall|i: int, id: nat|
            0 <= i < self@.len() && (#[trigger] self@[i].strong.contains(id)) ==> id
                < self.next_id()
        &&& forall|i: int, id: nat|
            0 <= i < self@.len() && (#[trigger] self@[i].weak.contains(id)) ==> id
                < self.next_id()
    }

    /// `h` is an outstanding owning handle of this heap.
    pub open spec fn owns(&self, h: &SharedHandle<T>) -> bool {
        &&& 0 <= h.slot() < self@.len()
        &&& self@[h.slot()].strong.contains(h.id())
    }

    /// `w` is an outstanding non-owning handle of this heap.
    pub open spec fn owns_weak(&self, w: &WeakHandle<T>) -> bool {
        &&& w.target() is Some
        &&& 0 <= w.target().unwrap() < self@.len()
        &&& self@[w.target().unwrap()].weak.contains(w.id())
    }

    /// A slot that an outstanding owning handle refers to is alive.
    pub proof fn lemma_owned_is_alive(&self, h: &SharedHandle<T>)
        requires
            self.wf(),
            self.owns(h),
        ensures
            self@[h.slot()].alive(),
            self@[h.slot()].payload() is Some,
            self@[h.slot()].strong_count() >= 1,
    {
        let s = self@[h.slot()];
        assert(s.wf());
        if s.strong.len() == 0 {
            s.strong.lemma_len0_is_empty();
        }
    }

    /// The payload of a slot is there exactly while an owning handle to it
    /// is outstanding, and its storage exactly while a handle of either kind
    /// is: the payload goes first, the storage after it or with it.
    pub proof fn lemma_two_phase(&self, slot: int)
        requires
            self.wf(),
            0 <= slot < self@.len(),
        ensures
            self@[slot].alive() <==> self@[slot].strong_count() >= 1,
            self@[slot].payload() is Some <==> self@[slot].alive(),
            self@[slot].allocated() <==> self@[slot].strong_count() >= 1
                || self@[slot].weak_count() >= 1,
            self@[slot].alive() ==> self@[slot].allocated(),
    {
        assert(self@[slot].wf());
    }

    /// A slot that an outstanding non-owning handle refers to is allocated.
    pub proof fn lemma_weakly_owned_is_allocated(&self, w: &WeakHandle<T>)
        requires
            self.wf(),
            self.owns_weak(w),
        ensures
            self@[w.target().unwrap()].allocated(),
            self@[w.target().unwrap()].weak_count() >= 1,
    {
        let s = self@[w.target().unwrap()];
        assert(s.wf());
        if s.weak.len() == 0 {
            s.weak.lemma_len0_is_empty();
        }
    }

    /// An empty heap.
    pub fn new() -> (heap: Self)
        ensures
            heap.wf(),
            heap@.len() == 0,
            heap.next_id() == 0,
    {
        Heap {
            slots: Vec::new(),
            strong_ids: Ghost(Seq::empty()),
            weak_ids: Ghost(Seq::empty()),
            next_id: Ghost(0),
        }
    }

    /// The number of slots that were ever allocated.
    pub fn len(&self) -> (n: usize)
        requires
            self.wf(),
        ensures
            n == self@.len(),
    {
        self.slots.len()
    }

    /// Whether the payload in `slot` has not been destroyed.
    pub fn is_alive(&self, slot: usize) -> (alive: bool)
        requires
            self.wf(),
        ensures
            alive == (slot < self@.len() && self@[slot as int].alive()),
    {
        if slot < self.slots.len() {
            match &self.slots[slot] {
                Some(block) => block.is_alive(),
                None => false,
            }
        } else {
            false
        }
    }

    /// Whether the storage of `slot` has not been released.
    pub fn is_allocated(&self, slot: usize) -> (allocated: bool)
        requires
            self.wf(),
        ensures
            allocated == (slot < self@.len() && self@[slot as int].allocated()),
    {
        if slot < self.slots.len() {
            self.slots[slot].is_some()
        } else {
            false
        }
    }
}


impl<T> Heap<T> {
    /// Puts a fresh block around `value` into a new slot and returns the
    /// slot's index.
    fn allocate_slot(&mut self, value: T) -> (slot: usize)
        requires
            old(self).wf(),
        ensures
            final(self).wf(),
            slot == old(self)@.len(),
            final(self).next_id() == old(self).next_id() + 1,
            final(self)@ == old(self)@.push(SlotState::fresh(value, old(self).next_id())),
    {
        let slot = self.slots.len();
        self.slots.push(Some(ControlBlock::allocate(value)));
        proof {
            SlotState::lemma_fresh(value, self.next_id@);
        }
        self.strong_ids = Ghost(self.strong_ids@.push(Set::empty().insert(self.next_id@)));
        self.weak_ids = Ghost(self.weak_ids@.push(Set::empty()));
        self.next_id = Ghost(self.next_id@ + 1);
        assert(self@ =~= old(self)@.push(SlotState::fresh(value, old(self).next_id())));
        slot
    }

    /// Counts one more owning handle on `slot` and issues its identity.
    fn retain_strong_at(&mut self, slot: usize)
        requires
            old(self).wf(),
            slot < old(self)@.len(),
            old(self)@[slot as int].alive(),
            old(self)@[slot as int].strong_count() < usize::MAX,
        ensures
            final(self).wf(),
            final(self).next_id() == old(self).next_id() + 1,
            final(self)@ == old(self)@.update(
                slot as int,
                old(self)@[slot as int].with_strong(old(self).next_id()),
            ),
    {
        proof {
            assert(self@[slot as int].wf());
            self@[slot as int].lemma_with_strong(self.next_id@);
        }
        let block = self.slots[slot].as_mut().unwrap();
        block.retain_strong();
        self.strong_ids = Ghost(
            self.strong_ids@.update(slot as int, self.strong_ids@[slot as int].insert(self.next_id@)),
        );
        self.next_id = Ghost(self.next_id@ + 1);
        assert(self@ =~= old(self)@.update(
            slot as int,
            old(self)@[slot as int].with_strong(old(self).next_id()),
        ));
    }

    /// Counts one owning handle fewer on `slot`, hands out the payload when
    /// that was the last one, and releases the storage when nothing refers
    /// to the block any more.
    fn release_strong_at(&mut self, slot: usize, id: Ghost<nat>) -> (payload: Option<T>)
        requires
            old(self).wf(),
            slot < old(self)@.len(),
            old(self)@[slot as int].strong.contains(id@),
        ensures
            final(self).wf(),
            final(self).next_id() == old(self).next_id(),
            final(self)@ == old(self)@.update(
                slot as int,
                old(self)@[slot as int].without_strong(id@),
            ),
            payload == old(self)@[slot as int].block.unwrap().released_payload(),
    {
        proof {
            assert(self@[slot as int].wf());
            self@[slot as int].lemma_without_strong(id@);
        }
        let block = self.slots[slot].as_mut().unwrap();
        let payload = block.release_strong();
        let gone = block.is_reclaimable();
        if gone {
            self.slots[slot] = None;
        }
        self.strong_ids = Ghost(
            self.strong_ids@.update(slot as int, self.strong_ids@[slot as int].remove(id@)),
        );
        assert(self@ =~= old(self)@.update(
            slot as int,
            old(self)@[slot as int].without_strong(id@),
        ));
        payload
    }

    /// Counts one more non-owning handle on `slot` and issues its identity.
    fn retain_weak_at(&mut self, slot: usize)
        requires
            old(self).wf(),
            slot < old(self)@.len(),
            old(self)@[slot as int].allocated(),
            old(self)@[slot as int].weak_count() < usize::MAX,
        ensures
            final(self).wf(),
            final(self).next_id() == old(self).next_id() + 1,
            final(self)@ == old(self)@.update(
                slot as int,
                old(self)@[slot as int].with_weak(old(self).next_id()),
            ),
    {
        proof {
            assert(self@[slot as int].wf());
            self@[slot as int].lemma_with_weak(self.next_id@);
        }
        let block = self.slots[slot].as_mut().unwrap();
        block.retain_weak();
        self.weak_ids = Ghost(
            self.weak_ids@.update(slot as int, self.weak_ids@[slot as int].insert(self.next_id@)),
        );
        self.next_id = Ghost(self.next_id@ + 1);
        assert(self@ =~= old(self)@.update(
            slot as int,
            old(self)@[slot as int].with_weak(old(self).next_id()),
        ));
    }

    /// Counts one non-owning handle fewer on `slot`, and releases the storage
    /// when nothing refers to the block any more.
    fn release_weak_at(&mut self, slot: usize, id: Ghost<nat>)
        requires
            old(self).wf(),
            slot < old(self)@.len(),
            old(self)@[slot as int].weak.contains(id@),
        ensures
            final(self).wf(),
            final(self).next_id() == old(self).next_id(),
            final(self)@ == old(self)@.update(
                slot as int,
                old(self)@[slot as int].without_weak(id@),
            ),
    {
        proof {
            assert(self@[slot as int].wf());
            self@[slot as int].lemma_without_weak(id@);
        }
        let block = self.slots[slot].as_mut().unwrap();
        block.release_weak();
        let gone = block.is_reclaimable();
        if gone {
            self.slots[slot] = None;
        }
        self.weak_ids = Ghost(
            self.weak_ids@.update(slot as int, self.weak_ids@[slot as int].remove(id@)),
        );
        assert(self@ =~= old(self)@.update(
            slot as int,
            old(self)@[slot as int].without_weak(id@),
        ));
    }
}

impl<T> Heap<T> {
    /// One more owning handle on the live block in `slot`.
    pub(crate) fn clone_at(&mut self, slot: usize) -> (handle: SharedHandle<T>)
        requires
            old(self).wf(),
            slot < old(self)@.len(),
            old(self)@[slot as int].alive(),
            old(self)@[slot as int].strong_count() < usize::MAX,
        ensures
            final(self).wf(),
            handle.slot() == slot,
            handle.id() == old(self).next_id(),
            final(self).next_id() == old(self).next_id() + 1,
            final(self)@ == old(self)@.update(
                slot as int,
                old(self)@[slot as int].with_strong(handle.id()),
            ),
    {
        let id = Ghost(self.next_id@);
        self.retain_strong_at(slot);
        SharedHandle { slot, id, marker: PhantomData }
    }

    /// One more owning handle on the block in `slot` if its payload has not
    /// been destroyed. Test and increment are one step.
    pub(crate) fn upgrade_at(&mut self, slot: usize) -> (strong: Option<SharedHandle<T>>)
        requires
            old(self).wf(),
            slot < old(self)@.len(),
            old(self)@[slot as int].allocated(),
            old(self)@[slot as int].strong_count() < usize::MAX,
        ensures
            final(self).wf(),
            strong is Some <==> old(self)@[slot as int].alive(),
            match strong {
                Some(handle) => {
                    &&& handle.slot() == slot
                    &&& handle.id() == old(self).next_id()
                    &&& final(self).next_id() == old(self).next_id() + 1
                    &&& final(self)@ == old(self)@.update(
                        slot as int,
                        old(self)@[slot as int].with_strong(handle.id()),
                    )
                    &&& final(self).owns(&handle)
                },
                None => {
                    &&& final(self)@ == old(self)@
                    &&& final(self).next_id() == old(self).next_id()
                },
            },
    {
        proof {
            assert(self@[slot as int].wf());
        }
        if self.slots[slot].as_ref().unwrap().is_alive() {
            Some(self.clone_at(slot))
        } else {
            None
        }
    }

    /// The payload of the live block in `slot`, for changing in place.
    pub(crate) fn payload_mut_at(&mut self, slot: usize) -> (value: &mut T)
        requires
            old(self).wf(),
            slot < old(self)@.len(),
            old(self)@[slot as int].alive(),
        ensures
            old(self)@[slot as int].payload() == Some(*value),
            final(self).wf(),
            final(self).next_id() == old(self).next_id(),
            final(self)@ == old(self)@.update(
                slot as int,
                old(self)@[slot as int].with_payload(*final(value)),
            ),
    {
        proof {
            assert(self@[slot as int].wf());
        }
        let block = self.slots[slot].as_mut().unwrap();
        block.payload_mut()
    }
}

impl<T> SharedHandle<T> {
    /// Allocates a control block around `value` and returns its first owning
    /// handle.
    pub fn new(heap: &mut Heap<T>, value: T) -> (handle: SharedHandle<T>)
        requires
            old(heap).wf(),
        ensures
            final(heap).wf(),
            handle.slot() == old(heap)@.len(),
            handle.id() == old(heap).next_id(),
            final(heap).next_id() == old(heap).next_id() + 1,
            final(heap)@ == old(heap)@.push(SlotState::fresh(value, handle.id())),
            final(heap).owns(&handle),
    {
        let id = Ghost(heap.next_id@);
        let slot = heap.allocate_slot(value);
        SharedHandle { slot, id, marker: PhantomData }
    }

    /// Makes one more owning handle to the same block. The payload is not
    /// touched.
    pub fn clone(&self, heap: &mut Heap<T>) -> (handle: SharedHandle<T>)
        requires
            old(heap).wf(),
            old(heap).owns(self),
            old(heap)@[self.slot()].strong_count() < usize::MAX,
        ensures
            final(heap).wf(),
            handle.slot() == self.slot(),
            handle.id() == old(heap).next_id(),
            final(heap).next_id() == old(heap).next_id() + 1,
            final(heap)@ == old(heap)@.update(
                self.slot(),
                old(heap)@[self.slot()].with_strong(handle.id()),
            ),
            final(heap).owns(&handle),
            final(heap).owns(self),
    {
        proof {
            heap.lemma_owned_is_alive(self);
        }
        let id = Ghost(heap.next_id@);
        heap.retain_strong_at(self.slot);
        SharedHandle { slot: self.slot, id, marker: PhantomData }
    }

    /// Gives the handle up. When it was the last owning handle, the payload
    /// is destroyed here and now: it leaves the heap and is handed to the
    /// caller. The storage of the block is released once no handle of either
    /// kind is left.
    pub fn release(self, heap: &mut Heap<T>) -> (payload: Option<T>)
        requires
            old(heap).wf(),
            old(heap).owns(&self),
        ensures
            final(heap).wf(),
            final(heap).next_id() == old(heap).next_id(),
            final(heap)@ == old(heap)@.update(
                self.slot(),
                old(heap)@[self.slot()].without_strong(self.id()),
            ),
            payload == if old(heap)@[self.slot()].strong_count() == 1 {
                old(heap)@[self.slot()].payload()
            } else {
                None
            },
            !final(heap).owns(&self),
    {
        proof {
            assert(heap@[self.slot()].wf());
        }
        heap.release_strong_at(self.slot, self.id)
    }

    /// The payload, for reading.
    pub fn get<'a>(&self, heap: &'a Heap<T>) -> (value: &'a T)
        requires
            heap.wf(),
            heap.owns(self),
        ensures
            heap@[self.slot()].payload() == Some(*value),
    {
        proof {
            heap.lemma_owned_is_alive(self);
            assert(heap@[self.slot()].wf());
        }
        heap.slots[self.slot].as_ref().unwrap().payload()
    }

    /// The number of outstanding owning handles to the block, this one
    /// included.
    pub fn strong_count(&self, heap: &Heap<T>) -> (n: usize)
        requires
            heap.wf(),
            heap.owns(self),
        ensures
            n == heap@[self.slot()].strong_count(),
            n >= 1,
    {
        proof {
            heap.lemma_owned_is_alive(self);
            assert(heap@[self.slot()].wf());
        }
        heap.slots[self.slot].as_ref().unwrap().strong_count()
    }

    /// The number of outstanding non-owning handles to the block.
    pub fn weak_count(&self, heap: &Heap<T>) -> (n: usize)
        requires
            heap.wf(),
            heap.owns(self),
        ensures
            n == heap@[self.slot()].weak_count(),
    {
        proof {
            heap.lemma_owned_is_alive(self);
            assert(heap@[self.slot()].wf());
        }
        heap.slots[self.slot].as_ref().unwrap().weak_count()
    }

    /// Makes a non-owning handle to the same block.
    pub fn downgrade(&self, heap: &mut Heap<T>) -> (weak: WeakHandle<T>)
        requires
            old(heap).wf(),
            old(heap).owns(self),
            old(heap)@[self.slot()].weak_count() < usize::MAX,
        ensures
            final(heap).wf(),
            weak.target() == Some(self.slot()),
            weak.id() == old(heap).next_id(),
            final(heap).next_id() == old(heap).next_id() + 1,
            final(heap)@ == old(heap)@.update(
                self.slot(),
                old(heap)@[self.slot()].with_weak(weak.id()),
            ),
            final(heap).owns_weak(&weak),
            final(heap).owns(self),
    {
        proof {
            heap.lemma_owned_is_alive(self);
        }
        let id = Ghost(heap.next_id@);
        heap.retain_weak_at(self.slot);
        WeakHandle { slot: Some(self.slot), id, marker: PhantomData }
    }

    /// The index of the slot that the handle refers to.
    pub fn slot_index(&self) -> (slot: usize)
        ensures
            slot == self.slot(),
    {
        self.slot
    }
}

impl<T> WeakHandle<T> {
    /// The handle that refers to nothing. It is counted nowhere.
    pub fn empty() -> (weak: WeakHandle<T>)
        ensures
            weak.is_empty(),
    {
        WeakHandle { slot: None, id: Ghost(0), marker: PhantomData }
    }

    /// Whether the handle refers to nothing.
    pub fn refers_to_nothing(&self) -> (empty: bool)
        ensures
            empty == self.is_empty(),
    {
        self.slot.is_none()
    }

    /// The index of the slot that the handle refers to, if any.
    pub fn slot_index(&self) -> (slot: Option<usize>)
        ensures
            slot is Some == self.target() is Some,
            slot is Some ==> slot.unwrap() == self.target().unwrap(),
    {
        self.slot
    }

    /// Tries to make an owning handle. There is one exactly when the handle
    /// refers to a block whose payload has not been destroyed; test and
    /// increment are one step on the heap.
    pub fn upgrade(&self, heap: &mut Heap<T>) -> (strong: Option<SharedHandle<T>>)
        requires
            old(heap).wf(),
            self.is_empty() || old(heap).owns_weak(self),
            !self.is_empty() ==> old(heap)@[self.target().unwrap()].strong_count() < usize::MAX,
        ensures
            final(heap).wf(),
            strong is Some <==> !self.is_empty() && old(heap)@[self.target().unwrap()].alive(),
            match strong {
                Some(handle) => {
                    &&& handle.slot() == self.target().unwrap()
                    &&& handle.id() == old(heap).next_id()
                    &&& final(heap).next_id() == old(heap).next_id() + 1
                    &&& final(heap)@ == old(heap)@.update(
                        handle.slot(),
                        old(heap)@[handle.slot()].with_strong(handle.id()),
                    )
                    &&& final(heap).owns(&handle)
                },
                None => {
                    &&& final(heap)@ == old(heap)@
                    &&& final(heap).next_id() == old(heap).next_id()
                },
            },
            self.is_empty() || final(heap).owns_weak(self),
    {
        match self.slot {
            None => None,
            Some(slot) => {
                proof {
                    heap.lemma_weakly_owned_is_allocated(self);
                }
                heap.upgrade_at(slot)
            },
        }
    }

    /// Makes one more non-owning handle to the same block; the copy of an
    /// empty handle is empty.
    pub fn clone(&self, heap: &mut Heap<T>) -> (weak: WeakHandle<T>)
        requires
            old(heap).wf(),
            self.is_empty() || old(heap).owns_weak(self),
            !self.is_empty() ==> old(heap)@[self.target().unwrap()].weak_count() < usize::MAX,
        ensures
            final(heap).wf(),
            weak.target() == self.target(),
            self.is_empty() ==> final(heap)@ == old(heap)@ && final(heap).next_id() == old(heap).next_id(),
            !self.is_empty() ==> {
                &&& weak.id() == old(heap).next_id()
                &&& final(heap).next_id() == old(heap).next_id() + 1
                &&& final(heap)@ == old(heap)@.update(
                    self.target().unwrap(),
                    old(heap)@[self.target().unwrap()].with_weak(weak.id()),
                )
                &&& final(heap).owns_weak(&weak)
                &&& final(heap).owns_weak(self)
            },
    {
        match self.slot {
            None => WeakHandle { slot: None, id: Ghost(0), marker: PhantomData },
            Some(slot) => {
                proof {
                    heap.lemma_weakly_owned_is_allocated(self);
                }
                let id = Ghost(heap.next_id@);
                heap.retain_weak_at(slot);
                WeakHandle { slot: Some(slot), id, marker: PhantomData }
            },
        }
    }

    /// Gives the handle up. The payload is never touched; the storage of the
    /// block is released once no handle of either kind is left.
    pub fn release(self, heap: &mut Heap<T>)
        requires
            old(heap).wf(),
            self.is_empty() || old(heap).owns_weak(&self),
        ensures
            final(heap).wf(),
            final(heap).next_id() == old(heap).next_id(),
            self.is_empty() ==> final(heap)@ == old(heap)@,
            !self.is_empty() ==> final(heap)@ == old(heap)@.update(
                self.target().unwrap(),
                old(heap)@[self.target().unwrap()].without_weak(self.id()),
            ),
            !final(heap).owns_weak(&self),
    {
        match self.slot {
            None => {},
            Some(slot) => {
                heap.release_weak_at(slot, self.id);
            },
        }
    }
}

} // verus!
