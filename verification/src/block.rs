//! The control block: counts and payload of one allocation.

use vstd::prelude::*;

verus! {

/// What a control block holds, as a mathematical value.
pub struct BlockState<T> {
    /// The number of outstanding owning handles.
    pub strong: nat,
    /// The number of outstanding non-owning handles.
    pub weak: nat,
    /// The payload, present until the last owning handle is gone.
    pub payload: Option<T>,
}

impl<T> BlockState<T> {
    /// The payload is present exactly while an owning handle is outstanding.
    pub open spec fn wf(self) -> bool {
        self.payload is Some <==> self.strong >= 1
    }

    /// The payload has not been destroyed.
    pub open spec fn alive(self) -> bool {
        self.strong >= 1
    }

    /// No handle of either kind is left, so the storage itself can go.
    pub open spec fn reclaimable(self) -> bool {
        self.strong == 0 && self.weak == 0
    }

    /// A fresh block around `value`, owned by one handle.
    pub open spec fn allocate(value: T) -> Self {
        BlockState { strong: 1, weak: 0, payload: Some(value) }
    }

    /// One more owning handle.
    pub open spec fn retain_strong(self) -> Self {
        BlockState { strong: self.strong + 1, ..self }
    }

    /// One owning handle fewer; the payload goes with the last one.
    pub open spec fn release_strong(self) -> Self {
        BlockState {
            strong: (self.strong - 1) as nat,
            weak: self.weak,
            payload: if self.strong == 1 {
                None
            } else {
                self.payload
            },
        }
    }

    /// The payload that `release_strong` hands out: the block's own when the
    /// last owning handle goes, nothing otherwise.
    pub open spec fn released_payload(self) -> Option<T> {
        if self.strong == 1 {
            self.payload
        } else {
            None
        }
    }

    /// One more non-owning handle.
    pub open spec fn retain_weak(self) -> Self {
        BlockState { weak: self.weak + 1, ..self }
    }

    /// One non-owning handle fewer.
    pub open spec fn release_weak(self) -> Self {
        BlockState { weak: (self.weak - 1) as nat, ..self }
    }

    /// The block after an attempt to turn a non-owning handle into an owning
    /// one: unchanged once the payload is gone, one more owner before that.
    pub open spec fn upgrade(self) -> Self {
        if self.alive() {
            self.retain_strong()
        } else {
            self
        }
    }

    /// The same block around another payload.
    pub open spec fn with_payload(self, value: T) -> Self {
        BlockState { payload: Some(value), ..self }
    }
}

/// Counts and payload of one allocation.
pub struct ControlBlock<T> {
    value: Option<T>,
    strong: usize,
    weak: usize,
}

impl<T> View for ControlBlock<T> {
    type V = BlockState<T>;

    closed spec fn view(&self) -> BlockState<T> {
        BlockState { strong: self.strong as nat, weak: self.weak as nat, payload: self.value }
    }
}

impl<T> ControlBlock<T> {
    /// The counts fit the machine word, and the payload is present exactly
    /// while the strong count is not zero.
    pub open spec fn wf(&self) -> bool {
        &&& self@.wf()
        &&& self@.strong <= usize::MAX
        &&& self@.weak <= usize::MAX
    }

    /// A block around `value` with one owning handle and no other.
    pub fn allocate(value: T) -> (block: Self)
        ensures
            block.wf(),
            block@ == BlockState::allocate(value),
    {
        ControlBlock { value: Some(value), strong: 1, weak: 0 }
    }

    /// Counts one more owning handle.
    pub fn retain_strong(&mut self)
        requires
            old(self).wf(),
            old(self)@.alive(),
            old(self)@.strong < usize::MAX,
        ensures
            final(self).wf(),
            final(self)@ == old(self)@.retain_strong(),
    {
        self.strong = self.strong + 1;
    }

    /// Counts one owning handle fewer. When that was the last one the payload
    /// leaves the block and is handed to the caller, once.
    pub fn release_strong(&mut self) -> (payload: Option<T>)
        requires
            old(self).wf(),
            old(self)@.alive(),
        ensures
            final(self).wf(),
            final(self)@ == old(self)@.release_strong(),
            payload == old(self)@.released_payload(),
    {
        self.strong = self.strong - 1;
        if self.strong == 0 {
            self.value.take()
        } else {
            None
        }
    }

    /// Counts one more non-owning handle.
    pub fn retain_weak(&mut self)
        requires
            old(self).wf(),
            old(self)@.weak < usize::MAX,
        ensures
            final(self).wf(),
            final(self)@ == old(self)@.retain_weak(),
    {
        self.weak = self.weak + 1;
    }

    /// Counts one non-owning handle fewer.
    pub fn release_weak(&mut self)
        requires
            old(self).wf(),
            old(self)@.weak >= 1,
        ensures
            final(self).wf(),
            final(self)@ == old(self)@.release_weak(),
    {
        self.weak = self.weak - 1;
    }

    /// Counts one more owning handle if the payload is still there, and says
    /// whether it did. Test and increment are one step.
    pub fn try_retain_strong(&mut self) -> (upgraded: bool)
        requires
            old(self).wf(),
            old(self)@.strong < usize::MAX,
        ensures
            final(self).wf(),
            upgraded == old(self)@.alive(),
            final(self)@ == old(self)@.upgrade(),
    {
        if self.strong == 0 {
            false
        } else {
            self.strong = self.strong + 1;
            true
        }
    }

    /// The number of owning handles.
    pub fn strong_count(&self) -> (n: usize)
        ensures
            n == self@.strong,
    {
        self.strong
    }

    /// The number of non-owning handles.
    pub fn weak_count(&self) -> (n: usize)
        ensures
            n == self@.weak,
    {
        self.weak
    }

    /// Whether the payload is still there.
    pub fn is_alive(&self) -> (alive: bool)
        ensures
            alive == self@.alive(),
    {
        self.strong >= 1
    }

    /// Whether no handle of either kind is left.
    pub fn is_reclaimable(&self) -> (reclaimable: bool)
        ensures
            reclaimable == self@.reclaimable(),
    {
        self.strong == 0 && self.weak == 0
    }

    /// The payload, for reading.
    pub fn payload(&self) -> (value: &T)
        requires
            self.wf(),
            self@.alive(),
        ensures
            self@.payload == Some(*value),
    {
        self.value.as_ref().unwrap()
    }

    /// The payload, for changing in place.
    pub fn payload_mut(&mut self) -> (value: &mut T)
        requires
            old(self).wf(),
            old(self)@.alive(),
        ensures
            old(self)@.payload == Some(*value),
            final(self).wf(),
            final(self)@ == old(self)@.with_payload(*final(value)),
    {
        self.value.as_mut().unwrap()
    }
}


/// What can happen to the handles of one block.
pub enum Event {
    /// An owning handle is cloned.
    Clone,
    /// An owning handle is given up.
    Drop,
    /// A non-owning handle is made from an owning one.
    Downgrade,
    /// A non-owning handle is asked for an owning one.
    Upgrade,
    /// A non-owning handle is cloned.
    CloneWeak,
    /// A non-owning handle is given up.
    DropWeak,
}

impl<T> BlockState<T> {
    /// The event can happen: a handle of the kind that it starts from is
    /// outstanding.
    pub open spec fn admits(self, event: Event) -> bool {
        match event {
            Event::Clone | Event::Drop | Event::Downgrade => self.strong >= 1,
            Event::Upgrade | Event::CloneWeak | Event::DropWeak => self.weak >= 1,
        }
    }

    /// The block after the event.
    pub open spec fn after(self, event: Event) -> Self {
        match event {
            Event::Clone => self.retain_strong(),
            Event::Drop => self.release_strong(),
            Event::Downgrade | Event::CloneWeak => self.retain_weak(),
            Event::Upgrade => self.upgrade(),
            Event::DropWeak => self.release_weak(),
        }
    }

    /// The event makes an owning handle.
    pub open spec fn acquires(self, event: Event) -> bool {
        event is Clone || (event is Upgrade && self.alive())
    }

    /// The event destroys the payload.
    pub open spec fn destroys(self, event: Event) -> bool {
        event is Drop && self.strong == 1
    }

    /// Every event of the sequence can happen in its turn.
    pub open spec fn admits_all(self, events: Seq<Event>) -> bool
        decreases events.len(),
    {
        events.len() == 0 || (self.admits(events[0]) && self.after(events[0]).admits_all(
            events.drop_first(),
        ))
    }

    /// The block after the events of the sequence.
    pub open spec fn after_all(self, events: Seq<Event>) -> Self
        decreases events.len(),
    {
        if events.len() == 0 {
            self
        } else {
            self.after(events[0]).after_all(events.drop_first())
        }
    }

    /// The number of owning handles that the events of the sequence make.
    pub open spec fn acquired(self, events: Seq<Event>) -> nat
        decreases events.len(),
    {
        if events.len() == 0 {
            0
        } else {
            self.after(events[0]).acquired(events.drop_first()) + if self.acquires(events[0]) {
                1nat
            } else {
                0nat
            }
        }
    }

    /// The number of owning handles that the events of the sequence give up.
    pub open spec fn given_up(events: Seq<Event>) -> nat
        decreases events.len(),
    {
        if events.len() == 0 {
            0
        } else {
            Self::given_up(events.drop_first()) + if events[0] is Drop {
                1nat
            } else {
                0nat
            }
        }
    }

    /// The number of times that the events of the sequence destroy the
    /// payload.
    pub open spec fn destructions(self, events: Seq<Event>) -> nat
        decreases events.len(),
    {
        if events.len() == 0 {
            0
        } else {
            self.after(events[0]).destructions(events.drop_first()) + if self.destroys(
                events[0],
            ) {
                1nat
            } else {
                0nat
            }
        }
    }

    /// After any sequence of events the strong count is the number of owning
    /// handles that are outstanding: those there were, and those made, less
    /// those given up. No event gives up a handle that is not outstanding, so
    /// the count never goes below zero.
    pub proof fn lemma_strong_count_is_outstanding(self, events: Seq<Event>)
        requires
            self.wf(),
            self.admits_all(events),
        ensures
            self.after_all(events).wf(),
            self.after_all(events).strong + Self::given_up(events) == self.strong + self.acquired(
                events,
            ),
        decreases events.len(),
    {
        if events.len() > 0 {
            self.after(events[0]).lemma_strong_count_is_outstanding(events.drop_first());
        }
    }

    /// The payload is destroyed at most once, and exactly once when the last
    /// owning handle is given up: a sequence of events destroys it if and
    /// only if it was alive before and is not alive after.
    pub proof fn lemma_destroyed_exactly_once(self, events: Seq<Event>)
        requires
            self.wf(),
            self.admits_all(events),
        ensures
            self.destructions(events) <= 1,
            self.destructions(events) == 1 <==> self.alive() && !self.after_all(events).alive(),
            self.after_all(events).alive() ==> self.alive() && self.after_all(events).payload
                == self.payload,
        decreases events.len(),
    {
        if events.len() > 0 {
            self.after(events[0]).lemma_destroyed_exactly_once(events.drop_first());
        }
    }

    /// Once every owning handle is given up, an upgrade yields nothing,
    /// whatever happened in between.
    pub proof fn lemma_upgrade_fails_after_last_drop(self, events: Seq<Event>)
        requires
            self.wf(),
            !self.alive(),
            self.admits_all(events),
        ensures
            !self.after_all(events).alive(),
            self.after_all(events).upgrade() == self.after_all(events),
        decreases events.len(),
    {
        if events.len() > 0 {
            self.after(events[0]).lemma_upgrade_fails_after_last_drop(events.drop_first());
        }
    }

    /// While an owning handle is outstanding, an upgrade yields a handle and
    /// raises the strong count by one; giving that handle up brings the
    /// block back to what it was.
    pub proof fn lemma_upgrade_succeeds_while_alive(self)
        requires
            self.wf(),
            self.alive(),
        ensures
            self.upgrade().wf(),
            self.upgrade().strong == self.strong + 1,
            self.upgrade().payload == self.payload,
            self.upgrade().release_strong() == self,
    {
    }
}

} // verus!
