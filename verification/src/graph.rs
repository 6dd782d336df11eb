//! A tree of nodes that own their children and observe their parent.
//!
//! A node holds an owning handle to each child and a non-owning handle to its
//! parent, each behind a cell. Owning goes down and observing goes up, so a
//! parent and its child refer to each other without keeping each other
//! alive.

use crate::cell::{BorrowState, MutableCell};
use crate::graph_model::{
    alive, allocated_count, cascade, child_at, child_pos, coherent, held, lemma_cascade,
    lemma_cascade_keeps_held, lemma_reparented, lemma_step_coherent, lemma_step_frame,
    lemma_step_measure, lemma_with_child, lemma_with_node, lemma_with_strong, live_count,
    owned, parent_of, reparented, step_graph, step_pending, unstored, with_child, with_node,
    with_parent, with_strong, with_weak, without_strong, Content, NodeState, ParentLink,
};
use crate::heap::{Heap, SharedHandle, SlotState, WeakHandle};
use vstd::pervasive::unreached;
use vstd::prelude::*;

verus! {

/// A node of the object graph.
pub struct Node {
    value: i32,
    parent: MutableCell<Option<WeakHandle<Node>>>,
    children: MutableCell<Vec<SharedHandle<Node>>>,
}

/// The link that a handle to a parent stands for.
pub open spec fn link_of(parent: Option<WeakHandle<Node>>) -> Option<ParentLink> {
    match parent {
        Some(weak) => match weak.target() {
            Some(slot) => Some(ParentLink { slot, id: weak.id() }),
            None => None,
        },
        None => None,
    }
}

impl Node {
    /// What the node holds.
    pub closed spec fn content(&self) -> Content {
        Content {
            value: self.value,
            parent: link_of(self.parent.value()),
            children: self.children.value()@,
        }
    }

    /// Nothing is outstanding on either cell of the node.
    pub closed spec fn wf(&self) -> bool {
        &&& self.parent.state() == BorrowState::Unborrowed
        &&& self.children.state() == BorrowState::Unborrowed
    }

    /// A node around `value` without parent or children.
    pub fn new(value: i32) -> (node: Node)
        ensures
            node.wf(),
            node.content() == (Content { value, parent: None, children: Seq::empty() }),
    {
        Node { value, parent: MutableCell::new(None), children: MutableCell::new(Vec::new()) }
    }

    /// The payload value.
    pub fn value(&self) -> (value: i32)
        ensures
            value == self.content().value,
    {
        self.value
    }

    /// Makes `child` the last child of the node, under a write access to the
    /// cell of the children.
    pub fn push_child(&mut self, child: SharedHandle<Node>)
        requires
            old(self).wf(),
        ensures
            final(self).wf(),
            final(self).content() == (Content {
                children: old(self).content().children.push(child),
                ..old(self).content()
            }),
    {
        match self.children.borrow_mut() {
            Ok(guard) => {
                self.children.get_mut(&guard).push(child);
                self.children.release_write(guard);
            },
            Err(_) => {
                assert(false);
            },
        }
    }

    /// Puts `parent` in the place of the handle to the parent and returns
    /// the handle that was there, under a write access to its cell.
    pub fn replace_parent(&mut self, parent: Option<WeakHandle<Node>>) -> (previous: Option<
        WeakHandle<Node>,
    >)
        requires
            old(self).wf(),
        ensures
            final(self).wf(),
            final(self).content() == (Content {
                parent: link_of(parent),
                ..old(self).content()
            }),
            link_of(previous) == old(self).content().parent,
    {
        match self.parent.replace(parent) {
            Ok(previous) => previous,
            Err(_) => {
                assert(false);
                unreached()
            },
        }
    }

    /// The slot of the parent, if the node holds a handle to one, under a
    /// read access to its cell.
    pub fn parent_slot(&mut self) -> (slot: Option<usize>)
        requires
            old(self).wf(),
        ensures
            final(self).wf(),
            final(self).content() == old(self).content(),
            slot is Some <==> old(self).content().parent is Some,
            slot matches Some(s) ==> s == old(self).content().parent.unwrap().slot,
    {
        match self.parent.borrow() {
            Ok(guard) => {
                let slot = match self.parent.get(&guard) {
                    Some(weak) => weak.slot_index(),
                    None => None,
                };
                self.parent.release_read(guard);
                slot
            },
            Err(_) => {
                assert(false);
                unreached()
            },
        }
    }

    /// The number of children, under a read access to their cell.
    pub fn child_count(&mut self) -> (count: usize)
        requires
            old(self).wf(),
        ensures
            final(self).wf(),
            final(self).content() == old(self).content(),
            count == old(self).content().children.len(),
    {
        match self.children.borrow() {
            Ok(guard) => {
                let count = self.children.get(&guard).len();
                self.children.release_read(guard);
                count
            },
            Err(_) => {
                assert(false);
                unreached()
            },
        }
    }

    /// The slot of the child at `index`, under a read access to the cell of
    /// the children.
    pub fn child_slot(&mut self, index: usize) -> (slot: usize)
        requires
            old(self).wf(),
            index < old(self).content().children.len(),
        ensures
            final(self).wf(),
            final(self).content() == old(self).content(),
            slot == old(self).content().children[index as int].slot(),
    {
        match self.children.borrow() {
            Ok(guard) => {
                let slot = self.children.get(&guard)[index].slot_index();
                self.children.release_read(guard);
                slot
            },
            Err(_) => {
                assert(false);
                unreached()
            },
        }
    }

    /// Takes the node apart into the handle to its parent and the handles
    /// to its children.
    pub fn into_parts(self) -> (parts: (Option<WeakHandle<Node>>, Vec<SharedHandle<Node>>))
        ensures
            link_of(parts.0) == self.content().parent,
            parts.1@ == self.content().children,
    {
        (self.parent.into_inner(), self.children.into_inner())
    }
}

/// The graph: a heap of nodes.
pub struct Graph {
    heap: Heap<Node>,
}

/// The slot of the graph that a slot of the heap stands for.
pub closed spec fn node_state(slot: SlotState<Node>) -> NodeState {
    NodeState {
        strong: slot.strong,
        weak: slot.weak,
        content: match slot.payload() {
            Some(node) => Some(node.content()),
            None => None,
        },
    }
}

impl View for Graph {
    type V = Seq<NodeState>;

    closed spec fn view(&self) -> Seq<NodeState> {
        Seq::new(self.heap@.len(), |s: int| node_state(self.heap@[s]))
    }
}

impl Graph {
    /// The identity that the next handle will get.
    pub closed spec fn next_id(&self) -> nat {
        self.heap.next_id()
    }

    /// The heap behind the graph is well formed, and nothing is outstanding
    /// on the cells of any live node.
    pub closed spec fn inv(&self) -> bool {
        &&& self.heap.wf()
        &&& forall|s: int|
            0 <= s < self.heap@.len() && (#[trigger] self.heap@[s]).payload() is Some
                ==> self.heap@[s].payload().unwrap().wf()
    }

    /// Every handle that was issued and not given up is known.
    pub open spec fn issued(&self) -> bool {
        &&& forall|s: int, id: nat|
            0 <= s < self@.len() && (#[trigger] self@[s].strong.contains(id)) ==> id
                < self.next_id()
        &&& forall|s: int, id: nat|
            0 <= s < self@.len() && (#[trigger] self@[s].weak.contains(id)) ==> id
                < self.next_id()
    }

    /// The graph is consistent, with no release under way.
    pub open spec fn wf(&self) -> bool {
        &&& self.inv()
        &&& self.issued()
        &&& coherent(self@, Seq::empty())
    }

    /// `h` is an outstanding owning handle in the hands of a user.
    pub open spec fn holds(&self, h: &SharedHandle<Node>) -> bool {
        held(self@, *h)
    }

    /// What the invariant says of the view: the handles that were issued are
    /// known, every slot counts its handles, and the storage of a slot is
    /// held exactly while a handle to it is outstanding.
    proof fn lemma_inv(&self)
        requires
            self.inv(),
        ensures
            self.issued(),
            self@.len() == self.heap@.len(),
            forall|s: int| 0 <= s < self@.len() ==> (#[trigger] self@[s]).wf(),
            forall|s: int|
                0 <= s < self@.len() ==> (#[trigger] self@[s]).allocated()
                    == self.heap@[s].allocated(),
            forall|s: int|
                0 <= s < self@.len() ==> (#[trigger] self@[s]).content is Some
                    == self.heap@[s].alive(),
    {
        assert forall|s: int| 0 <= s < self@.len() implies (#[trigger] self@[s]).wf()
            && self@[s].allocated() == self.heap@[s].allocated() && (self@[s].content is Some)
            == self.heap@[s].alive() by {
            let slot = self.heap@[s];
            assert(slot.wf());
            assert(self@[s] == node_state(slot));
        }
        assert forall|s: int, id: nat|
            0 <= s < self@.len() && (#[trigger] self@[s].strong.contains(id)) implies id
            < self.next_id() by {
            assert(self.heap@[s].strong.contains(id));
        }
        assert forall|s: int, id: nat|
            0 <= s < self@.len() && (#[trigger] self@[s].weak.contains(id)) implies id
            < self.next_id() by {
            assert(self.heap@[s].weak.contains(id));
        }
    }

    /// A handle in the hands of a user refers to a live node of the heap.
    proof fn lemma_held(&self, h: &SharedHandle<Node>)
        requires
            self.inv(),
            owned(self@, *h),
        ensures
            self.heap.owns(h),
            self.heap@[h.slot()].alive(),
            alive(self@, h.slot()),
            self.heap@[h.slot()].payload() is Some,
            self.heap@[h.slot()].payload().unwrap().wf(),
            self@[h.slot()].content == Some(self.heap@[h.slot()].payload().unwrap().content()),
    {
        self.lemma_inv();
        assert(self@[h.slot()] == node_state(self.heap@[h.slot()]));
        self.heap.lemma_owned_is_alive(h);
    }

    /// An empty graph.
    pub fn new() -> (graph: Graph)
        ensures
            graph.wf(),
            graph@.len() == 0,
            graph.next_id() == 0,
    {
        let graph = Graph { heap: Heap::new() };
        proof {
            graph.lemma_inv();
        }
        graph
    }

    /// The number of slots that were ever allocated.
    pub fn len(&self) -> (n: usize)
        requires
            self.wf(),
        ensures
            n == self@.len(),
    {
        self.heap.len()
    }

    /// Whether the node in `slot` has not been destroyed.
    pub fn is_alive(&self, slot: usize) -> (live: bool)
        requires
            self.wf(),
        ensures
            live == alive(self@, slot as int),
    {
        proof {
            self.lemma_inv();
        }
        self.heap.is_alive(slot)
    }

    /// Whether the storage of `slot` is still held.
    pub fn is_allocated(&self, slot: usize) -> (allocated: bool)
        requires
            self.wf(),
        ensures
            allocated == (slot < self@.len() && self@[slot as int].allocated()),
    {
        proof {
            self.lemma_inv();
        }
        self.heap.is_allocated(slot)
    }

    /// The payload value of the node that `handle` refers to.
    pub fn value(&self, handle: &SharedHandle<Node>) -> (value: i32)
        requires
            self.wf(),
            self.holds(handle),
        ensures
            value == self@[handle.slot()].content.unwrap().value,
    {
        proof {
            self.lemma_held(handle);
        }
        handle.get(&self.heap).value()
    }

    /// The number of outstanding owning handles to the node that `handle`
    /// refers to: those in the hands of users and those that parents hold.
    pub fn strong_count(&self, handle: &SharedHandle<Node>) -> (n: usize)
        requires
            self.wf(),
            self.holds(handle),
        ensures
            n == self@[handle.slot()].strong.len(),
            n >= 1,
    {
        proof {
            self.lemma_held(handle);
        }
        handle.strong_count(&self.heap)
    }

    /// The number of outstanding non-owning handles to the node that
    /// `handle` refers to.
    pub fn weak_count(&self, handle: &SharedHandle<Node>) -> (n: usize)
        requires
            self.wf(),
            self.holds(handle),
        ensures
            n == self@[handle.slot()].weak.len(),
    {
        proof {
            self.lemma_held(handle);
        }
        handle.weak_count(&self.heap)
    }
}

impl Graph {
    /// Adds a node around `value`, without parent or children, and returns
    /// the first owning handle to it.
    pub fn new_node(&mut self, value: i32) -> (handle: SharedHandle<Node>)
        requires
            old(self).wf(),
        ensures
            final(self).wf(),
            handle.slot() == old(self)@.len(),
            handle.id() == old(self).next_id(),
            final(self).next_id() == old(self).next_id() + 1,
            final(self)@ == with_node(old(self)@, value, handle.id()),
            final(self).holds(&handle),
            forall|x: SharedHandle<Node>| old(self).holds(&x) ==> #[trigger] final(self).holds(&x),
    {
        proof {
            self.lemma_inv();
        }
        let node = Node::new(value);
        let handle = SharedHandle::new(&mut self.heap, node);
        proof {
            assert(self@ =~= with_node(old(self)@, value, handle.id()));
            lemma_with_node(old(self)@, value, handle);
            self.lemma_inv();
        }
        handle
    }

    /// Makes one more owning handle to the node that `handle` refers to.
    pub fn clone_handle(&mut self, handle: &SharedHandle<Node>) -> (copy: SharedHandle<Node>)
        requires
            old(self).wf(),
            old(self).holds(handle),
            old(self)@[handle.slot()].strong.len() < usize::MAX,
        ensures
            final(self).wf(),
            copy.slot() == handle.slot(),
            copy.id() == old(self).next_id(),
            final(self).next_id() == old(self).next_id() + 1,
            final(self)@ == with_strong(old(self)@, handle.slot(), copy.id()),
            final(self).holds(&copy),
            forall|x: SharedHandle<Node>| old(self).holds(&x) ==> #[trigger] final(self).holds(&x),
    {
        proof {
            self.lemma_inv();
            self.lemma_held(handle);
        }
        let copy = handle.clone(&mut self.heap);
        proof {
            assert(self@ =~= with_strong(old(self)@, handle.slot(), copy.id()));
            lemma_with_strong(old(self)@, copy);
            self.lemma_inv();
        }
        copy
    }

    /// Hands `child` to the node that `parent` refers to, which holds it as
    /// its last child from now on. No count changes: the handle moves from
    /// the hands of the user into the graph.
    pub fn add_child(&mut self, parent: &SharedHandle<Node>, child: SharedHandle<Node>)
        requires
            old(self).wf(),
            old(self).holds(parent),
            old(self).holds(&child),
        ensures
            final(self).wf(),
            final(self).next_id() == old(self).next_id(),
            final(self)@ == with_child(old(self)@, parent.slot(), child),
            !final(self).holds(&child),
            forall|x: SharedHandle<Node>|
                old(self).holds(&x) && x.id() != child.id() ==> #[trigger] final(self).holds(&x),
    {
        proof {
            self.lemma_inv();
            self.lemma_held(parent);
        }
        let node = self.heap.payload_mut_at(parent.slot_index());
        node.push_child(child);
        proof {
            assert(self@ =~= with_child(old(self)@, parent.slot(), child));
            lemma_with_child(old(self)@, parent.slot(), child);
            self.lemma_inv();
        }
    }

    /// Makes the node that `parent` refers to the parent of the node that
    /// `child` refers to. The child holds a new non-owning handle to the
    /// parent, and the handle that it held before is released. The parent
    /// is not kept alive by it.
    pub fn set_parent(&mut self, child: &SharedHandle<Node>, parent: &SharedHandle<Node>)
        requires
            old(self).wf(),
            old(self).holds(child),
            old(self).holds(parent),
            old(self)@[parent.slot()].weak.len() < usize::MAX,
        ensures
            final(self).wf(),
            final(self).next_id() == old(self).next_id() + 1,
            final(self)@ == reparented(
                old(self)@,
                child.slot(),
                parent.slot(),
                old(self).next_id(),
            ),
            forall|x: SharedHandle<Node>| old(self).holds(&x) ==> #[trigger] final(self).holds(&x),
    {
        proof {
            self.lemma_inv();
            self.lemma_held(parent);
            self.lemma_held(child);
        }
        let ghost g0 = self@;
        let weak = parent.downgrade(&mut self.heap);
        let ghost g1 = self@;
        proof {
            assert(g1 =~= with_weak(g0, parent.slot(), weak.id()));
        }
        let node = self.heap.payload_mut_at(child.slot_index());
        let previous = node.replace_parent(Some(weak));
        let ghost g2 = self@;
        proof {
            assert(g2 =~= with_parent(
                g1,
                child.slot(),
                Some(ParentLink { slot: parent.slot(), id: weak.id() }),
            ));
            assert(link_of(previous) == parent_of(g0, child.slot()));
            lemma_reparented(g0, child.slot(), parent.slot(), weak.id());
        }
        match previous {
            Some(gone) => {
                proof {
                    if link_of(previous) is Some {
                        let l = link_of(previous).unwrap();
                        assert(parent_of(g0, child.slot()) == Some(l));
                        assert(g0[l.slot].weak.contains(l.id));
                        assert(g2[l.slot].weak.contains(l.id));
                    }
                }
                gone.release(&mut self.heap);
            },
            None => {},
        }
        proof {
            assert(self@ =~= reparented(g0, child.slot(), parent.slot(), weak.id()));
            self.lemma_inv();
        }
    }
}

impl Graph {
    /// Tries to make an owning handle to the parent of the node that `child`
    /// refers to. There is one exactly when the child holds a handle to a
    /// parent and that parent has not been destroyed.
    pub fn parent(&mut self, child: &SharedHandle<Node>) -> (parent: Option<SharedHandle<Node>>)
        requires
            old(self).wf(),
            old(self).holds(child),
            parent_of(old(self)@, child.slot()) matches Some(link) ==> old(self)@[link.slot].strong.len() < usize::MAX,
        ensures
            final(self).wf(),
            parent is Some <==> parent_of(old(self)@, child.slot()) is Some && alive(
                old(self)@,
                parent_of(old(self)@, child.slot()).unwrap().slot,
            ),
            match parent {
                Some(handle) => {
                    &&& handle.slot() == parent_of(old(self)@, child.slot()).unwrap().slot
                    &&& handle.id() == old(self).next_id()
                    &&& final(self).next_id() == old(self).next_id() + 1
                    &&& final(self)@ == with_strong(old(self)@, handle.slot(), handle.id())
                    &&& final(self).holds(&handle)
                },
                None => {
                    &&& final(self)@ == old(self)@
                    &&& final(self).next_id() == old(self).next_id()
                },
            },
            forall|x: SharedHandle<Node>| old(self).holds(&x) ==> #[trigger] final(self).holds(&x),
    {
        proof {
            self.lemma_inv();
            self.lemma_held(child);
        }
        let node = self.heap.payload_mut_at(child.slot_index());
        let target = node.parent_slot();
        proof {
            assert(self@ =~= old(self)@);
            self.lemma_inv();
        }
        match target {
            None => None,
            Some(slot) => {
                proof {
                    let link = parent_of(old(self)@, child.slot()).unwrap();
                    assert(parent_of(old(self)@, child.slot()) is Some);
                    assert(old(self)@[link.slot].weak.contains(link.id));
                    assert(self.heap@[link.slot].wf());
                    assert(self@[link.slot].wf());
                }
                let parent = self.heap.upgrade_at(slot);
                proof {
                    if parent is Some {
                        let handle = parent.unwrap();
                        assert(self@ =~= with_strong(old(self)@, handle.slot(), handle.id()));
                        lemma_with_strong(old(self)@, handle);
                    } else {
                        assert(self@ =~= old(self)@);
                    }
                    self.lemma_inv();
                }
                parent
            },
        }
    }

    /// The number of children of the node that `handle` refers to.
    pub fn child_count(&mut self, handle: &SharedHandle<Node>) -> (count: usize)
        requires
            old(self).wf(),
            old(self).holds(handle),
        ensures
            final(self).wf(),
            final(self)@ == old(self)@,
            final(self).next_id() == old(self).next_id(),
            count == old(self)@[handle.slot()].content.unwrap().children.len(),
    {
        proof {
            self.lemma_inv();
            self.lemma_held(handle);
        }
        let node = self.heap.payload_mut_at(handle.slot_index());
        let count = node.child_count();
        proof {
            assert(self@ =~= old(self)@);
            self.lemma_inv();
        }
        count
    }

    /// Makes one more owning handle to the child at `index` of the node that
    /// `parent` refers to.
    pub fn child(&mut self, parent: &SharedHandle<Node>, index: usize) -> (child: SharedHandle<
        Node,
    >)
        requires
            old(self).wf(),
            old(self).holds(parent),
            index < old(self)@[parent.slot()].content.unwrap().children.len(),
            old(self)@[child_at(old(self)@, parent.slot(), index as int).slot()].strong.len()
                < usize::MAX,
        ensures
            final(self).wf(),
            child.slot() == child_at(old(self)@, parent.slot(), index as int).slot(),
            child.id() == old(self).next_id(),
            final(self).next_id() == old(self).next_id() + 1,
            final(self)@ == with_strong(old(self)@, child.slot(), child.id()),
            final(self).holds(&child),
            forall|x: SharedHandle<Node>| old(self).holds(&x) ==> #[trigger] final(self).holds(&x),
    {
        proof {
            self.lemma_inv();
            self.lemma_held(parent);
        }
        let node = self.heap.payload_mut_at(parent.slot_index());
        let slot = node.child_slot(index);
        proof {
            assert(self@ =~= old(self)@);
            self.lemma_inv();
            let stored = child_at(old(self)@, parent.slot(), index as int);
            assert(child_pos(old(self)@, parent.slot(), index as int));
            assert(owned(old(self)@, stored));
            self.lemma_held(&stored);
        }
        let child = self.heap.clone_at(slot);
        proof {
            assert(self@ =~= with_strong(old(self)@, child.slot(), child.id()));
            lemma_with_strong(old(self)@, child);
            self.lemma_inv();
        }
        child
    }
}

impl Graph {
    /// Gives `handle` up. When it was the last owning handle to its node, the
    /// node is destroyed here and now: the handles that it held to its
    /// children are released in turn, which may destroy further nodes, and
    /// the handle to its parent is released. Every other node stays as it is,
    /// and every other handle stays in the hands of its user.
    pub fn release(&mut self, handle: SharedHandle<Node>)
        requires
            old(self).wf(),
            old(self).holds(&handle),
        ensures
            final(self).wf(),
            final(self).next_id() == old(self).next_id(),
            final(self)@ == cascade(old(self)@, Seq::empty().push(handle)),
            final(self)@.len() == old(self)@.len(),
            !final(self).holds(&handle),
            forall|x: SharedHandle<Node>|
                old(self).holds(&x) && x.id() != handle.id() ==> #[trigger] final(self).holds(&x)
                    && final(self)@[x.slot()].content == old(self)@[x.slot()].content,
            forall|s: int|
                alive(final(self)@, s) ==> alive(old(self)@, s) && (#[trigger] final(self)@[s]).content
                    == old(self)@[s].content,
            old(self)@[handle.slot()].strong.len() >= 2 ==> final(self)@ == without_strong(
                old(self)@,
                handle.slot(),
                handle.id(),
            ),
            old(self)@[handle.slot()].strong.len() == 1 ==> !alive(final(self)@, handle.slot()),
    {
        let ghost start = Seq::<SharedHandle<Node>>::empty().push(handle);
        let ghost id = handle.id();
        let ghost slot = handle.slot();
        let mut pending: Vec<SharedHandle<Node>> = Vec::new();
        pending.push(handle);
        proof {
            assert(pending@ =~= start);
            assert(unstored(self@, start[0].id()));
        }
        while pending.len() > 0
            invariant
                self.inv(),
                self.next_id() == old(self).next_id(),
                coherent(self@, pending@),
                cascade(self@, pending@) == cascade(old(self)@, start),
            decreases live_count(self@), pending@.len(),
        {
            let ghost g = self@;
            let ghost p = pending@;
            proof {
                self.lemma_inv();
                lemma_step_coherent(g, p);
                lemma_step_measure(g, p);
                lemma_step_frame(g, p);
            }
            let next = pending.pop().unwrap();
            proof {
                self.lemma_held(&next);
            }
            let destroyed = next.release(&mut self.heap);
            proof {
                assert(self@ =~= without_strong(g, next.slot(), next.id()));
            }
            match destroyed {
                Some(node) => {
                    let (parent, mut children) = node.into_parts();
                    match parent {
                        Some(weak) => {
                            proof {
                                if link_of(parent) is Some {
                                    let l = link_of(parent).unwrap();
                                    assert(parent_of(g, next.slot()) == Some(l));
                                    assert(g[l.slot].weak.contains(l.id));
                                }
                            }
                            weak.release(&mut self.heap);
                        },
                        None => {},
                    }
                    pending.append(&mut children);
                },
                None => {},
            }
            proof {
                assert(self@ =~= step_graph(g, p));
                assert(pending@ =~= step_pending(g, p));
                assert forall|s: int|
                    0 <= s < self.heap@.len() && (#[trigger] self.heap@[s]).payload()
                        is Some implies self.heap@[s].payload().unwrap().wf() by {}
            }
        }
        proof {
            assert(pending@ =~= Seq::empty());
            self.lemma_inv();
            lemma_cascade(old(self)@, start);
            lemma_step_frame(old(self)@, start);
            lemma_step_coherent(old(self)@, start);
            let g2 = step_graph(old(self)@, start);
            let waiting = step_pending(old(self)@, start);
            lemma_cascade(g2, waiting);
            assert(cascade(old(self)@, start) == cascade(g2, waiting));
            assert(self@[slot].strong.subset_of(g2[slot].strong));
            assert(old(self)@[slot].wf());
            if old(self)@[slot].strong.len() >= 2 {
                assert(waiting =~= Seq::empty());
                assert(cascade(g2, waiting) == g2);
            }
            assert forall|x: SharedHandle<Node>|
                old(self).holds(&x) && x.id() != id implies #[trigger] self.holds(&x)
                && self@[x.slot()].content == old(self)@[x.slot()].content by {
                assert(start[0].id() != x.id());
                lemma_cascade_keeps_held(old(self)@, start, x);
            }
        }
    }

    /// The number of nodes that have not been destroyed.
    pub fn live_nodes(&self) -> (count: usize)
        requires
            self.wf(),
        ensures
            count == live_count(self@),
    {
        proof {
            self.lemma_inv();
        }
        let mut count: usize = 0;
        let mut slot: usize = 0;
        let n = self.heap.len();
        while slot < n
            invariant
                self.wf(),
                n == self@.len(),
                slot <= n,
                count == live_count(self@.take(slot as int)),
                count <= slot,
            decreases n - slot,
        {
            proof {
                self.lemma_inv();
                assert(self@.take(slot + 1).drop_last() =~= self@.take(slot as int));
            }
            if self.heap.is_alive(slot) {
                count = count + 1;
            }
            slot = slot + 1;
        }
        proof {
            assert(self@.take(n as int) =~= self@);
        }
        count
    }

    /// The number of slots whose storage is still held.
    pub fn allocated_blocks(&self) -> (count: usize)
        requires
            self.wf(),
        ensures
            count == allocated_count(self@),
    {
        proof {
            self.lemma_inv();
        }
        let mut count: usize = 0;
        let mut slot: usize = 0;
        let n = self.heap.len();
        while slot < n
            invariant
                self.wf(),
                n == self@.len(),
                slot <= n,
                count == allocated_count(self@.take(slot as int)),
                count <= slot,
            decreases n - slot,
        {
            proof {
                self.lemma_inv();
                assert(self@.take(slot + 1).drop_last() =~= self@.take(slot as int));
            }
            if self.heap.is_allocated(slot) {
                count = count + 1;
            }
            slot = slot + 1;
        }
        proof {
            assert(self@.take(n as int) =~= self@);
        }
        count
    }
}

} // verus!
