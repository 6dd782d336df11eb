//! The object graph as a mathematical value, and what releasing a handle
//! does to it.
//!
//! A node owns its children through owning handles and observes its parent
//! through a non-owning one. Giving up the last owning handle to a node
//! destroys the node, which gives up the handles that the node held; that can
//! destroy further nodes. [`cascade`] says where this ends.

use crate::graph::Node;
use crate::heap::SharedHandle;
use vstd::prelude::*;

verus! {

/// The non-owning handle through which a node observes its parent.
pub struct ParentLink {
    /// The slot of the parent.
    pub slot: int,
    /// The identity of the handle.
    pub id: nat,
}

/// What a live node holds.
pub struct Content {
    /// The payload value.
    pub value: i32,
    /// The handle to the parent, if one was set.
    pub parent: Option<ParentLink>,
    /// The owning handles to the children, in the order they were added.
    pub children: Seq<SharedHandle<Node>>,
}

/// One slot of the graph.
pub struct NodeState {
    /// The identities of the outstanding owning handles to the node.
    pub strong: Set<nat>,
    /// The identities of the outstanding non-owning handles to the node.
    pub weak: Set<nat>,
    /// What the node holds, until it is destroyed.
    pub content: Option<Content>,
}

impl NodeState {
    /// The node is there exactly while an owning handle to it is outstanding.
    pub open spec fn wf(self) -> bool {
        &&& self.strong.finite()
        &&& self.weak.finite()
        &&& self.content is Some <==> self.strong.len() >= 1
    }

    /// The storage of the slot is still held: a handle of either kind is
    /// outstanding.
    pub open spec fn allocated(self) -> bool {
        self.strong.len() >= 1 || self.weak.len() >= 1
    }
}

/// The node in slot `s` has not been destroyed.
pub open spec fn alive(g: Seq<NodeState>, s: int) -> bool {
    0 <= s < g.len() && g[s].content is Some
}

/// The number of nodes that have not been destroyed.
pub open spec fn live_count(g: Seq<NodeState>) -> nat
    decreases g.len(),
{
    if g.len() == 0 {
        0
    } else {
        live_count(g.drop_last()) + if g.last().content is Some {
            1nat
        } else {
            0nat
        }
    }
}

/// The number of slots whose storage is still held.
pub open spec fn allocated_count(g: Seq<NodeState>) -> nat
    decreases g.len(),
{
    if g.len() == 0 {
        0
    } else {
        allocated_count(g.drop_last()) + if g.last().allocated() {
            1nat
        } else {
            0nat
        }
    }
}

/// `h` is an outstanding owning handle.
pub open spec fn owned(g: Seq<NodeState>, h: SharedHandle<Node>) -> bool {
    0 <= h.slot() < g.len() && g[h.slot()].strong.contains(h.id())
}

/// The live node in slot `s` has a child at index `i`.
pub open spec fn child_pos(g: Seq<NodeState>, s: int, i: int) -> bool {
    alive(g, s) && 0 <= i < g[s].content.unwrap().children.len()
}

/// The handle to the child at index `i` of the node in slot `s`.
pub open spec fn child_at(g: Seq<NodeState>, s: int, i: int) -> SharedHandle<Node> {
    g[s].content.unwrap().children[i]
}

/// The handle to the parent that the live node in slot `s` holds, if any.
pub open spec fn parent_of(g: Seq<NodeState>, s: int) -> Option<ParentLink> {
    if alive(g, s) {
        g[s].content.unwrap().parent
    } else {
        None
    }
}

/// A live node holds the handle `id` to the node in slot `t` as the handle
/// to its parent.
pub open spec fn observed(g: Seq<NodeState>, t: int, id: nat) -> bool {
    exists|s: int| (#[trigger] parent_of(g, s)) == Some(ParentLink { slot: t, id })
}

/// No live node holds the handle `id` among its children.
pub open spec fn unstored(g: Seq<NodeState>, id: nat) -> bool {
    forall|s: int, i: int| child_pos(g, s, i) ==> (#[trigger] child_at(g, s, i)).id() != id
}

/// The handle `id` does not wait to be released.
pub open spec fn unlisted(pending: Seq<SharedHandle<Node>>, id: nat) -> bool {
    forall|k: int| 0 <= k < pending.len() ==> (#[trigger] pending[k]).id() != id
}

/// `h` is an outstanding owning handle that the graph itself does not hold:
/// it is in the hands of a user.
pub open spec fn held(g: Seq<NodeState>, h: SharedHandle<Node>) -> bool {
    owned(g, h) && unstored(g, h.id())
}

/// The graph is consistent while the handles in `pending` wait to be
/// released: every slot counts its handles; every handle that a live node
/// holds, and every pending one, is outstanding, and no two of them are the
/// same handle; no identity is counted in two slots; and every non-owning
/// handle that is outstanding is the one through which some live node
/// observes its parent.
pub open spec fn coherent(g: Seq<NodeState>, pending: Seq<SharedHandle<Node>>) -> bool {
    &&& forall|s: int| 0 <= s < g.len() ==> (#[trigger] g[s]).wf()
    &&& forall|s: int, i: int| child_pos(g, s, i) ==> owned(g, #[trigger] child_at(g, s, i))
    &&& forall|s1: int, i1: int, s2: int, i2: int|
        child_pos(g, s1, i1) && child_pos(g, s2, i2) && (#[trigger] child_at(g, s1, i1)).id() == (
        #[trigger] child_at(g, s2, i2)).id() ==> s1 == s2 && i1 == i2
    &&& forall|s: int|
        (#[trigger] parent_of(g, s)) matches Some(link) ==> 0 <= link.slot < g.len()
            && g[link.slot].weak.contains(link.id)
    &&& forall|s1: int, s2: int|
        (#[trigger] parent_of(g, s1)) matches Some(l1) && (#[trigger] parent_of(g, s2)) matches Some(
            l2,
        ) && l1.id == l2.id ==> s1 == s2
    &&& forall|s1: int, s2: int, id: nat|
        0 <= s1 < g.len() && 0 <= s2 < g.len() && (#[trigger] g[s1].strong.contains(id)) && (
        #[trigger] g[s2].strong.contains(id)) ==> s1 == s2
    &&& forall|t: int, id: nat|
        0 <= t < g.len() && (#[trigger] g[t].weak.contains(id)) ==> observed(g, t, id)
    &&& forall|k: int| 0 <= k < pending.len() ==> owned(g, #[trigger] pending[k])
    &&& forall|k1: int, k2: int|
        0 <= k1 < pending.len() && 0 <= k2 < pending.len() && (#[trigger] pending[k1]).id() == (
        #[trigger] pending[k2]).id() ==> k1 == k2
    &&& forall|k: int| 0 <= k < pending.len() ==> unstored(g, (#[trigger] pending[k]).id())
}

/// The graph with a new node around `value`, owned by the handle `id`.
pub open spec fn with_node(g: Seq<NodeState>, value: i32, id: nat) -> Seq<NodeState> {
    g.push(
        NodeState {
            strong: Set::empty().insert(id),
            weak: Set::empty(),
            content: Some(Content { value, parent: None, children: Seq::empty() }),
        },
    )
}

/// The graph with one more owning handle, `id`, to the node in slot `s`.
pub open spec fn with_strong(g: Seq<NodeState>, s: int, id: nat) -> Seq<NodeState> {
    if 0 <= s < g.len() {
        g.update(s, NodeState { strong: g[s].strong.insert(id), ..g[s] })
    } else {
        g
    }
}

/// The graph without the owning handle `id` to the node in slot `s`. The
/// node is destroyed with its last owning handle.
pub open spec fn without_strong(g: Seq<NodeState>, s: int, id: nat) -> Seq<NodeState> {
    if 0 <= s < g.len() {
        g.update(
            s,
            NodeState {
                strong: g[s].strong.remove(id),
                weak: g[s].weak,
                content: if g[s].strong.len() <= 1 {
                    None
                } else {
                    g[s].content
                },
            },
        )
    } else {
        g
    }
}

/// The graph with one more non-owning handle, `id`, to the node in slot `s`.
pub open spec fn with_weak(g: Seq<NodeState>, s: int, id: nat) -> Seq<NodeState> {
    if 0 <= s < g.len() {
        g.update(s, NodeState { weak: g[s].weak.insert(id), ..g[s] })
    } else {
        g
    }
}

/// The graph without the non-owning handle `id` to the node in slot `s`.
pub open spec fn without_weak(g: Seq<NodeState>, s: int, id: nat) -> Seq<NodeState> {
    if 0 <= s < g.len() {
        g.update(s, NodeState { weak: g[s].weak.remove(id), ..g[s] })
    } else {
        g
    }
}

/// The graph without the handle behind `link`, if there is one.
pub open spec fn without_link(g: Seq<NodeState>, link: Option<ParentLink>) -> Seq<NodeState> {
    match link {
        Some(l) => without_weak(g, l.slot, l.id),
        None => g,
    }
}

/// The graph in which the live node in slot `s` holds `child` as its last
/// child.
pub open spec fn with_child(g: Seq<NodeState>, s: int, child: SharedHandle<Node>) -> Seq<
    NodeState,
> {
    if alive(g, s) {
        let c = g[s].content.unwrap();
        g.update(
            s,
            NodeState { content: Some(Content { children: c.children.push(child), ..c }), ..g[s] },
        )
    } else {
        g
    }
}

/// The graph in which the live node in slot `s` holds `link` as the handle
/// to its parent.
pub open spec fn with_parent(g: Seq<NodeState>, s: int, link: Option<ParentLink>) -> Seq<
    NodeState,
> {
    if alive(g, s) {
        let c = g[s].content.unwrap();
        g.update(s, NodeState { content: Some(Content { parent: link, ..c }), ..g[s] })
    } else {
        g
    }
}

/// The last pending handle can be released: it is outstanding.
pub open spec fn can_step(g: Seq<NodeState>, pending: Seq<SharedHandle<Node>>) -> bool {
    pending.len() > 0 && owned(g, pending.last()) && alive(g, pending.last().slot())
}

/// Releasing the last pending handle destroys its node.
pub open spec fn step_destroys(g: Seq<NodeState>, pending: Seq<SharedHandle<Node>>) -> bool {
    g[pending.last().slot()].strong.len() <= 1
}

/// The graph after the last pending handle was released: its node counts
/// one owner fewer, and if that was the last one the node is destroyed and
/// the handle to its parent released.
pub open spec fn step_graph(g: Seq<NodeState>, pending: Seq<SharedHandle<Node>>) -> Seq<
    NodeState,
> {
    let h = pending.last();
    let g1 = without_strong(g, h.slot(), h.id());
    if step_destroys(g, pending) {
        without_link(g1, g[h.slot()].content.unwrap().parent)
    } else {
        g1
    }
}

/// The handles that wait to be released after the last pending one was: the
/// others, and behind them the handles to the children of a node that the
/// release destroyed.
pub open spec fn step_pending(g: Seq<NodeState>, pending: Seq<SharedHandle<Node>>) -> Seq<
    SharedHandle<Node>,
> {
    let h = pending.last();
    if step_destroys(g, pending) {
        pending.drop_last() + g[h.slot()].content.unwrap().children
    } else {
        pending.drop_last()
    }
}

/// The graph after every pending handle was released, and every handle that
/// those releases set free in turn.
pub open spec fn cascade(g: Seq<NodeState>, pending: Seq<SharedHandle<Node>>) -> Seq<NodeState>
    decreases live_count(g), pending.len(),
    via cascade_decreases
{
    if can_step(g, pending) {
        cascade(step_graph(g, pending), step_pending(g, pending))
    } else {
        g
    }
}

#[via_fn]
proof fn cascade_decreases(g: Seq<NodeState>, pending: Seq<SharedHandle<Node>>) {
    if can_step(g, pending) {
        lemma_step_measure(g, pending);
    }
}

/// Replacing one slot changes the number of live nodes by what the slot
/// itself contributes.
pub proof fn lemma_live_count_update(g: Seq<NodeState>, s: int, n: NodeState)
    requires
        0 <= s < g.len(),
    ensures
        live_count(g.update(s, n)) + (if g[s].content is Some {
            1nat
        } else {
            0nat
        }) == live_count(g) + (if n.content is Some {
            1nat
        } else {
            0nat
        }),
    decreases g.len(),
{
    let g2 = g.update(s, n);
    if s == g.len() - 1 {
        assert(g2.drop_last() =~= g.drop_last());
    } else {
        assert(g2.drop_last() =~= g.drop_last().update(s, n));
        lemma_live_count_update(g.drop_last(), s, n);
    }
}

/// A step of the cascade destroys a node, or else shortens the list of
/// pending handles and destroys none.
pub proof fn lemma_step_measure(g: Seq<NodeState>, pending: Seq<SharedHandle<Node>>)
    requires
        can_step(g, pending),
    ensures
        step_graph(g, pending).len() == g.len(),
        step_destroys(g, pending) ==> live_count(step_graph(g, pending)) + 1 == live_count(g),
        !step_destroys(g, pending) ==> live_count(step_graph(g, pending)) == live_count(g)
            && step_pending(g, pending).len() + 1 == pending.len(),
{
    let h = pending.last();
    let s = h.slot();
    let g1 = without_strong(g, s, h.id());
    lemma_live_count_update(g, s, g1[s]);
    if step_destroys(g, pending) {
        match g[s].content.unwrap().parent {
            Some(l) => {
                if 0 <= l.slot < g1.len() {
                    lemma_live_count_update(g1, l.slot, without_weak(g1, l.slot, l.id)[l.slot]);
                }
            },
            None => {},
        }
    }
}


/// What one step of the cascade changes: the released handle leaves the
/// strong set of its slot; if its node is destroyed, the content of that
/// slot goes and the handle to its parent leaves the weak set of the
/// parent's slot. Nothing else changes.
pub proof fn lemma_step_frame(g: Seq<NodeState>, pending: Seq<SharedHandle<Node>>)
    requires
        can_step(g, pending),
    ensures
        step_graph(g, pending).len() == g.len(),
        forall|t: int|
            0 <= t < g.len() ==> (#[trigger] step_graph(g, pending)[t]).strong == if t
                == pending.last().slot() {
                g[t].strong.remove(pending.last().id())
            } else {
                g[t].strong
            },
        forall|t: int|
            0 <= t < g.len() ==> (#[trigger] step_graph(g, pending)[t]).content == if t
                == pending.last().slot() && step_destroys(g, pending) {
                None
            } else {
                g[t].content
            },
        forall|t: int|
            0 <= t < g.len() ==> (#[trigger] step_graph(g, pending)[t]).weak == if step_destroys(
                g,
                pending,
            ) && parent_of(g, pending.last().slot()) is Some && parent_of(
                g,
                pending.last().slot(),
            ).unwrap().slot == t {
                g[t].weak.remove(parent_of(g, pending.last().slot()).unwrap().id)
            } else {
                g[t].weak
            },
{
}

/// One step of the cascade keeps the graph consistent.
pub proof fn lemma_step_coherent(g: Seq<NodeState>, pending: Seq<SharedHandle<Node>>)
    requires
        coherent(g, pending),
        pending.len() > 0,
    ensures
        can_step(g, pending),
        coherent(step_graph(g, pending), step_pending(g, pending)),
{
    let h = pending.last();
    let s = h.slot();
    let id = h.id();
    let last = pending.len() - 1;
    assert(owned(g, pending[last]));
    assert(g[s].wf());
    assert(unstored(g, pending[last].id()));
    let g2 = step_graph(g, pending);
    let waiting = step_pending(g, pending);
    let rest = pending.drop_last();
    let kids = g[s].content.unwrap().children;
    lemma_step_frame(g, pending);

    assert forall|t: int| 0 <= t < g2.len() implies (#[trigger] g2[t]).wf() by {
        assert(g[t].wf());
    }
    assert forall|t: int, i: int| child_pos(g2, t, i) implies child_pos(g, t, i) && child_at(
        g2,
        t,
        i,
    ) == child_at(g, t, i) by {
        assert(g2[t].content == g[t].content);
    }
    assert forall|t: int, i: int| child_pos(g2, t, i) implies owned(
        g2,
        #[trigger] child_at(g2, t, i),
    ) by {
        let c = child_at(g, t, i);
        assert(child_pos(g, t, i));
        assert(owned(g, c));
        assert(c.id() != id);
    }
    assert forall|t1: int, i1: int, t2: int, i2: int|
        child_pos(g2, t1, i1) && child_pos(g2, t2, i2) && (#[trigger] child_at(g2, t1, i1)).id()
            == (#[trigger] child_at(g2, t2, i2)).id() implies t1 == t2 && i1 == i2 by {
        assert(child_pos(g, t1, i1) && child_pos(g, t2, i2));
        assert(child_at(g, t1, i1).id() == child_at(g, t2, i2).id());
    }
    assert forall|t: int| parent_of(g2, t) is Some implies parent_of(g2, t) == parent_of(g, t)
        && alive(g, t) && !(t == s && step_destroys(g, pending)) by {
        assert(g2[t].content == if t == s && step_destroys(g, pending) {
            None
        } else {
            g[t].content
        });
    }
    assert forall|t: int| (#[trigger] parent_of(g2, t)) is Some implies 0 <= parent_of(
        g2,
        t,
    ).unwrap().slot < g2.len() && g2[parent_of(g2, t).unwrap().slot].weak.contains(
        parent_of(g2, t).unwrap().id,
    ) by {
        let link = parent_of(g2, t).unwrap();
        assert(parent_of(g, t) == Some(link));
        if step_destroys(g, pending) && parent_of(g, s) is Some {
            assert(t != s);
            let l = parent_of(g, s).unwrap();
            assert(l.id != link.id);
        }
    }
    assert forall|t1: int, t2: int|
        (#[trigger] parent_of(g2, t1)) is Some && (#[trigger] parent_of(g2, t2)) is Some
            && parent_of(g2, t1).unwrap().id == parent_of(g2, t2).unwrap().id implies t1
        == t2 by {
        assert(parent_of(g, t1) == parent_of(g2, t1));
        assert(parent_of(g, t2) == parent_of(g2, t2));
    }
    assert forall|t: int, w: nat|
        0 <= t < g2.len() && (#[trigger] g2[t].weak.contains(w)) implies observed(g2, t, w) by {
        assert(g[t].weak.contains(w));
        let o = choose|o: int| (#[trigger] parent_of(g, o)) == Some(ParentLink { slot: t, id: w });
        if step_destroys(g, pending) && o == s {
            assert(!g2[t].weak.contains(w));
        }
        assert(g2[o].content == g[o].content);
        assert(parent_of(g2, o) == parent_of(g, o));
    }
    assert forall|k: int| 0 <= k < waiting.len() implies owned(g, #[trigger] waiting[k]) && waiting[k].id()
        != id && unstored(g2, waiting[k].id()) by {
        if k < rest.len() {
            assert(waiting[k] == pending[k]);
            assert(owned(g, pending[k]));
            assert(unstored(g, pending[k].id()));
        } else {
            let i = k - rest.len();
            assert(waiting[k] == child_at(g, s, i));
            assert(child_pos(g, s, i));
            assert forall|t: int, j: int| child_pos(g2, t, j) implies (#[trigger] child_at(
                g2,
                t,
                j,
            )).id() != waiting[k].id() by {
                assert(child_pos(g, t, j));
                assert(child_at(g2, t, j) == child_at(g, t, j));
                assert(t != s);
            }
        }
    }
    assert forall|k: int| 0 <= k < waiting.len() implies owned(g2, #[trigger] waiting[k]) by {
        assert(owned(g, waiting[k]) && waiting[k].id() != id);
    }
    assert forall|k1: int, k2: int|
        0 <= k1 < waiting.len() && 0 <= k2 < waiting.len() && (#[trigger] waiting[k1]).id() == (
        #[trigger] waiting[k2]).id() implies k1 == k2 by {
        if k1 < rest.len() && k2 < rest.len() {
            assert(waiting[k1] == pending[k1] && waiting[k2] == pending[k2]);
        } else if k1 >= rest.len() && k2 >= rest.len() {
            let i1 = k1 - rest.len();
            let i2 = k2 - rest.len();
            assert(waiting[k1] == child_at(g, s, i1) && waiting[k2] == child_at(g, s, i2));
            assert(child_pos(g, s, i1) && child_pos(g, s, i2));
        } else if k1 < rest.len() {
            let i2 = k2 - rest.len();
            assert(waiting[k2] == child_at(g, s, i2));
            assert(child_pos(g, s, i2));
            assert(waiting[k1] == pending[k1]);
            assert(unstored(g, pending[k1].id()));
        } else {
            let i1 = k1 - rest.len();
            assert(waiting[k1] == child_at(g, s, i1));
            assert(child_pos(g, s, i1));
            assert(waiting[k2] == pending[k2]);
            assert(unstored(g, pending[k2].id()));
        }
    }
    assert forall|k: int| 0 <= k < waiting.len() implies unstored(g2, (#[trigger] waiting[k]).id()) by {
        assert(owned(g, waiting[k]));
    }
}

/// One step of the cascade leaves a handle in the hands of its user, unless
/// it is the handle that the step releases.
pub proof fn lemma_step_keeps_held(
    g: Seq<NodeState>,
    pending: Seq<SharedHandle<Node>>,
    x: SharedHandle<Node>,
)
    requires
        coherent(g, pending),
        pending.len() > 0,
        held(g, x),
        unlisted(pending, x.id()),
    ensures
        held(step_graph(g, pending), x),
        unlisted(step_pending(g, pending), x.id()),
{
    lemma_step_coherent(g, pending);
    lemma_step_frame(g, pending);
    let h = pending.last();
    let s = h.slot();
    let g2 = step_graph(g, pending);
    let waiting = step_pending(g, pending);
    let rest = pending.drop_last();
    assert(pending[pending.len() - 1].id() != x.id());
    assert forall|t: int, i: int| child_pos(g2, t, i) implies (#[trigger] child_at(g2, t, i)).id()
        != x.id() by {
        assert(g2[t].content == g[t].content);
        assert(child_pos(g, t, i));
        assert(child_at(g, t, i).id() != x.id());
    }
    assert forall|k: int| 0 <= k < waiting.len() implies (#[trigger] waiting[k]).id() != x.id() by {
        if k < rest.len() {
            assert(waiting[k] == pending[k]);
        } else {
            let i = k - rest.len();
            assert(waiting[k] == child_at(g, s, i));
            assert(child_pos(g, s, i));
        }
    }
}

/// The cascade ends in a consistent graph with nothing pending. It issues no
/// handle, destroys no node twice and brings none back: every slot keeps a
/// subset of its handles, and a node that is alive afterwards was alive
/// before and holds what it held.
pub proof fn lemma_cascade(g: Seq<NodeState>, pending: Seq<SharedHandle<Node>>)
    requires
        coherent(g, pending),
    ensures
        coherent(cascade(g, pending), Seq::empty()),
        cascade(g, pending).len() == g.len(),
        forall|t: int|
            0 <= t < g.len() ==> (#[trigger] cascade(g, pending)[t]).strong.subset_of(g[t].strong),
        forall|t: int|
            0 <= t < g.len() ==> (#[trigger] cascade(g, pending)[t]).weak.subset_of(g[t].weak),
        forall|t: int|
            0 <= t < g.len() && (#[trigger] cascade(g, pending)[t]).content is Some ==> cascade(
                g,
                pending,
            )[t].content == g[t].content,
    decreases live_count(g), pending.len(),
{
    if pending.len() > 0 {
        lemma_step_coherent(g, pending);
        lemma_step_measure(g, pending);
        lemma_step_frame(g, pending);
        let g2 = step_graph(g, pending);
        let waiting = step_pending(g, pending);
        lemma_cascade(g2, waiting);
        let r = cascade(g, pending);
        assert(r == cascade(g2, waiting));
        assert forall|t: int| 0 <= t < g.len() implies (#[trigger] r[t]).strong.subset_of(
            g[t].strong,
        ) by {
            assert(r[t].strong.subset_of(g2[t].strong));
        }
        assert forall|t: int| 0 <= t < g.len() implies (#[trigger] r[t]).weak.subset_of(
            g[t].weak,
        ) by {
            assert(r[t].weak.subset_of(g2[t].weak));
        }
        assert forall|t: int| 0 <= t < g.len() && (#[trigger] r[t]).content is Some implies r[t].content
            == g[t].content by {
            assert(r[t].content == g2[t].content);
        }
    } else {
        assert(pending =~= Seq::empty());
    }
}

/// The cascade leaves every handle in the hands of its user, but for the
/// handles that were pending.
pub proof fn lemma_cascade_keeps_held(
    g: Seq<NodeState>,
    pending: Seq<SharedHandle<Node>>,
    x: SharedHandle<Node>,
)
    requires
        coherent(g, pending),
        held(g, x),
        unlisted(pending, x.id()),
    ensures
        held(cascade(g, pending), x),
        cascade(g, pending)[x.slot()].content == g[x.slot()].content,
    decreases live_count(g), pending.len(),
{
    if pending.len() > 0 {
        lemma_step_coherent(g, pending);
        lemma_step_measure(g, pending);
        lemma_step_frame(g, pending);
        lemma_step_keeps_held(g, pending, x);
        let g2 = step_graph(g, pending);
        let waiting = step_pending(g, pending);
        lemma_cascade_keeps_held(g2, waiting, x);
        assert(g2[x.slot()].wf());
        assert(g2[x.slot()].content == g[x.slot()].content);
    }
}


/// A node that is alive in `g` and not alive in `r` holds the handle `id`
/// among its children.
pub open spec fn stored_in_destroyed(g: Seq<NodeState>, r: Seq<NodeState>, id: nat) -> bool {
    exists|s: int, i: int|
        child_pos(g, s, i) && !alive(r, s) && (#[trigger] child_at(g, s, i)).id() == id
}

/// A node that is alive in `g` and not alive in `r` holds the handle `id` to
/// the node in slot `t` as the handle to its parent.
pub open spec fn observed_by_destroyed(
    g: Seq<NodeState>,
    r: Seq<NodeState>,
    t: int,
    id: nat,
) -> bool {
    exists|s: int|
        !alive(r, s) && (#[trigger] parent_of(g, s)) == Some(ParentLink { slot: t, id })
}

/// The cascade releases exactly the handles that it was given and the
/// handles that the nodes it destroyed held: an owning handle is outstanding
/// afterwards if and only if it was outstanding before, was not pending, and
/// was not held by a node that the cascade destroyed; a non-owning handle,
/// if and only if it was outstanding before and was not held by a node that
/// the cascade destroyed.
pub proof fn lemma_cascade_accounts(g: Seq<NodeState>, pending: Seq<SharedHandle<Node>>)
    requires
        coherent(g, pending),
    ensures
        forall|t: int, id: nat|
            0 <= t < g.len() ==> (#[trigger] cascade(g, pending)[t].strong.contains(id) <==> g[t].strong.contains(
                id,
            ) && unlisted(pending, id) && !stored_in_destroyed(g, cascade(g, pending), id)),
        forall|t: int, id: nat|
            0 <= t < g.len() ==> (#[trigger] cascade(g, pending)[t].weak.contains(id) <==> g[t].weak.contains(
                id,
            ) && !observed_by_destroyed(g, cascade(g, pending), t, id)),
    decreases live_count(g), pending.len(),
{
    let r = cascade(g, pending);
    if pending.len() > 0 {
        lemma_step_coherent(g, pending);
        lemma_step_measure(g, pending);
        lemma_step_frame(g, pending);
        let h = pending.last();
        let u = h.slot();
        let g2 = step_graph(g, pending);
        let waiting = step_pending(g, pending);
        let rest = pending.drop_last();
        let destroys = step_destroys(g, pending);
        lemma_cascade(g2, waiting);
        lemma_cascade_accounts(g2, waiting);
        assert(r == cascade(g2, waiting));
        assert(pending[pending.len() - 1] == h);
        assert(g[u].wf());
        assert(destroys ==> !alive(r, u)) by {
            if destroys && alive(r, u) {
                assert(r[u].content == g2[u].content);
            }
        }
        assert forall|s: int, i: int| child_pos(g2, s, i) implies child_pos(g, s, i) && child_at(
            g2,
            s,
            i,
        ) == child_at(g, s, i) by {
            assert(g2[s].content == g[s].content);
        }
        assert forall|s: int, i: int| child_pos(g, s, i) && !(destroys && s == u) implies child_pos(
            g2,
            s,
            i,
        ) && child_at(g2, s, i) == child_at(g, s, i) by {
            assert(g2[s].content == g[s].content);
        }
        assert forall|t: int, id: nat| 0 <= t < g.len() implies (#[trigger] r[t].strong.contains(
            id,
        ) <==> g[t].strong.contains(id) && unlisted(pending, id) && !stored_in_destroyed(
            g,
            r,
            id,
        )) by {
            assert(g2[t].strong == if t == u {
                g[t].strong.remove(h.id())
            } else {
                g[t].strong
            });
            if r[t].strong.contains(id) {
                assert(g2[t].strong.contains(id));
                assert(unlisted(waiting, id));
                assert(id != h.id());
                assert forall|k: int| 0 <= k < pending.len() implies (#[trigger] pending[k]).id()
                    != id by {
                    if k < rest.len() {
                        assert(waiting[k] == pending[k]);
                    }
                }
                if stored_in_destroyed(g, r, id) {
                    let (s, i) = choose|s: int, i: int|
                        child_pos(g, s, i) && !alive(r, s) && (#[trigger] child_at(g, s, i)).id()
                            == id;
                    if destroys && s == u {
                        assert(waiting[rest.len() + i] == child_at(g, s, i));
                    } else {
                        assert(child_pos(g2, s, i));
                        assert(child_at(g2, s, i).id() == id);
                        assert(stored_in_destroyed(g2, r, id));
                    }
                }
            }
            if g[t].strong.contains(id) && unlisted(pending, id) && !stored_in_destroyed(g, r, id) {
                assert(id != h.id());
                assert(g2[t].strong.contains(id));
                assert forall|k: int| 0 <= k < waiting.len() implies (#[trigger] waiting[k]).id()
                    != id by {
                    if k < rest.len() {
                        assert(waiting[k] == pending[k]);
                    } else {
                        let i = k - rest.len();
                        assert(waiting[k] == child_at(g, u, i));
                        assert(child_pos(g, u, i));
                    }
                }
                if stored_in_destroyed(g2, r, id) {
                    let (s, i) = choose|s: int, i: int|
                        child_pos(g2, s, i) && !alive(r, s) && (#[trigger] child_at(g2, s, i)).id()
                            == id;
                    assert(child_pos(g, s, i));
                    assert(child_at(g, s, i).id() == id);
                }
            }
        }
        assert forall|s: int| #![trigger parent_of(g2, s)]
            parent_of(g2, s) == if destroys && s == u {
                None
            } else {
                parent_of(g, s)
            } by {
            if 0 <= s < g.len() {
                assert(g2[s].content == if s == u && destroys {
                    None
                } else {
                    g[s].content
                });
            }
        }
        assert forall|t: int, id: nat| 0 <= t < g.len() implies (#[trigger] r[t].weak.contains(
            id,
        ) <==> g[t].weak.contains(id) && !observed_by_destroyed(g, r, t, id)) by {
            let link = ParentLink { slot: t, id };
            let gone = destroys && parent_of(g, u) == Some(link);
            assert(g2[t].weak.contains(id) <==> g[t].weak.contains(id) && !gone);
            if r[t].weak.contains(id) {
                assert(g2[t].weak.contains(id));
                if observed_by_destroyed(g, r, t, id) {
                    let s = choose|s: int|
                        !alive(r, s) && (#[trigger] parent_of(g, s)) == Some(link);
                    if destroys && s == u {
                    } else {
                        assert(parent_of(g2, s) == Some(link));
                        assert(observed_by_destroyed(g2, r, t, id));
                    }
                }
            }
            if g[t].weak.contains(id) && !observed_by_destroyed(g, r, t, id) {
                if gone {
                    assert(parent_of(g, u) == Some(link));
                    assert(observed_by_destroyed(g, r, t, id));
                }
                if observed_by_destroyed(g2, r, t, id) {
                    let s = choose|s: int|
                        !alive(r, s) && (#[trigger] parent_of(g2, s)) == Some(link);
                    assert(parent_of(g, s) == Some(link));
                }
            }
        }
    } else {
        assert(r == g);
        assert forall|t: int, id: nat| 0 <= t < g.len() implies (#[trigger] r[t].strong.contains(
            id,
        ) <==> g[t].strong.contains(id) && unlisted(pending, id) && !stored_in_destroyed(
            g,
            r,
            id,
        )) by {}
        assert forall|t: int, id: nat| 0 <= t < g.len() implies (#[trigger] r[t].weak.contains(
            id,
        ) <==> g[t].weak.contains(id) && !observed_by_destroyed(g, r, t, id)) by {}
    }
}

/// The storage of a destroyed node is held exactly while a live node
/// observes it as its parent: a node that nothing owns and nothing observes
/// is gone altogether.
pub proof fn lemma_shell_is_observed(g: Seq<NodeState>, t: int)
    requires
        coherent(g, Seq::empty()),
        0 <= t < g.len(),
        !alive(g, t),
    ensures
        g[t].allocated() <==> exists|s: int|
            (#[trigger] parent_of(g, s)) is Some && parent_of(g, s).unwrap().slot == t,
{
    assert(g[t].wf());
    if g[t].allocated() {
        assert(g[t].weak.len() >= 1);
        let id = g[t].weak.choose();
        if !g[t].weak.contains(id) {
            g[t].weak.lemma_len0_is_empty();
        }
        assert(observed(g, t, id));
        let s = choose|s: int| (#[trigger] parent_of(g, s)) == Some(ParentLink { slot: t, id });
        assert(parent_of(g, s) is Some && parent_of(g, s).unwrap().slot == t);
    }
    if exists|s: int| (#[trigger] parent_of(g, s)) is Some && parent_of(g, s).unwrap().slot == t {
        let s = choose|s: int|
            (#[trigger] parent_of(g, s)) is Some && parent_of(g, s).unwrap().slot == t;
        let link = parent_of(g, s).unwrap();
        assert(g[link.slot].weak.contains(link.id));
        if g[t].weak.len() == 0 {
            g[t].weak.lemma_len0_is_empty();
        }
    }
}

/// Every owning handle that a node holds refers to a later slot than the
/// node's own: ownership goes one way, and so has no cycle.
pub open spec fn downward(g: Seq<NodeState>) -> bool {
    forall|s: int, i: int| child_pos(g, s, i) ==> (#[trigger] child_at(g, s, i)).slot() > s
}

/// No owning handle is in the hands of a user: every one that is
/// outstanding is held by a live node.
pub open spec fn unheld(g: Seq<NodeState>) -> bool {
    forall|t: int, id: nat|
        0 <= t < g.len() && (#[trigger] g[t].strong.contains(id)) ==> exists|s: int, i: int|
            child_pos(g, s, i) && (#[trigger] child_at(g, s, i)).slot() == t && child_at(
                g,
                s,
                i,
            ).id() == id
}

/// Where ownership goes one way and no user holds a handle, the node in
/// slot `t` is not alive.
proof fn lemma_unowned_is_dead(g: Seq<NodeState>, t: int)
    requires
        coherent(g, Seq::empty()),
        downward(g),
        unheld(g),
        0 <= t < g.len(),
    ensures
        !alive(g, t),
    decreases t,
{
    assert(g[t].wf());
    if alive(g, t) {
        let id = g[t].strong.choose();
        if !g[t].strong.contains(id) {
            g[t].strong.lemma_len0_is_empty();
        }
        let (s, i) = choose|s: int, i: int|
            child_pos(g, s, i) && (#[trigger] child_at(g, s, i)).slot() == t && child_at(
                g,
                s,
                i,
            ).id() == id;
        assert(child_at(g, s, i).slot() > s);
        lemma_unowned_is_dead(g, s);
    }
}

/// A graph without live nodes and without held storage counts none.
proof fn lemma_count_nothing(g: Seq<NodeState>)
    requires
        forall|t: int| 0 <= t < g.len() ==> !alive(g, t) && !(#[trigger] g[t]).allocated(),
    ensures
        live_count(g) == 0,
        allocated_count(g) == 0,
    decreases g.len(),
{
    if g.len() > 0 {
        let front = g.drop_last();
        assert forall|t: int| 0 <= t < front.len() implies !alive(front, t) && !(
        #[trigger] front[t]).allocated() by {
            assert(front[t] == g[t]);
            assert(!alive(g, t));
        }
        lemma_count_nothing(front);
        assert(!alive(g, g.len() - 1));
        assert(!g[g.len() - 1].allocated());
    }
}

/// Ownership without a cycle leaks nothing: where every owning handle
/// refers to a later slot, and the users have given up every handle they
/// held, no node is alive and no storage is held, whichever nodes observe
/// each other.
pub proof fn lemma_one_way_ownership_leaks_nothing(g: Seq<NodeState>)
    requires
        coherent(g, Seq::empty()),
        downward(g),
        unheld(g),
    ensures
        forall|t: int| 0 <= t < g.len() ==> !alive(g, t) && !(#[trigger] g[t]).allocated(),
        live_count(g) == 0,
        allocated_count(g) == 0,
{
    assert forall|t: int| 0 <= t < g.len() implies !alive(g, t) by {
        lemma_unowned_is_dead(g, t);
    }
    assert forall|t: int| 0 <= t < g.len() implies !alive(g, t) && !(#[trigger] g[t]).allocated() by {
        lemma_shell_is_observed(g, t);
        if g[t].allocated() {
            let s = choose|s: int|
                (#[trigger] parent_of(g, s)) is Some && parent_of(g, s).unwrap().slot == t;
            assert(alive(g, s));
        }
    }
    lemma_count_nothing(g);
}

/// No slot counts `id` among its owning handles.
pub open spec fn unissued_strong(g: Seq<NodeState>, id: nat) -> bool {
    forall|s: int| 0 <= s < g.len() ==> !(#[trigger] g[s]).strong.contains(id)
}

/// No slot counts `id` among its non-owning handles.
pub open spec fn unissued_weak(g: Seq<NodeState>, id: nat) -> bool {
    forall|s: int| 0 <= s < g.len() ==> !(#[trigger] g[s]).weak.contains(id)
}

/// A new node keeps the graph consistent; its first handle is in the hands
/// of the user, and so is every handle that was.
pub proof fn lemma_with_node(g: Seq<NodeState>, value: i32, h: SharedHandle<Node>)
    requires
        coherent(g, Seq::empty()),
        h.slot() == g.len(),
        unissued_strong(g, h.id()),
    ensures
        coherent(with_node(g, value, h.id()), Seq::empty()),
        held(with_node(g, value, h.id()), h),
        forall|x: SharedHandle<Node>| held(g, x) ==> #[trigger] held(with_node(g, value, h.id()), x),
{
    let g2 = with_node(g, value, h.id());
    assert forall|s: int, i: int| child_pos(g2, s, i) implies child_pos(g, s, i) && child_at(
        g2,
        s,
        i,
    ) == child_at(g, s, i) by {}
    assert forall|s: int| 0 <= s < g2.len() implies (#[trigger] g2[s]).wf() by {
        if s < g.len() {
            assert(g[s].wf());
        }
    }
    assert forall|s: int, i: int| child_pos(g2, s, i) implies owned(
        g2,
        #[trigger] child_at(g2, s, i),
    ) by {
        assert(owned(g, child_at(g, s, i)));
    }
    assert forall|s1: int, i1: int, s2: int, i2: int|
        child_pos(g2, s1, i1) && child_pos(g2, s2, i2) && (#[trigger] child_at(g2, s1, i1)).id()
            == (#[trigger] child_at(g2, s2, i2)).id() implies s1 == s2 && i1 == i2 by {
        assert(child_at(g, s1, i1).id() == child_at(g, s2, i2).id());
    }
    assert forall|s: int| (#[trigger] parent_of(g2, s)) is Some implies parent_of(g2, s)
        == parent_of(g, s) by {}
    assert forall|s: int| (#[trigger] parent_of(g2, s)) is Some implies 0 <= parent_of(
        g2,
        s,
    ).unwrap().slot < g2.len() && g2[parent_of(g2, s).unwrap().slot].weak.contains(
        parent_of(g2, s).unwrap().id,
    ) by {
        assert(parent_of(g, s) is Some);
    }
    assert forall|s1: int, s2: int|
        (#[trigger] parent_of(g2, s1)) is Some && (#[trigger] parent_of(g2, s2)) is Some
            && parent_of(g2, s1).unwrap().id == parent_of(g2, s2).unwrap().id implies s1
        == s2 by {
        assert(parent_of(g, s1) == parent_of(g2, s1));
        assert(parent_of(g, s2) == parent_of(g2, s2));
    }
    assert forall|t: int, id: nat|
        0 <= t < g2.len() && (#[trigger] g2[t].weak.contains(id)) implies observed(g2, t, id) by {
        assert(g[t].weak.contains(id));
        let s = choose|s: int| (#[trigger] parent_of(g, s)) == Some(ParentLink { slot: t, id });
        assert(parent_of(g2, s) == parent_of(g, s));
    }
    assert forall|x: SharedHandle<Node>| held(g, x) || x == h implies unstored(g2, x.id()) by {
        assert forall|s: int, i: int| child_pos(g2, s, i) implies (#[trigger] child_at(
            g2,
            s,
            i,
        )).id() != x.id() by {
            assert(child_pos(g, s, i));
            let c = child_at(g, s, i);
            assert(owned(g, c));
        }
    }
}

/// A new owning handle to a live node keeps the graph consistent; it is in
/// the hands of the user, and so is every handle that was.
pub proof fn lemma_with_strong(g: Seq<NodeState>, h: SharedHandle<Node>)
    requires
        coherent(g, Seq::empty()),
        alive(g, h.slot()),
        unissued_strong(g, h.id()),
    ensures
        coherent(with_strong(g, h.slot(), h.id()), Seq::empty()),
        held(with_strong(g, h.slot(), h.id()), h),
        forall|x: SharedHandle<Node>|
            held(g, x) ==> #[trigger] held(with_strong(g, h.slot(), h.id()), x),
{
    let g2 = with_strong(g, h.slot(), h.id());
    assert forall|s: int, i: int| child_pos(g2, s, i) implies child_pos(g, s, i) && child_at(
        g2,
        s,
        i,
    ) == child_at(g, s, i) by {}
    assert forall|s: int| 0 <= s < g2.len() implies (#[trigger] g2[s]).wf() by {
        assert(g[s].wf());
    }
    assert forall|s: int, i: int| child_pos(g2, s, i) implies owned(
        g2,
        #[trigger] child_at(g2, s, i),
    ) by {
        assert(owned(g, child_at(g, s, i)));
    }
    assert forall|s1: int, i1: int, s2: int, i2: int|
        child_pos(g2, s1, i1) && child_pos(g2, s2, i2) && (#[trigger] child_at(g2, s1, i1)).id()
            == (#[trigger] child_at(g2, s2, i2)).id() implies s1 == s2 && i1 == i2 by {
        assert(child_at(g, s1, i1).id() == child_at(g, s2, i2).id());
    }
    assert forall|s: int| (#[trigger] parent_of(g2, s)) == parent_of(g, s) by {}
    assert forall|s: int| (#[trigger] parent_of(g2, s)) is Some implies 0 <= parent_of(
        g2,
        s,
    ).unwrap().slot < g2.len() && g2[parent_of(g2, s).unwrap().slot].weak.contains(
        parent_of(g2, s).unwrap().id,
    ) by {
        assert(parent_of(g, s) is Some);
    }
    assert forall|s1: int, s2: int|
        (#[trigger] parent_of(g2, s1)) is Some && (#[trigger] parent_of(g2, s2)) is Some
            && parent_of(g2, s1).unwrap().id == parent_of(g2, s2).unwrap().id implies s1
        == s2 by {
        assert(parent_of(g, s1) == parent_of(g2, s1));
        assert(parent_of(g, s2) == parent_of(g2, s2));
    }
    assert forall|t: int, id: nat|
        0 <= t < g2.len() && (#[trigger] g2[t].weak.contains(id)) implies observed(g2, t, id) by {
        assert(g[t].weak.contains(id));
        let s = choose|s: int| (#[trigger] parent_of(g, s)) == Some(ParentLink { slot: t, id });
        assert(parent_of(g2, s) == parent_of(g, s));
    }
    assert forall|x: SharedHandle<Node>| held(g, x) || x == h implies unstored(g2, x.id()) by {
        assert forall|s: int, i: int| child_pos(g2, s, i) implies (#[trigger] child_at(
            g2,
            s,
            i,
        )).id() != x.id() by {
            assert(child_pos(g, s, i));
            let c = child_at(g, s, i);
            assert(owned(g, c));
        }
    }
}

/// Handing a handle to a live node as its child keeps the graph consistent
/// and leaves every other handle in the hands of its user.
pub proof fn lemma_with_child(g: Seq<NodeState>, s: int, child: SharedHandle<Node>)
    requires
        coherent(g, Seq::empty()),
        alive(g, s),
        held(g, child),
    ensures
        coherent(with_child(g, s, child), Seq::empty()),
        !held(with_child(g, s, child), child),
        forall|x: SharedHandle<Node>|
            held(g, x) && x.id() != child.id() ==> #[trigger] held(with_child(g, s, child), x),
{
    let g2 = with_child(g, s, child);
    let n = g[s].content.unwrap().children.len() as int;
    assert(child_pos(g2, s, n));
    assert(child_at(g2, s, n) == child);
    assert forall|t: int, i: int| child_pos(g2, t, i) implies if t == s && i == n {
        child_at(g2, t, i) == child
    } else {
        child_pos(g, t, i) && child_at(g2, t, i) == child_at(g, t, i)
    } by {}
    assert forall|t: int| 0 <= t < g2.len() implies (#[trigger] g2[t]).wf() by {
        assert(g[t].wf());
    }
    assert forall|t: int, i: int| child_pos(g2, t, i) implies owned(
        g2,
        #[trigger] child_at(g2, t, i),
    ) by {
        if !(t == s && i == n) {
            assert(owned(g, child_at(g, t, i)));
        }
    }
    assert forall|t1: int, i1: int, t2: int, i2: int|
        child_pos(g2, t1, i1) && child_pos(g2, t2, i2) && (#[trigger] child_at(g2, t1, i1)).id()
            == (#[trigger] child_at(g2, t2, i2)).id() implies t1 == t2 && i1 == i2 by {
        if t1 == s && i1 == n {
            if !(t2 == s && i2 == n) {
                assert(child_at(g, t2, i2).id() != child.id());
            }
        } else if t2 == s && i2 == n {
            assert(child_at(g, t1, i1).id() != child.id());
        } else {
            assert(child_at(g, t1, i1).id() == child_at(g, t2, i2).id());
        }
    }
    assert forall|t: int| (#[trigger] parent_of(g2, t)) == parent_of(g, t) by {}
    assert forall|t: int| (#[trigger] parent_of(g2, t)) is Some implies 0 <= parent_of(
        g2,
        t,
    ).unwrap().slot < g2.len() && g2[parent_of(g2, t).unwrap().slot].weak.contains(
        parent_of(g2, t).unwrap().id,
    ) by {
        assert(parent_of(g, t) is Some);
    }
    assert forall|t1: int, t2: int|
        (#[trigger] parent_of(g2, t1)) is Some && (#[trigger] parent_of(g2, t2)) is Some
            && parent_of(g2, t1).unwrap().id == parent_of(g2, t2).unwrap().id implies t1
        == t2 by {
        assert(parent_of(g, t1) == parent_of(g2, t1));
        assert(parent_of(g, t2) == parent_of(g2, t2));
    }
    assert forall|t: int, id: nat|
        0 <= t < g2.len() && (#[trigger] g2[t].weak.contains(id)) implies observed(g2, t, id) by {
        assert(g[t].weak.contains(id));
        let o = choose|o: int| (#[trigger] parent_of(g, o)) == Some(ParentLink { slot: t, id });
        assert(parent_of(g2, o) == parent_of(g, o));
    }
    assert forall|x: SharedHandle<Node>| held(g, x) && x.id() != child.id() implies unstored(
        g2,
        x.id(),
    ) by {
        assert forall|t: int, i: int| child_pos(g2, t, i) implies (#[trigger] child_at(
            g2,
            t,
            i,
        )).id() != x.id() by {
            if !(t == s && i == n) {
                assert(child_at(g, t, i).id() != x.id());
            }
        }
    }
}

/// The graph after the live node in slot `c` was given the handle `id` to
/// the node in slot `p` as the handle to its parent, and the handle that it
/// held before was released.
pub open spec fn reparented(g: Seq<NodeState>, c: int, p: int, id: nat) -> Seq<NodeState> {
    without_link(
        with_parent(with_weak(g, p, id), c, Some(ParentLink { slot: p, id })),
        parent_of(g, c),
    )
}

/// Setting the parent of a live node keeps the graph consistent and leaves
/// every handle in the hands of its user. No strong count changes.
pub proof fn lemma_reparented(g: Seq<NodeState>, c: int, p: int, id: nat)
    requires
        coherent(g, Seq::empty()),
        alive(g, c),
        alive(g, p),
        unissued_weak(g, id),
    ensures
        coherent(reparented(g, c, p, id), Seq::empty()),
        reparented(g, c, p, id).len() == g.len(),
        forall|t: int|
            0 <= t < g.len() ==> (#[trigger] reparented(g, c, p, id)[t]).strong == g[t].strong,
        forall|x: SharedHandle<Node>| held(g, x) ==> #[trigger] held(reparented(g, c, p, id), x),
{
    let link = ParentLink { slot: p, id };
    let g1 = with_weak(g, p, id);
    let g2 = with_parent(g1, c, Some(link));
    let g3 = reparented(g, c, p, id);
    assert(g3 == without_link(g2, parent_of(g, c)));
    assert(g3.len() == g.len());
    assert forall|t: int| 0 <= t < g.len() implies (#[trigger] g3[t]).strong == g[t].strong && (
    g3[t].content is Some <==> g[t].content is Some) && (g3[t].content is Some
        ==> g3[t].content.unwrap().children == g[t].content.unwrap().children) by {}
    assert forall|t: int| #![trigger parent_of(g3, t)]
        parent_of(g3, t) == if t == c {
            Some(link)
        } else {
            parent_of(g, t)
        } by {}
    assert forall|t: int, i: int| child_pos(g3, t, i) implies child_pos(g, t, i) && child_at(
        g3,
        t,
        i,
    ) == child_at(g, t, i) by {}
    assert forall|t: int| 0 <= t < g3.len() implies (#[trigger] g3[t]).wf() by {
        assert(g[t].wf());
    }
    assert forall|t: int, i: int| child_pos(g3, t, i) implies owned(
        g3,
        #[trigger] child_at(g3, t, i),
    ) by {
        assert(owned(g, child_at(g, t, i)));
    }
    assert forall|t1: int, i1: int, t2: int, i2: int|
        child_pos(g3, t1, i1) && child_pos(g3, t2, i2) && (#[trigger] child_at(g3, t1, i1)).id()
            == (#[trigger] child_at(g3, t2, i2)).id() implies t1 == t2 && i1 == i2 by {
        assert(child_at(g, t1, i1).id() == child_at(g, t2, i2).id());
    }
    assert forall|t: int| (#[trigger] parent_of(g3, t)) is Some implies 0 <= parent_of(
        g3,
        t,
    ).unwrap().slot < g3.len() && g3[parent_of(g3, t).unwrap().slot].weak.contains(
        parent_of(g3, t).unwrap().id,
    ) by {
        if t == c {
            assert(g1[p].weak.contains(id));
            assert(g2[p].weak.contains(id));
            if parent_of(g, c) is Some {
                assert(g[parent_of(g, c).unwrap().slot].weak.contains(parent_of(g, c).unwrap().id));
            }
        } else {
            let l = parent_of(g, t).unwrap();
            assert(parent_of(g, t) is Some);
            assert(g[l.slot].weak.contains(l.id));
            assert(g1[l.slot].weak.contains(l.id));
            assert(g2[l.slot].weak.contains(l.id));
            if parent_of(g, c) is Some {
                assert(parent_of(g, c).unwrap().id != l.id);
            }
        }
    }
    assert forall|t1: int, t2: int|
        (#[trigger] parent_of(g3, t1)) is Some && (#[trigger] parent_of(g3, t2)) is Some
            && parent_of(g3, t1).unwrap().id == parent_of(g3, t2).unwrap().id implies t1
        == t2 by {
        if t1 != c && t2 != c {
            assert(parent_of(g, t1) == parent_of(g3, t1));
            assert(parent_of(g, t2) == parent_of(g3, t2));
        } else if t1 != c {
            let l = parent_of(g, t1).unwrap();
            assert(parent_of(g, t1) is Some);
            assert(g[l.slot].weak.contains(l.id));
        } else if t2 != c {
            let l = parent_of(g, t2).unwrap();
            assert(parent_of(g, t2) is Some);
            assert(g[l.slot].weak.contains(l.id));
        }
    }
    assert forall|t: int, w: nat|
        0 <= t < g3.len() && (#[trigger] g3[t].weak.contains(w)) implies observed(g3, t, w) by {
        if t == p && w == id {
            assert(parent_of(g3, c) == Some(ParentLink { slot: t, id: w }));
        } else {
            assert(g2[t].weak.contains(w));
            assert(g1[t].weak.contains(w));
            assert(g[t].weak.contains(w));
            let o = choose|o: int|
                (#[trigger] parent_of(g, o)) == Some(ParentLink { slot: t, id: w });
            if o == c {
                assert(parent_of(g, c) == Some(ParentLink { slot: t, id: w }));
                assert(!g3[t].weak.contains(w));
            }
            assert(parent_of(g3, o) == parent_of(g, o));
        }
    }
    assert forall|x: SharedHandle<Node>| held(g, x) implies unstored(g3, x.id()) by {
        assert forall|t: int, i: int| child_pos(g3, t, i) implies (#[trigger] child_at(
            g3,
            t,
            i,
        )).id() != x.id() by {
            assert(child_at(g, t, i).id() != x.id());
        }
    }
}

} // verus!
