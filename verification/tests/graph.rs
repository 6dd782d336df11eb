use shared_ownership::graph::{Graph, Node};
use shared_ownership::heap::{Heap, SharedHandle};

#[test]
fn chain_survives_the_root_until_its_own_handles_drop() {
    let mut graph = Graph::new();
    let root = graph.new_node(1);
    let child = graph.new_node(2);
    let grandchild = graph.new_node(3);
    let root_slot = root.slot_index();
    let child_slot = child.slot_index();
    let grandchild_slot = grandchild.slot_index();

    let child_in_root = graph.clone_handle(&child);
    graph.add_child(&root, child_in_root);
    graph.set_parent(&child, &root);
    let grandchild_in_child = graph.clone_handle(&grandchild);
    graph.add_child(&child, grandchild_in_child);
    graph.set_parent(&grandchild, &child);

    assert_eq!(graph.strong_count(&root), 1);
    assert_eq!(graph.weak_count(&root), 1);
    assert_eq!(graph.strong_count(&child), 2);
    assert_eq!(graph.weak_count(&child), 1);
    assert_eq!(graph.strong_count(&grandchild), 2);
    assert_eq!(graph.weak_count(&grandchild), 0);
    assert_eq!(graph.live_nodes(), 3);

    graph.release(root);
    assert!(!graph.is_alive(root_slot));
    assert!(graph.is_allocated(root_slot));
    assert!(graph.is_alive(child_slot));
    assert!(graph.is_alive(grandchild_slot));
    assert_eq!(graph.strong_count(&child), 1);
    assert_eq!(graph.strong_count(&grandchild), 2);
    assert_eq!(graph.value(&child), 2);
    assert_eq!(graph.child_count(&child), 1);
    assert!(graph.parent(&child).is_none());
    let reached = graph.child(&child, 0);
    assert_eq!(reached.slot_index(), grandchild_slot);
    assert_eq!(graph.value(&reached), 3);
    graph.release(reached);

    graph.release(child);
    assert!(!graph.is_alive(child_slot));
    assert!(!graph.is_allocated(root_slot));
    assert!(graph.is_alive(grandchild_slot));
    assert_eq!(graph.strong_count(&grandchild), 1);
    assert!(graph.parent(&grandchild).is_none());

    graph.release(grandchild);
    assert_eq!(graph.live_nodes(), 0);
    assert_eq!(graph.allocated_blocks(), 0);
    assert_eq!(graph.len(), 3);
}

#[test]
fn dropping_the_root_alone_destroys_the_whole_chain() {
    let mut graph = Graph::new();
    let root = graph.new_node(1);
    let child = graph.new_node(2);
    let grandchild = graph.new_node(3);
    graph.set_parent(&grandchild, &child);
    graph.set_parent(&child, &root);
    graph.add_child(&child, grandchild);
    graph.add_child(&root, child);
    assert_eq!(graph.live_nodes(), 3);
    assert_eq!(graph.allocated_blocks(), 3);

    graph.release(root);
    assert_eq!(graph.live_nodes(), 0);
    assert_eq!(graph.allocated_blocks(), 0);
}

#[test]
fn two_nodes_that_observe_each_other_are_both_reclaimed() {
    let mut graph = Graph::new();
    let a = graph.new_node(10);
    let b = graph.new_node(20);
    let a_slot = a.slot_index();
    let b_slot = b.slot_index();
    graph.set_parent(&a, &b);
    graph.set_parent(&b, &a);
    assert_eq!(graph.strong_count(&a), 1);
    assert_eq!(graph.strong_count(&b), 1);
    assert_eq!(graph.weak_count(&a), 1);
    assert_eq!(graph.weak_count(&b), 1);

    let seen = graph.parent(&a).expect("b is alive");
    assert_eq!(seen.slot_index(), b_slot);
    assert_eq!(graph.strong_count(&b), 2);
    graph.release(seen);
    assert_eq!(graph.strong_count(&b), 1);

    graph.release(a);
    assert!(!graph.is_alive(a_slot));
    assert!(graph.is_allocated(a_slot));
    assert!(graph.is_alive(b_slot));
    assert_eq!(graph.weak_count(&b), 0);
    assert!(graph.parent(&b).is_none());

    graph.release(b);
    assert!(!graph.is_alive(b_slot));
    assert_eq!(graph.live_nodes(), 0);
    assert_eq!(graph.allocated_blocks(), 0);
}

#[test]
fn leaf_and_branch_counts_follow_the_handles() {
    let mut graph = Graph::new();
    let leaf = graph.new_node(3);
    assert!(graph.parent(&leaf).is_none());
    assert_eq!(graph.strong_count(&leaf), 1);
    assert_eq!(graph.weak_count(&leaf), 0);
    {
        let branch = graph.new_node(5);
        let leaf_in_branch = graph.clone_handle(&leaf);
        graph.add_child(&branch, leaf_in_branch);
        graph.set_parent(&leaf, &branch);
        assert_eq!(graph.strong_count(&branch), 1);
        assert_eq!(graph.weak_count(&branch), 1);
        assert_eq!(graph.strong_count(&leaf), 2);
        assert_eq!(graph.weak_count(&leaf), 0);
        let up = graph.parent(&leaf).expect("the branch is alive");
        assert_eq!(graph.value(&up), 5);
        graph.release(up);
        graph.release(branch);
    }
    assert!(graph.parent(&leaf).is_none());
    assert_eq!(graph.strong_count(&leaf), 1);
    assert_eq!(graph.weak_count(&leaf), 0);
    graph.release(leaf);
    assert_eq!(graph.allocated_blocks(), 0);
}

#[test]
fn a_cycle_of_owning_handles_is_never_reclaimed() {
    let mut graph = Graph::new();
    let a = graph.new_node(5);
    let b = graph.new_node(10);
    let a_in_b = graph.clone_handle(&a);
    graph.add_child(&b, a_in_b);
    let b_in_a = graph.clone_handle(&b);
    graph.add_child(&a, b_in_a);
    assert_eq!(graph.strong_count(&a), 2);
    assert_eq!(graph.strong_count(&b), 2);
    graph.release(a);
    graph.release(b);
    assert_eq!(graph.live_nodes(), 2);
    assert_eq!(graph.allocated_blocks(), 2);
}

#[test]
fn setting_a_parent_again_releases_the_earlier_handle() {
    let mut graph = Graph::new();
    let child = graph.new_node(1);
    let first = graph.new_node(2);
    let second = graph.new_node(3);
    graph.set_parent(&child, &first);
    assert_eq!(graph.weak_count(&first), 1);
    graph.set_parent(&child, &second);
    assert_eq!(graph.weak_count(&first), 0);
    assert_eq!(graph.weak_count(&second), 1);
    let up = graph.parent(&child).expect("the second parent is alive");
    assert_eq!(graph.value(&up), 3);
    graph.release(up);
    graph.release(first);
    graph.release(second);
    graph.release(child);
    assert_eq!(graph.allocated_blocks(), 0);
}

#[test]
fn a_node_holds_what_it_is_given() {
    let mut heap: Heap<Node> = Heap::new();
    let parent = SharedHandle::new(&mut heap, Node::new(1));
    let first = SharedHandle::new(&mut heap, Node::new(2));
    let second = SharedHandle::new(&mut heap, Node::new(3));
    let first_slot = first.slot_index();
    let second_slot = second.slot_index();

    let mut node = Node::new(7);
    assert_eq!(node.value(), 7);
    assert_eq!(node.child_count(), 0);
    assert_eq!(node.parent_slot(), None);
    node.push_child(first);
    node.push_child(second);
    assert_eq!(node.child_count(), 2);
    assert_eq!(node.child_slot(0), first_slot);
    assert_eq!(node.child_slot(1), second_slot);

    let up = parent.downgrade(&mut heap);
    assert!(node.replace_parent(Some(up)).is_none());
    assert_eq!(node.parent_slot(), Some(parent.slot_index()));
    let previous = node.replace_parent(None).expect("a parent was set");
    assert_eq!(previous.slot_index(), Some(parent.slot_index()));
    assert_eq!(node.parent_slot(), None);
    let again = node.replace_parent(Some(previous));
    assert!(again.is_none());

    let (up, mut children) = node.into_parts();
    up.expect("the parent was set again").release(&mut heap);
    assert_eq!(children.len(), 2);
    while let Some(child) = children.pop() {
        assert!(child.release(&mut heap).is_some());
    }
    assert!(parent.release(&mut heap).is_some());
    assert!(!heap.is_allocated(first_slot));
}

#[test]
fn a_node_may_observe_itself() {
    let mut graph = Graph::new();
    let node = graph.new_node(1);
    graph.set_parent(&node, &node);
    assert_eq!(graph.weak_count(&node), 1);
    let seen = graph.parent(&node).expect("the node is alive");
    assert_eq!(seen.slot_index(), node.slot_index());
    graph.release(seen);
    graph.release(node);
    assert_eq!(graph.live_nodes(), 0);
    assert_eq!(graph.allocated_blocks(), 0);
}

#[test]
fn a_wide_and_deep_tree_is_reclaimed_from_its_root() {
    let mut graph = Graph::new();
    let root = graph.new_node(0);
    let mut level = vec![graph.clone_handle(&root)];
    for depth in 1..6 {
        let mut next = Vec::new();
        for parent in level.iter() {
            for _ in 0..3 {
                let child = graph.new_node(depth);
                graph.set_parent(&child, parent);
                next.push(graph.clone_handle(&child));
                graph.add_child(parent, child);
            }
        }
        for handle in level.drain(..) {
            graph.release(handle);
        }
        level = next;
    }
    let total = 1 + 3 + 9 + 27 + 81 + 243;
    assert_eq!(graph.live_nodes(), total);
    for handle in level.drain(..) {
        assert_eq!(graph.strong_count(&handle), 2);
        graph.release(handle);
    }
    assert_eq!(graph.live_nodes(), total);
    graph.release(root);
    assert_eq!(graph.live_nodes(), 0);
    assert_eq!(graph.allocated_blocks(), 0);
    assert_eq!(graph.len(), total);
}
