use aerugo::forest::{Edge, Error, Forest, Node};

/// Ensure a node cannot become it's own child.
#[test]
fn self_cyclic_node() {
    let mut forest = Forest::new();
    let a = forest.insert(());

    assert!(matches!(forest.add_child(a, a), Err(Error::Cycle)));
}

/// Ensure a node does not form a parent-child loop.
#[test]
fn parent_cycle() {
    let mut forest = Forest::new();
    let a = forest.insert(());
    let b = forest.insert(());
    // a -> b
    forest.add_child(a, b).unwrap();
    assert!(matches!(forest.add_child(b, a), Err(Error::Cycle)));
}

/// a -> b -> c
#[test]
fn preorder_traverse_line() {
    let mut forest = Forest::new();
    let a = forest.insert(0);
    let b = forest.insert(1);
    let c = forest.insert(2);

    forest.add_child(a, b).unwrap();
    forest.add_child(b, c).unwrap();

    let mut iter = forest.preorder_traverse(a).unwrap();
    assert_eq!(iter.next(), Some(Edge::Start(a)));
    assert_eq!(iter.next(), Some(Edge::Start(b)));
    assert_eq!(iter.next(), Some(Edge::Start(c)));
    assert_eq!(iter.next(), Some(Edge::End(c)));
    assert_eq!(iter.next(), Some(Edge::End(b)));
    assert_eq!(iter.next(), Some(Edge::End(a)));
    assert_eq!(iter.next(), None);
}

#[test]
fn triangle() {
    let mut forest = Forest::new();
    let a = forest.insert(0);
    let b = forest.insert(1);
    let c = forest.insert(2);

    //    a
    //  /   \
    // b <-> c
    forest.add_child(a, b).unwrap();
    forest.add_child(a, c).unwrap();

    let node_a = forest.get(a).unwrap();
    // a has two children, b and c. As such the first child should be b and last child c.
    assert_eq!(Node::first_child(node_a), Some(b));
    assert_eq!(Node::last_child(node_a), Some(c));

    // b's next sibling should be c.
    let node_b = forest.get(b).unwrap();
    assert_eq!(Node::parent(node_b), Some(a));
    assert_eq!(Node::prev_sibling(node_b), None);
    assert_eq!(Node::next_sibling(node_b), Some(c));

    // c's previous sibling should be b.
    let node_c = forest.get(c).unwrap();
    assert_eq!(Node::parent(node_b), Some(a));
    assert_eq!(Node::prev_sibling(node_c), Some(b));
    assert_eq!(Node::next_sibling(node_c), None);

    let mut iter = forest.preorder_traverse(a).unwrap();
    assert_eq!(iter.next(), Some(Edge::Start(a)));
    assert_eq!(iter.next(), Some(Edge::Start(b)));
    assert_eq!(iter.next(), Some(Edge::End(b)));
    assert_eq!(iter.next(), Some(Edge::Start(c)));
    assert_eq!(iter.next(), Some(Edge::End(c)));
    assert_eq!(iter.next(), Some(Edge::End(a)));
    assert_eq!(iter.next(), None);

    let mut prev_siblings = forest.previous_siblings(c).unwrap();
    assert_eq!(prev_siblings.next(), Some(c));
    assert_eq!(prev_siblings.next(), Some(b));
    assert_eq!(prev_siblings.next(), None);

    let mut next_siblings = forest.next_siblings(b).unwrap();
    assert_eq!(next_siblings.next(), Some(b));
    assert_eq!(next_siblings.next(), Some(c));
    assert_eq!(next_siblings.next(), None);

    let mut children = forest.children(a);
    assert_eq!(children.next(), Some(b));
    assert_eq!(children.next(), Some(c));
    assert_eq!(children.next(), None);
}

#[test]
fn node_index_matches_insert() {
    let mut forest = Forest::new();
    let index = forest.insert(());

    let node = forest.get(index).unwrap();
    assert_eq!(index, Node::index(node));
}

#[test]
fn insert_then_remove_gives_value_back() {
    let mut forest = Forest::new();
    let a = forest.insert(7u32);
    let b = forest.insert(9u32);
    assert_eq!(forest.remove(a).unwrap(), 7);
    assert!(!forest.contains_index(a));
    assert!(forest.contains_index(b));
    assert!(matches!(forest.remove(a), Err(Error::NotPresent(i)) if i == a));
    assert!(forest.get(a).is_none());
    assert_eq!(*forest.get(b).unwrap().value(), 9);
}

#[test]
fn insert_with_sees_own_index() {
    let mut forest = Forest::new();
    let a = forest.insert_with(|index| index);
    assert_eq!(*forest.get(a).unwrap().value(), a);
}

#[test]
fn add_child_missing_nodes() {
    let mut forest = Forest::new();
    let a = forest.insert(());
    let b = forest.insert(());
    forest.remove(b).unwrap();
    assert!(matches!(forest.add_child(a, b), Err(Error::NotPresent(i)) if i == b));
    assert!(matches!(forest.add_child(b, a), Err(Error::NotPresent(i)) if i == b));
}

#[test]
fn readding_a_child_is_a_cycle() {
    let mut forest = Forest::new();
    let a = forest.insert(());
    let b = forest.insert(());
    forest.add_child(a, b).unwrap();
    // b is already found beneath a.
    assert!(matches!(forest.add_child(a, b), Err(Error::Cycle)));
}

#[test]
fn grandchild_cycle_is_refused() {
    let mut forest = Forest::new();
    let a = forest.insert(());
    let b = forest.insert(());
    let c = forest.insert(());
    forest.add_child(a, b).unwrap();
    forest.add_child(b, c).unwrap();
    // a is an ancestor of c, so putting a under c would close a cycle.
    assert!(matches!(forest.add_child(c, a), Err(Error::Cycle)));
    assert_eq!(Node::parent(forest.get(a).unwrap()), None);
    assert_eq!(Node::first_child(forest.get(c).unwrap()), None);
}

#[test]
fn detach_middle_child_relinks_siblings() {
    let mut forest = Forest::new();
    let p = forest.insert(());
    let a = forest.insert(());
    let b = forest.insert(());
    let c = forest.insert(());
    forest.add_child(p, a).unwrap();
    forest.add_child(p, b).unwrap();
    forest.add_child(p, c).unwrap();

    forest.detach(b).unwrap();
    assert_eq!(Node::parent(forest.get(b).unwrap()), None);
    assert_eq!(Node::prev_sibling(forest.get(b).unwrap()), None);
    assert_eq!(Node::next_sibling(forest.get(b).unwrap()), None);
    assert_eq!(Node::next_sibling(forest.get(a).unwrap()), Some(c));
    assert_eq!(Node::prev_sibling(forest.get(c).unwrap()), Some(a));

    let mut children = forest.children(p);
    assert_eq!(children.next(), Some(a));
    assert_eq!(children.next(), Some(c));
    assert_eq!(children.next(), None);
}

#[test]
fn detach_only_child_clears_children() {
    let mut forest = Forest::new();
    let p = forest.insert(());
    let a = forest.insert(());
    forest.add_child(p, a).unwrap();
    forest.detach(a).unwrap();
    assert_eq!(Node::first_child(forest.get(p).unwrap()), None);
    assert_eq!(Node::last_child(forest.get(p).unwrap()), None);
    let mut children = forest.children(p);
    assert_eq!(children.next(), None);
}

#[test]
fn detach_first_and_last_child() {
    let mut forest = Forest::new();
    let p = forest.insert(());
    let a = forest.insert(());
    let b = forest.insert(());
    let c = forest.insert(());
    forest.add_child(p, a).unwrap();
    forest.add_child(p, b).unwrap();
    forest.add_child(p, c).unwrap();

    forest.detach(a).unwrap();
    assert_eq!(Node::first_child(forest.get(p).unwrap()), Some(b));
    assert_eq!(Node::last_child(forest.get(p).unwrap()), Some(c));

    forest.detach(c).unwrap();
    assert_eq!(Node::first_child(forest.get(p).unwrap()), Some(b));
    assert_eq!(Node::last_child(forest.get(p).unwrap()), Some(b));
}

#[test]
fn detach_missing_node() {
    let mut forest: Forest<()> = Forest::new();
    let a = forest.insert(());
    forest.remove(a).unwrap();
    assert!(matches!(forest.detach(a), Err(Error::NotPresent(i)) if i == a));
}

#[test]
fn walks_of_missing_nodes_are_none() {
    let mut forest = Forest::new();
    let a = forest.insert(());
    forest.remove(a).unwrap();
    assert!(forest.preorder_traverse(a).is_none());
    assert!(forest.dfs_descend(a).is_none());
    assert!(forest.previous_siblings(a).is_none());
    assert!(forest.next_siblings(a).is_none());
    let mut children = forest.children(a);
    assert_eq!(children.next(), None);
}

#[test]
fn dfs_descend_yields_entered_nodes() {
    let mut forest = Forest::new();
    let a = forest.insert(());
    let b = forest.insert(());
    let c = forest.insert(());
    let d = forest.insert(());
    // a -> (b -> d), c
    forest.add_child(a, b).unwrap();
    forest.add_child(a, c).unwrap();
    forest.add_child(b, d).unwrap();

    let mut dfs = forest.dfs_descend(a).unwrap();
    assert_eq!(dfs.next(), Some(a));
    assert_eq!(dfs.next(), Some(b));
    assert_eq!(dfs.next(), Some(d));
    assert_eq!(dfs.next(), Some(c));
    assert_eq!(dfs.next(), None);
    assert_eq!(dfs.next(), None);
}

#[test]
fn single_node_traversal() {
    let mut forest = Forest::new();
    let a = forest.insert(());
    let mut iter = forest.preorder_traverse(a).unwrap();
    assert_eq!(iter.next(), Some(Edge::Start(a)));
    assert_eq!(iter.next(), Some(Edge::End(a)));
    assert_eq!(iter.next(), None);
}

#[test]
fn detach_first_of_two_children() {
    let mut forest = Forest::new();
    let a = forest.insert(0);
    let b = forest.insert(1);
    let c = forest.insert(2);
    forest.add_child(a, b).unwrap();
    forest.add_child(a, c).unwrap();

    forest.detach(b).unwrap();
    assert_eq!(Node::parent(forest.get(b).unwrap()), None);
    assert_eq!(Node::next_sibling(forest.get(b).unwrap()), None);
    assert_eq!(Node::prev_sibling(forest.get(c).unwrap()), None);
    assert_eq!(Node::first_child(forest.get(a).unwrap()), Some(c));
    assert_eq!(Node::last_child(forest.get(a).unwrap()), Some(c));
    let mut children = forest.children(a);
    assert_eq!(children.next(), Some(c));
    assert_eq!(children.next(), None);
}

#[test]
fn walk_ends_within_counts_steps() {
    let mut forest = Forest::new();
    let a = forest.insert(());
    let b = forest.insert(());
    let c = forest.insert(());
    forest.add_child(a, b).unwrap();
    forest.add_child(b, c).unwrap();
    // The walk from a takes six steps: entering a, b, c and leaving c, b, a.
    assert!(forest.walk_ends_within(a, 7));
    assert!(forest.walk_ends_within(a, 100));
    assert!(!forest.walk_ends_within(a, 6));
    assert!(!forest.walk_ends_within(a, 0));
    assert!(forest.walk_ends_within(c, 3));
    assert!(!forest.walk_ends_within(c, 2));
}

#[test]
fn climb_ends_within_counts_parents() {
    let mut forest = Forest::new();
    let a = forest.insert(());
    let b = forest.insert(());
    let c = forest.insert(());
    let d = forest.insert(());
    forest.add_child(a, b).unwrap();
    forest.add_child(b, c).unwrap();
    // From c the climb meets b, then a, then runs out of parents.
    assert!(forest.climb_ends_within(c, a, 2));
    assert!(!forest.climb_ends_within(c, a, 1));
    assert!(forest.climb_ends_within(c, d, 3));
    assert!(!forest.climb_ends_within(c, d, 2));
    assert!(forest.climb_ends_within(a, d, 1));
}
