use aerugo::forest::{Error, Index};
use aerugo::scene::{NodeIndex, Offset, Scene};

#[test]
fn outputs_are_created_and_destroyed() {
    let mut scene = Scene::new();
    assert_eq!(scene.get_output_index(3), None);
    let index = scene.create_output(3);
    assert_eq!(scene.get_output_index(3), Some(index));
    let node = scene.get_output(index).unwrap();
    assert_eq!(node.index(), index);
    assert_eq!(node.output(), 3);
    assert_eq!(node.present(), None);
    assert_eq!(scene.get_graph(3), None);

    scene.destroy_output(3);
    assert_eq!(scene.get_output_index(3), None);
    assert!(scene.get_output(index).is_none());
    // Destroying an unknown output does nothing.
    scene.destroy_output(3);
}

#[test]
fn surface_tree_starts_with_its_root_surface() {
    let mut scene = Scene::new();
    let tree = scene.create_surface_tree(42);
    let node = scene.get_surface_tree(tree).unwrap();
    assert_eq!(node.index(), tree);
    assert_eq!(node.base(), node.root());
    assert_eq!(node.top(), node.root());
    assert_eq!(node.offset(), Offset { x: 0, y: 0 });
    let surface = scene.get_surface(node.root()).unwrap();
    assert_eq!(surface.surface(), 42);
    assert_eq!(surface.index(), node.root());
    // Surface trees are not indexed by surface.
    assert_eq!(scene.get_surface_tree_index(42), None);
    assert_eq!(scene.get_surface_index(42), None);
}

#[test]
fn branches_present_on_outputs() {
    let mut scene = Scene::new();
    let output = scene.create_output(1);
    let branch = scene.create_branch();
    let tree = scene.create_surface_tree(7);
    assert!(scene.branch_add_child(branch, NodeIndex::SurfaceTree(tree)).is_ok());
    // Adding the same child again is found beneath the branch.
    assert!(matches!(scene.branch_add_child(branch, NodeIndex::SurfaceTree(tree)), Err(Error::Cycle)));
    assert!(matches!(scene.branch_add_child(branch, NodeIndex::Branch(branch)), Err(Error::Cycle)));

    scene.set_output_node(1, NodeIndex::Branch(branch));
    assert_eq!(scene.get_graph(1), Some(NodeIndex::Branch(branch)));
    assert_eq!(scene.get_output(output).unwrap().present(), Some(NodeIndex::Branch(branch)));
    // An unknown output is left alone.
    scene.set_output_node(2, NodeIndex::Branch(branch));
    assert_eq!(scene.get_graph(2), None);

    scene.set_node_offset(NodeIndex::Branch(branch), Offset { x: 4, y: -2 });
    assert_eq!(scene.get_branch(branch).unwrap().offset(), Offset { x: 4, y: -2 });
    scene.set_node_offset(NodeIndex::SurfaceTree(tree), Offset { x: 1, y: 1 });
    assert_eq!(scene.get_surface_tree(tree).unwrap().offset(), Offset { x: 1, y: 1 });

    scene.destroy_branch(branch);
    assert!(scene.get_branch(branch).is_none());
    assert!(matches!(
        scene.branch_add_child(branch, NodeIndex::SurfaceTree(tree)),
        Err(Error::NotPresent(_))
    ));
}

#[test]
fn node_index_helpers() {
    let mut scene = Scene::new();
    let branch = scene.create_branch();
    let tree = scene.create_surface_tree(9);
    assert!(NodeIndex::Branch(branch).is_branch(branch));
    assert!(!NodeIndex::Branch(branch).is_surface_tree(tree));
    assert!(NodeIndex::SurfaceTree(tree).is_surface_tree(tree));
    assert_ne!(NodeIndex::Branch(branch).index(), NodeIndex::SurfaceTree(tree).index());
    let raw: Index = branch.into();
    assert_eq!(raw, NodeIndex::Branch(branch).index());
    let raw: Index = NodeIndex::SurfaceTree(tree).into();
    assert_eq!(raw, Index::from(tree));
    let root = scene.get_surface_tree(tree).unwrap().root();
    assert_ne!(Index::from(root), Index::from(tree));
}

#[test]
fn surfaces_render_top_to_bottom() {
    let mut scene = Scene::new();
    let top = scene.create_branch();
    let inner = scene.create_branch();
    let first = scene.create_surface_tree(1);
    let second = scene.create_surface_tree(2);
    let third = scene.create_surface_tree(3);
    // top -> (first, inner -> (second), third)
    scene.branch_add_child(top, NodeIndex::SurfaceTree(first)).unwrap();
    scene.branch_add_child(top, NodeIndex::Branch(inner)).unwrap();
    scene.branch_add_child(inner, NodeIndex::SurfaceTree(second)).unwrap();
    scene.branch_add_child(top, NodeIndex::SurfaceTree(third)).unwrap();

    assert_eq!(scene.render_surfaces(NodeIndex::Branch(top)), vec![3, 2, 1]);
    assert_eq!(scene.render_surfaces(NodeIndex::Branch(inner)), vec![2]);
    assert_eq!(scene.render_surfaces(NodeIndex::SurfaceTree(first)), vec![1]);

    scene.destroy_branch(inner);
    assert!(scene.render_surfaces(NodeIndex::Branch(inner)).is_empty());
}

#[test]
fn scene_walk_and_climb_checks() {
    let mut scene = Scene::new();
    let top = scene.create_branch();
    let tree = scene.create_surface_tree(7);
    assert!(scene.walk_ends_within(NodeIndex::Branch(top), 3));
    assert!(!scene.walk_ends_within(NodeIndex::Branch(top), 2));
    assert!(scene.climb_ends_within(top, NodeIndex::SurfaceTree(tree), 1));
    assert!(scene.branch_add_child(top, NodeIndex::SurfaceTree(tree)).is_ok());
    // The branch, the surface tree and its root surface: six steps in and out.
    assert!(scene.walk_ends_within(NodeIndex::Branch(top), 7));
    assert!(!scene.walk_ends_within(NodeIndex::Branch(top), 6));
}
