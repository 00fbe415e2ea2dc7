//! The Aerugo scene graph.
//!
//! A [`Scene`] keeps outputs, surface trees, surfaces and branches as nodes of a [`Forest`].
//! Outputs and surfaces are named by plain identifiers: an output by the number the compositor
//! gave it, a surface by its protocol object id.

use std::collections::HashMap;

use vstd::prelude::*;

use crate::forest::{Edge, Error, Forest, Index, Links, advance, lemma_started_after_end, nth_edge, started_nodes, walk_bound, walk_ends, lemma_values_dom, lemma_wf_finite, lemma_detached_parents, attach, attach_ok, detach_ok, detached, isolated, makes_cycle, no_links, search_ends, visits, climb_ends};

verus! {

broadcast use {vstd::std_specs::hash::group_hash_axioms, lemma_values_dom, lemma_wf_finite};

/// A stable index to reference an [`OutputNode`].
#[derive(Debug, Clone, Copy, PartialEq, Eq, PartialOrd, Ord, Hash, Structural)]
pub struct OutputIndex(Index);

/// A stable index to reference a [`SurfaceTreeNode`].
#[derive(Debug, Clone, Copy, PartialEq, Eq, PartialOrd, Ord, Hash, Structural)]
pub struct SurfaceTreeIndex(Index);

/// A stable index to reference a [`SurfaceNode`].
#[derive(Debug, Clone, Copy, PartialEq, Eq, PartialOrd, Ord, Hash, Structural)]
pub struct SurfaceIndex(Index);

/// A stable index to reference a [`BranchNode`].
#[derive(Debug, Clone, Copy, PartialEq, Eq, PartialOrd, Ord, Hash, Structural)]
pub struct BranchIndex(Index);

/// The index of a node that can be placed under a branch or presented on an output.
#[derive(Debug, Clone, Copy, PartialEq, Eq, Structural)]
pub enum NodeIndex {
    /// A surface tree.
    SurfaceTree(SurfaceTreeIndex),
    /// A branch.
    Branch(BranchIndex),
}

impl OutputIndex {
    /// The forest index.
    pub closed spec fn raw(&self) -> Index {
        self.0
    }
}

impl SurfaceTreeIndex {
    /// The forest index.
    pub closed spec fn raw(&self) -> Index {
        self.0
    }
}

impl SurfaceIndex {
    /// The forest index.
    pub closed spec fn raw(&self) -> Index {
        self.0
    }
}

impl BranchIndex {
    /// The forest index.
    pub closed spec fn raw(&self) -> Index {
        self.0
    }
}

/// The forest index of a node index.
pub open spec fn node_raw(n: NodeIndex) -> Index {
    match n {
        NodeIndex::SurfaceTree(i) => i.raw(),
        NodeIndex::Branch(i) => i.raw(),
    }
}

impl NodeIndex {
    /// Returns the forest index of the node.
    pub fn index(&self) -> (r: Index)
        ensures
            r == node_raw(*self),
    {
        match self {
            NodeIndex::SurfaceTree(i) => i.0,
            NodeIndex::Branch(i) => i.0,
        }
    }

    /// Returns true if this is the given surface tree.
    pub fn is_surface_tree(&self, other: SurfaceTreeIndex) -> (r: bool)
        ensures
            r == (*self == NodeIndex::SurfaceTree(other)),
    {
        match self {
            NodeIndex::SurfaceTree(i) => *i == other,
            NodeIndex::Branch(_) => false,
        }
    }

    /// Returns true if this is the given branch.
    pub fn is_branch(&self, other: BranchIndex) -> (r: bool)
        ensures
            r == (*self == NodeIndex::Branch(other)),
    {
        match self {
            NodeIndex::Branch(i) => *i == other,
            NodeIndex::SurfaceTree(_) => false,
        }
    }
}

/// An offset in physical pixels.
#[derive(Debug, Clone, Copy, PartialEq, Eq, Default, Structural)]
pub struct Offset {
    /// The horizontal offset.
    pub x: i32,
    /// The vertical offset.
    pub y: i32,
}

/// The offset of no movement.
pub open spec fn zero_offset() -> Offset {
    Offset { x: 0, y: 0 }
}

impl From<SurfaceTreeIndex> for Index {
    fn from(value: SurfaceTreeIndex) -> (r: Index) {
        value.0
    }
}

impl vstd::std_specs::convert::FromSpecImpl<SurfaceTreeIndex> for Index {
    open spec fn obeys_from_spec() -> bool {
        true
    }

    open spec fn from_spec(v: SurfaceTreeIndex) -> Index {
        v.raw()
    }
}

impl From<SurfaceIndex> for Index {
    fn from(value: SurfaceIndex) -> (r: Index) {
        value.0
    }
}

impl vstd::std_specs::convert::FromSpecImpl<SurfaceIndex> for Index {
    open spec fn obeys_from_spec() -> bool {
        true
    }

    open spec fn from_spec(v: SurfaceIndex) -> Index {
        v.raw()
    }
}

impl From<BranchIndex> for Index {
    fn from(value: BranchIndex) -> (r: Index) {
        value.0
    }
}

impl vstd::std_specs::convert::FromSpecImpl<BranchIndex> for Index {
    open spec fn obeys_from_spec() -> bool {
        true
    }

    open spec fn from_spec(v: BranchIndex) -> Index {
        v.raw()
    }
}

impl From<NodeIndex> for Index {
    fn from(value: NodeIndex) -> (r: Index) {
        value.index()
    }
}

impl vstd::std_specs::convert::FromSpecImpl<NodeIndex> for Index {
    open spec fn obeys_from_spec() -> bool {
        true
    }

    open spec fn from_spec(v: NodeIndex) -> Index {
        node_raw(v)
    }
}

/// A node for an output.
#[derive(Debug, Clone, Copy, PartialEq, Eq, Structural)]
pub struct OutputNode {
    index: OutputIndex,
    output: u64,
    present: Option<NodeIndex>,
}

impl OutputNode {
    /// The index of the node.
    pub closed spec fn own_index(&self) -> OutputIndex {
        self.index
    }

    /// The output the node stands for.
    pub closed spec fn output_id(&self) -> u64 {
        self.output
    }

    /// The node presented on the output, if any.
    pub closed spec fn presented(&self) -> Option<NodeIndex> {
        self.present
    }

    /// Returns the index of the node.
    pub fn index(&self) -> (r: OutputIndex)
        ensures
            r == self.own_index(),
    {
        self.index
    }

    /// Returns the output the node stands for.
    pub fn output(&self) -> (r: u64)
        ensures
            r == self.output_id(),
    {
        self.output
    }

    /// Returns the node presented on the output, if any.
    pub fn present(&self) -> (r: Option<NodeIndex>)
        ensures
            r == self.presented(),
    {
        self.present
    }
}

/// A node for a surface and its subsurface tree.
#[derive(Debug, Clone, Copy, PartialEq, Eq, Structural)]
pub struct SurfaceTreeNode {
    index: SurfaceTreeIndex,
    root: SurfaceIndex,
    base: SurfaceIndex,
    top: SurfaceIndex,
    offset: Offset,
}

impl SurfaceTreeNode {
    /// The index of the node.
    pub closed spec fn own_index(&self) -> SurfaceTreeIndex {
        self.index
    }

    /// The root surface of the tree.
    pub closed spec fn root_surface(&self) -> SurfaceIndex {
        self.root
    }

    /// The lowest surface of the tree.
    pub closed spec fn base_surface(&self) -> SurfaceIndex {
        self.base
    }

    /// The highest surface of the tree.
    pub closed spec fn top_surface(&self) -> SurfaceIndex {
        self.top
    }

    /// The offset of the root surface from the parent.
    pub closed spec fn offset_from_parent(&self) -> Offset {
        self.offset
    }

    /// Returns the index of the node.
    pub fn index(&self) -> (r: SurfaceTreeIndex)
        ensures
            r == self.own_index(),
    {
        self.index
    }

    /// The root surface is the parent of all subsurfaces in this subsurface tree.
    pub fn root(&self) -> (r: SurfaceIndex)
        ensures
            r == self.root_surface(),
    {
        self.root
    }

    /// The base surface is the subsurface with the lowest z-index in the tree.
    ///
    /// If there are no subsurfaces below the root surface, then this is the root surface.
    pub fn base(&self) -> (r: SurfaceIndex)
        ensures
            r == self.base_surface(),
    {
        self.base
    }

    /// The top surface is the subsurface with the highest z-index in the tree.
    ///
    /// If there are no subsurfaces above the root surface, then this is the root surface.
    pub fn top(&self) -> (r: SurfaceIndex)
        ensures
            r == self.top_surface(),
    {
        self.top
    }

    /// Returns the offset of the root surface from the parent.
    pub fn offset(&self) -> (r: Offset)
        ensures
            r == self.offset_from_parent(),
    {
        self.offset
    }
}

/// A node for a surface.
#[derive(Debug, Clone, Copy, PartialEq, Eq, Structural)]
pub struct SurfaceNode {
    index: SurfaceIndex,
    surface: u64,
    offset: Offset,
}

impl SurfaceNode {
    /// The index of the node.
    pub closed spec fn own_index(&self) -> SurfaceIndex {
        self.index
    }

    /// The protocol object id of the surface.
    pub closed spec fn surface_id(&self) -> u64 {
        self.surface
    }

    /// Returns the index of the node.
    pub fn index(&self) -> (r: SurfaceIndex)
        ensures
            r == self.own_index(),
    {
        self.index
    }

    /// Returns the protocol object id of the surface.
    pub fn surface(&self) -> (r: u64)
        ensures
            r == self.surface_id(),
    {
        self.surface
    }
}

/// A node grouping other nodes.
#[derive(Debug, Clone, Copy, PartialEq, Eq, Structural)]
pub struct BranchNode {
    index: BranchIndex,
    offset: Offset,
}

impl BranchNode {
    /// The index of the node.
    pub closed spec fn own_index(&self) -> BranchIndex {
        self.index
    }

    /// The offset of the branch from its parent.
    pub closed spec fn offset_from_parent(&self) -> Offset {
        self.offset
    }

    /// Returns the index of the node.
    pub fn index(&self) -> (r: BranchIndex)
        ensures
            r == self.own_index(),
    {
        self.index
    }

    /// Returns the offset of the branch from its parent.
    pub fn offset(&self) -> (r: Offset)
        ensures
            r == self.offset_from_parent(),
    {
        self.offset
    }
}

/// A node of the scene.
#[derive(Debug, Clone, Copy, PartialEq, Eq, Structural)]
pub enum SceneNode {
    /// An output.
    Output(OutputNode),
    /// A surface tree.
    SurfaceTree(SurfaceTreeNode),
    /// A surface.
    Surface(SurfaceNode),
    /// A branch.
    Branch(BranchNode),
}

/// The scene graph of the compositor.
pub struct Scene {
    outputs: HashMap<u64, OutputIndex>,
    surface_trees: HashMap<u64, SurfaceTreeIndex>,
    surfaces: HashMap<u64, SurfaceIndex>,
    forest: Forest<SceneNode>,
}

/// The node made for an output at a forest index.
pub closed spec fn output_node(index: Index, output: u64) -> SceneNode {
    SceneNode::Output(OutputNode { index: OutputIndex(index), output, present: None })
}

/// The output node `n`, presenting `node`.
pub closed spec fn presenting(n: OutputNode, node: NodeIndex) -> SceneNode {
    SceneNode::Output(OutputNode { index: n.index, output: n.output, present: Some(node) })
}

/// The node made for a surface at a forest index.
pub closed spec fn surface_node(index: SurfaceIndex, surface: u64) -> SceneNode {
    SceneNode::Surface(SurfaceNode { index, surface, offset: zero_offset() })
}

/// The node made for a surface tree at a forest index, whose root, base and top are `root`.
pub closed spec fn tree_node(index: SurfaceTreeIndex, root: SurfaceIndex) -> SceneNode {
    SceneNode::SurfaceTree(
        SurfaceTreeNode { index, root, base: root, top: root, offset: zero_offset() },
    )
}

/// The node made for a branch at a forest index.
pub closed spec fn branch_node(index: BranchIndex) -> SceneNode {
    SceneNode::Branch(BranchNode { index, offset: zero_offset() })
}

/// The node with its offset replaced, for nodes that have one.
pub closed spec fn with_offset(n: SceneNode, offset: Offset) -> SceneNode {
    match n {
        SceneNode::SurfaceTree(t) => SceneNode::SurfaceTree(
            (SurfaceTreeNode { index: t.index, root: t.root, base: t.base, top: t.top, offset }),
        ),
        SceneNode::Branch(b) => SceneNode::Branch((BranchNode { index: b.index, offset })),
        _ => n,
    }
}

/// The surface ids of the surface nodes among `s`, in order.
pub open spec fn surface_ids(nodes: Map<Index, SceneNode>, s: Seq<Index>) -> Seq<u64>
    decreases s.len(),
{
    if s.len() == 0 {
        Seq::empty()
    } else {
        let r = surface_ids(nodes, s.drop_last());
        match nodes[s.last()] {
            SceneNode::Surface(n) => r.push(n.surface_id()),
            _ => r,
        }
    }
}

/// What the node made for an output holds: its index, its output and nothing presented.
pub proof fn lemma_output_node(index: Index, output: u64)
    ensures
        output_node(index, output) matches SceneNode::Output(n) && n.own_index().raw() == index
            && n.output_id() == output && n.presented() is None,
{
}

/// Presenting a node keeps the output node's index and output and presents the node.
pub proof fn lemma_presenting(n: OutputNode, node: NodeIndex)
    ensures
        presenting(n, node) matches SceneNode::Output(m) && m.own_index() == n.own_index()
            && m.output_id() == n.output_id() && m.presented() == Some(node),
{
}

/// What the node made for a surface holds: its index and its surface.
pub proof fn lemma_surface_node(index: SurfaceIndex, surface: u64)
    ensures
        surface_node(index, surface) matches SceneNode::Surface(n) && n.own_index() == index
            && n.surface_id() == surface,
{
}

/// What the node made for a surface tree holds: its index, the root surface as root, base and
/// top, and no offset.
pub proof fn lemma_tree_node(index: SurfaceTreeIndex, root: SurfaceIndex)
    ensures
        tree_node(index, root) matches SceneNode::SurfaceTree(t) && t.own_index() == index
            && t.root_surface() == root && t.base_surface() == root && t.top_surface() == root
            && t.offset_from_parent() == zero_offset(),
{
}

/// What the node made for a branch holds: its index and no offset.
pub proof fn lemma_branch_node(index: BranchIndex)
    ensures
        branch_node(index) matches SceneNode::Branch(b) && b.own_index() == index
            && b.offset_from_parent() == zero_offset(),
{
}

/// Replacing the offset of a surface tree or a branch keeps the rest of the node and sets the
/// offset; other nodes stay as they are.
pub proof fn lemma_with_offset(n: SceneNode, offset: Offset)
    ensures
        match n {
            SceneNode::SurfaceTree(t) => with_offset(n, offset) matches SceneNode::SurfaceTree(u)
                && u.own_index() == t.own_index() && u.root_surface() == t.root_surface()
                && u.base_surface() == t.base_surface() && u.top_surface() == t.top_surface()
                && u.offset_from_parent() == offset,
            SceneNode::Branch(b) => with_offset(n, offset) matches SceneNode::Branch(c)
                && c.own_index() == b.own_index() && c.offset_from_parent() == offset,
            _ => with_offset(n, offset) == n,
        },
{
}

/// The node at `i` is an output node.
pub open spec fn is_output_at(nodes: Map<Index, SceneNode>, i: Index) -> bool {
    nodes.contains_key(i) && nodes[i] is Output
}

impl Scene {
    /// The relations of the nodes.
    pub closed spec fn graph(&self) -> Map<Index, Links> {
        self.forest@
    }

    /// The nodes of the scene.
    pub closed spec fn nodes(&self) -> Map<Index, SceneNode> {
        self.forest.values()
    }

    /// The output node of each output.
    pub closed spec fn output_map(&self) -> Map<u64, OutputIndex> {
        self.outputs@
    }

    /// The surface tree node of each surface that has one.
    pub closed spec fn surface_tree_map(&self) -> Map<u64, SurfaceTreeIndex> {
        self.surface_trees@
    }

    /// The surface node of each surface that has one.
    pub closed spec fn surface_map(&self) -> Map<u64, SurfaceIndex> {
        self.surfaces@
    }

    /// The scene is well formed: each output names a distinct output node that stands for it.
    pub closed spec fn wf(&self) -> bool {
        &&& self.forest.wf()
        &&& forall|o: u64| #[trigger]
            self.outputs@.contains_key(o) ==> {
                let i = self.outputs@[o].0;
                &&& self.forest.values().contains_key(i)
                &&& self.forest.values()[i] matches SceneNode::Output(n)
                &&& n.output == o
                &&& n.index == self.outputs@[o]
            }
        &&& forall|o1: u64, o2: u64| #[trigger]
            self.outputs@.contains_key(o1) && #[trigger] self.outputs@.contains_key(o2) && o1 != o2
                ==> self.outputs@[o1] != self.outputs@[o2]
        &&& forall|i: Index| #[trigger]
            is_output_at(self.forest.values(), i) ==> self.forest@.contains_key(i)
                && self.forest@[i].parent is None
    }

    /// Creates an empty scene.
    pub fn new() -> (s: Scene)
        ensures
            s.wf(),
            s.graph() == Map::<Index, Links>::empty(),
            s.nodes() == Map::<Index, SceneNode>::empty(),
            s.output_map() == Map::<u64, OutputIndex>::empty(),
            s.surface_tree_map() == Map::<u64, SurfaceTreeIndex>::empty(),
            s.surface_map() == Map::<u64, SurfaceIndex>::empty(),
    {
        let s = Scene {
            outputs: HashMap::new(),
            surface_trees: HashMap::new(),
            surfaces: HashMap::new(),
            forest: Forest::new(),
        };
        assert(s.outputs@ =~= Map::<u64, OutputIndex>::empty());
        s
    }

    /// Creates the node of an output and returns its index.
    pub fn create_output(&mut self, output: u64) -> (index: OutputIndex)
        requires
            old(self).wf(),
            old(self).graph().len() < 0xffff_fffe,
        ensures
            final(self).wf(),
            !old(self).graph().contains_key(index.raw()),
            final(self).graph() == old(self).graph().insert(index.raw(), no_links()),
            final(self).nodes() == old(self).nodes().insert(index.raw(), output_node(index.raw(), output)),
            final(self).output_map() == old(self).output_map().insert(output, index),
            final(self).surface_tree_map() == old(self).surface_tree_map(),
            final(self).surface_map() == old(self).surface_map(),
    {
        let ghost v0 = self.forest.values();
        let make = |index: Index| -> (n: SceneNode)
            ensures
                n == output_node(index, output),
            { SceneNode::Output(OutputNode { index: OutputIndex(index), output, present: None }) };
        let raw = self.forest.insert_with(make);
        let index = OutputIndex(raw);
        self.outputs.insert(output, index);
        assert(self.forest@[raw] == no_links());
        assert(self.forest.values() =~= v0.insert(raw, output_node(raw, output)));
        proof {
            let v = self.forest.values();
            let g = self.forest@;
            assert forall|o: u64| #[trigger] self.outputs@.contains_key(o) implies {
                let i = self.outputs@[o].0;
                &&& v.contains_key(i)
                &&& v[i] matches SceneNode::Output(n)
                &&& n.output == o
                &&& n.index == self.outputs@[o]
            } by {
                if o != output {
                    assert(old(self).outputs@.contains_key(o));
                    assert(v0.contains_key(old(self).outputs@[o].0));
                }
            }
            assert forall|o1: u64, o2: u64| #[trigger]
                self.outputs@.contains_key(o1) && #[trigger] self.outputs@.contains_key(o2) && o1
                    != o2 implies self.outputs@[o1] != self.outputs@[o2] by {
                if o1 != output {
                    assert(v0.contains_key(old(self).outputs@[o1].0));
                }
                if o2 != output {
                    assert(v0.contains_key(old(self).outputs@[o2].0));
                }
            }
            assert forall|i: Index| #[trigger] is_output_at(v, i) implies g.contains_key(i)
                && g[i].parent is None by {
                if i != raw {
                    assert(is_output_at(v0, i));
                }
            }
        }
        index
    }

    /// Removes the node of an output, if the output has one.
    pub fn destroy_output(&mut self, output: u64)
        requires
            old(self).wf(),
        ensures
            final(self).wf(),
            final(self).surface_tree_map() == old(self).surface_tree_map(),
            final(self).surface_map() == old(self).surface_map(),
            !old(self).output_map().contains_key(output) ==> final(self).graph() == old(self).graph()
                && final(self).nodes() == old(self).nodes() && final(self).output_map() == old(
                self,
            ).output_map(),
            old(self).output_map().contains_key(output) ==> {
                let i = old(self).output_map()[output].raw();
                &&& final(self).output_map() == old(self).output_map().remove(output)
                &&& final(self).graph() == detached(old(self).graph(), i).remove(i)
                &&& final(self).nodes() == old(self).nodes().remove(i)
            },
    {
        // Disassociating the output from child surfaces needs to occur before the node goes.
        self.unset_output_root(output);
        match self.outputs.remove(&output) {
            Some(index) => {
                let ghost g0 = self.forest@;
                let ghost v0 = self.forest.values();
                assert(is_output_at(v0, index.0));
                let _ = self.forest.remove(index.0);
                proof {
                    let v = self.forest.values();
                    let g = self.forest@;
                    assert forall|o: u64| #[trigger] self.outputs@.contains_key(o) implies {
                        let i = self.outputs@[o].0;
                        &&& v.contains_key(i)
                        &&& v[i] matches SceneNode::Output(n)
                        &&& n.output == o
                        &&& n.index == self.outputs@[o]
                    } by {
                        assert(old(self).outputs@.contains_key(o));
                        assert(old(self).outputs@[o] != old(self).outputs@[output]);
                    }
                    assert forall|i: Index| #[trigger] is_output_at(v, i) implies g.contains_key(i)
                        && g[i].parent is None by {
                        assert(is_output_at(v0, i));
                        lemma_detached_parents(g0, index.0, i);
                    }
                }
            },
            None => {},
        }
    }

    /// Returns the index of the output's node, if the output has one.
    pub fn get_output_index(&self, output: u64) -> (r: Option<OutputIndex>)
        ensures
            r == (if self.output_map().contains_key(output) {
                Some(self.output_map()[output])
            } else {
                None
            }),
    {
        match self.outputs.get(&output) {
            Some(index) => Some(*index),
            None => None,
        }
    }

    /// Returns the output node at the index, or [`None`] if it is not present.
    pub fn get_output(&self, index: OutputIndex) -> (r: Option<OutputNode>)
        requires
            self.wf(),
            self.nodes().contains_key(index.raw()) ==> self.nodes()[index.raw()] is Output,
        ensures
            r.is_some() == self.nodes().contains_key(index.raw()),
            r matches Some(n) ==> self.nodes()[index.raw()] == SceneNode::Output(n),
    {
        match self.forest.get(index.0) {
            Some(node) => match node.value() {
                SceneNode::Output(n) => Some(*n),
                _ => None,
            },
            None => None,
        }
    }

    /// Presents a node on an output, if the output has a node.
    pub fn set_output_node(&mut self, output: u64, node: NodeIndex)
        requires
            old(self).wf(),
        ensures
            final(self).wf(),
            final(self).graph() == old(self).graph(),
            final(self).output_map() == old(self).output_map(),
            final(self).surface_tree_map() == old(self).surface_tree_map(),
            final(self).surface_map() == old(self).surface_map(),
            !old(self).output_map().contains_key(output) ==> final(self).nodes() == old(self).nodes(),
            old(self).output_map().contains_key(output) ==> {
                let i = old(self).output_map()[output].raw();
                old(self).nodes()[i] matches SceneNode::Output(n) && final(self).nodes()
                    == old(self).nodes().insert(i, presenting(n, node))
            },
    {
        self.unset_output_root(output);
        match self.get_output_index(output) {
            Some(index) => {
                let current = self.get_output(index).unwrap();
                let ghost v0 = self.forest.values();
                let _ = self.forest.replace(
                    index.0,
                    SceneNode::Output(
                        OutputNode { index: current.index, output: current.output, present: Some(node) },
                    ),
                );
                assert(forall|i: Index| #[trigger] is_output_at(self.forest.values(), i) ==> is_output_at(v0, i));
            },
            None => {},
        }
    }

    /// Returns the index of the surface tree of a surface, if the surface has one.
    pub fn get_surface_tree_index(&self, surface: u64) -> (r: Option<SurfaceTreeIndex>)
        ensures
            r == (if self.surface_tree_map().contains_key(surface) {
                Some(self.surface_tree_map()[surface])
            } else {
                None
            }),
    {
        match self.surface_trees.get(&surface) {
            Some(index) => Some(*index),
            None => None,
        }
    }

    /// Returns the surface tree node at the index, or [`None`] if it is not present.
    pub fn get_surface_tree(&self, index: SurfaceTreeIndex) -> (r: Option<SurfaceTreeNode>)
        requires
            self.wf(),
            self.nodes().contains_key(index.raw()) ==> self.nodes()[index.raw()] is SurfaceTree,
        ensures
            r.is_some() == self.nodes().contains_key(index.raw()),
            r matches Some(n) ==> self.nodes()[index.raw()] == SceneNode::SurfaceTree(n),
    {
        match self.forest.get(index.0) {
            Some(node) => match node.value() {
                SceneNode::SurfaceTree(n) => Some(*n),
                _ => None,
            },
            None => None,
        }
    }

    /// Returns the index of the surface node of a surface, if the surface has one.
    pub fn get_surface_index(&self, surface: u64) -> (r: Option<SurfaceIndex>)
        ensures
            r == (if self.surface_map().contains_key(surface) {
                Some(self.surface_map()[surface])
            } else {
                None
            }),
    {
        match self.surfaces.get(&surface) {
            Some(index) => Some(*index),
            None => None,
        }
    }

    /// Returns the surface node at the index, or [`None`] if it is not present.
    pub fn get_surface(&self, index: SurfaceIndex) -> (r: Option<SurfaceNode>)
        requires
            self.wf(),
            self.nodes().contains_key(index.raw()) ==> self.nodes()[index.raw()] is Surface,
        ensures
            r.is_some() == self.nodes().contains_key(index.raw()),
            r matches Some(n) ==> self.nodes()[index.raw()] == SceneNode::Surface(n),
    {
        match self.forest.get(index.0) {
            Some(node) => match node.value() {
                SceneNode::Surface(n) => Some(*n),
                _ => None,
            },
            None => None,
        }
    }

    /// Returns the branch node at the index, or [`None`] if it is not present.
    pub fn get_branch(&self, index: BranchIndex) -> (r: Option<BranchNode>)
        requires
            self.wf(),
            self.nodes().contains_key(index.raw()) ==> self.nodes()[index.raw()] is Branch,
        ensures
            r.is_some() == self.nodes().contains_key(index.raw()),
            r matches Some(n) ==> self.nodes()[index.raw()] == SceneNode::Branch(n),
    {
        match self.forest.get(index.0) {
            Some(node) => match node.value() {
                SceneNode::Branch(n) => Some(*n),
                _ => None,
            },
            None => None,
        }
    }

    /// Creates a surface tree for a surface: a surface node, and a surface tree node whose
    /// root, base and top are that surface and which has it as its only child.
    pub fn create_surface_tree(&mut self, surface: u64) -> (index: SurfaceTreeIndex)
        requires
            old(self).wf(),
            old(self).graph().len() + 2 < 0xffff_fffe,
        ensures
            final(self).wf(),
            final(self).output_map() == old(self).output_map(),
            final(self).surface_tree_map() == old(self).surface_tree_map(),
            final(self).surface_map() == old(self).surface_map(),
            ({
                let root = final(self).nodes()[index.raw()]->SurfaceTree_0.root_surface();
                &&& !old(self).graph().contains_key(root.raw())
                &&& !old(self).graph().contains_key(index.raw())
                &&& root.raw() != index.raw()
                &&& final(self).nodes() == old(self).nodes().insert(
                    root.raw(),
                    surface_node(root, surface),
                ).insert(index.raw(), tree_node(index, root))
                &&& final(self).graph() == attach(
                    old(self).graph().insert(root.raw(), no_links()).insert(index.raw(), no_links()),
                    index.raw(),
                    root.raw(),
                )
            }),
    {
        let ghost v0 = self.forest.values();
        let ghost g0 = self.forest@;
        let make_surface = |index: Index| -> (n: SceneNode)
            ensures
                n == surface_node(SurfaceIndex(index), surface),
            {
                SceneNode::Surface(
                    SurfaceNode { index: SurfaceIndex(index), surface, offset: Offset { x: 0, y: 0 } },
                )
            };
        let root = SurfaceIndex(self.forest.insert_with(make_surface));
        let ghost v1 = self.forest.values();
        let make_tree = |index: Index| -> (n: SceneNode)
            ensures
                n == tree_node(SurfaceTreeIndex(index), root),
            {
                SceneNode::SurfaceTree(
                    SurfaceTreeNode {
                        index: SurfaceTreeIndex(index),
                        root,
                        base: root,
                        top: root,
                        offset: Offset { x: 0, y: 0 },
                    },
                )
            };
        let tree = self.forest.insert_with(make_tree);
        let index = SurfaceTreeIndex(tree);
        let ghost g2 = self.forest@;
        assert(g2[root.0] == no_links());
        assert(g2[tree] == no_links());
        assert(!makes_cycle(g2, tree, root.0));
        let added = self.forest.add_child(tree, root.0);
        assert(added is Ok);
        assert(v1 =~= v0.insert(root.0, v1[root.0]));
        assert(self.forest.values() =~= v1.insert(tree, self.forest.values()[tree]));
        proof {
            assert forall|i: Index| #[trigger] is_output_at(self.forest.values(), i) implies self.forest@.contains_key(
                i,
            ) && self.forest@[i].parent is None by {
                assert(i != root.0 && i != tree);
                assert(is_output_at(v0, i));
            }
        }
        // Initialize the surface tree
        self.apply_surface_commit(surface);
        index
    }

    /// Applies the new state of a surface to the scene; nothing is applied yet.
    pub fn apply_surface_commit(&mut self, _surface: u64)
        ensures
            *final(self) == *old(self),
    {
    }

    /// Creates a branch node and returns its index.
    pub fn create_branch(&mut self) -> (index: BranchIndex)
        requires
            old(self).wf(),
            old(self).graph().len() < 0xffff_fffe,
        ensures
            final(self).wf(),
            !old(self).graph().contains_key(index.raw()),
            final(self).graph() == old(self).graph().insert(index.raw(), no_links()),
            final(self).nodes() == old(self).nodes().insert(index.raw(), branch_node(index)),
            final(self).output_map() == old(self).output_map(),
            final(self).surface_tree_map() == old(self).surface_tree_map(),
            final(self).surface_map() == old(self).surface_map(),
    {
        let ghost v0 = self.forest.values();
        let make = |index: Index| -> (n: SceneNode)
            ensures
                n == branch_node(BranchIndex(index)),
            { SceneNode::Branch(BranchNode { index: BranchIndex(index), offset: Offset { x: 0, y: 0 } }) };
        let raw = self.forest.insert_with(make);
        assert(self.forest.values() =~= v0.insert(raw, self.forest.values()[raw]));
        proof {
            assert forall|i: Index| #[trigger] is_output_at(self.forest.values(), i) implies self.forest@.contains_key(
                i,
            ) && self.forest@[i].parent is None by {
                assert(i != raw);
                assert(is_output_at(v0, i));
            }
        }
        BranchIndex(raw)
    }

    /// Makes a node the last child of a branch.
    pub fn branch_add_child(&mut self, branch: BranchIndex, index: NodeIndex) -> (r: Result<(), Error>)
        requires
            old(self).wf(),
            old(self).nodes().contains_key(node_raw(index)) ==> !(old(self).nodes()[node_raw(
                index,
            )] is Output),
            old(self).graph().contains_key(branch.raw()) && old(self).graph().contains_key(
                node_raw(index),
            ) && branch.raw() != node_raw(index) && !isolated(old(self).graph()[node_raw(index)])
                && old(self).graph()[branch.raw()].parent != Some(node_raw(index)) ==> search_ends(
                old(self).graph(),
                branch.raw(),
                node_raw(index),
            ),
            old(self).graph().contains_key(branch.raw()) && old(self).graph().contains_key(
                node_raw(index),
            ) && branch.raw() != node_raw(index) && !isolated(old(self).graph()[node_raw(index)])
                && old(self).graph()[branch.raw()].parent != Some(node_raw(index)) && !visits(
                old(self).graph(),
                branch.raw(),
                node_raw(index),
            ) ==> climb_ends(old(self).graph(), branch.raw(), node_raw(index)),
            old(self).graph().contains_key(branch.raw()) && old(self).graph().contains_key(
                node_raw(index),
            ) && !makes_cycle(old(self).graph(), branch.raw(), node_raw(index)) ==> attach_ok(
                old(self).graph(),
                branch.raw(),
            ),
        ensures
            final(self).wf(),
            final(self).nodes() == old(self).nodes(),
            final(self).output_map() == old(self).output_map(),
            final(self).surface_tree_map() == old(self).surface_tree_map(),
            final(self).surface_map() == old(self).surface_map(),
            !old(self).graph().contains_key(branch.raw()) ==> r == Err::<(), Error>(
                Error::NotPresent(branch.raw()),
            ) && final(self).graph() == old(self).graph(),
            old(self).graph().contains_key(branch.raw()) && !old(self).graph().contains_key(
                node_raw(index),
            ) ==> r == Err::<(), Error>(Error::NotPresent(node_raw(index))) && final(self).graph()
                == old(self).graph(),
            old(self).graph().contains_key(branch.raw()) && old(self).graph().contains_key(
                node_raw(index),
            ) && makes_cycle(old(self).graph(), branch.raw(), node_raw(index)) ==> r == Err::<
                (),
                Error,
            >(Error::Cycle) && final(self).graph() == old(self).graph(),
            old(self).graph().contains_key(branch.raw()) && old(self).graph().contains_key(
                node_raw(index),
            ) && !makes_cycle(old(self).graph(), branch.raw(), node_raw(index)) ==> r == Ok::<
                (),
                Error,
            >(()) && final(self).graph() == attach(old(self).graph(), branch.raw(), node_raw(index)),
    {
        let ghost g0 = self.forest@;
        let child = index.index();
        let r = self.forest.add_child(branch.0, child);
        proof {
            assert forall|i: Index| #[trigger] is_output_at(self.forest.values(), i) implies self.forest@.contains_key(
                i,
            ) && self.forest@[i].parent is None by {
                assert(is_output_at(old(self).forest.values(), i));
                assert(i != child);
            }
        }
        r
    }

    /// Removes a branch node; its children keep it as their parent.
    pub fn destroy_branch(&mut self, index: BranchIndex)
        requires
            old(self).wf(),
            old(self).nodes().contains_key(index.raw()) ==> old(self).nodes()[index.raw()] is Branch
                && detach_ok(old(self).graph(), index.raw()),
        ensures
            final(self).wf(),
            final(self).output_map() == old(self).output_map(),
            final(self).surface_tree_map() == old(self).surface_tree_map(),
            final(self).surface_map() == old(self).surface_map(),
            !old(self).graph().contains_key(index.raw()) ==> final(self).graph() == old(self).graph()
                && final(self).nodes() == old(self).nodes(),
            old(self).graph().contains_key(index.raw()) ==> final(self).graph() == detached(
                old(self).graph(),
                index.raw(),
            ).remove(index.raw()) && final(self).nodes() == old(self).nodes().remove(index.raw()),
    {
        let _ = self.forest.remove(index.0);
        proof {
            assert forall|i: Index| #[trigger] is_output_at(self.forest.values(), i) implies self.forest@.contains_key(
                i,
            ) && self.forest@[i].parent is None by {
                assert(is_output_at(old(self).forest.values(), i));
                assert(i != index.0);
            }
        }
    }

    /// Sets the offset of a node relative to its parent, if the node is present.
    pub fn set_node_offset(&mut self, index: NodeIndex, offset: Offset)
        requires
            old(self).wf(),
            old(self).nodes().contains_key(node_raw(index)) ==> match index {
                NodeIndex::SurfaceTree(_) => old(self).nodes()[node_raw(index)] is SurfaceTree,
                NodeIndex::Branch(_) => old(self).nodes()[node_raw(index)] is Branch,
            },
        ensures
            final(self).wf(),
            final(self).graph() == old(self).graph(),
            final(self).output_map() == old(self).output_map(),
            final(self).surface_tree_map() == old(self).surface_tree_map(),
            final(self).surface_map() == old(self).surface_map(),
            !old(self).nodes().contains_key(node_raw(index)) ==> final(self).nodes() == old(self).nodes(),
            old(self).nodes().contains_key(node_raw(index)) ==> final(self).nodes() == old(self).nodes().insert(
                node_raw(index),
                with_offset(old(self).nodes()[node_raw(index)], offset),
            ),
    {
        match index {
            NodeIndex::SurfaceTree(i) => {
                match self.get_surface_tree(i) {
                    Some(n) => {
                        let _ = self.forest.replace(
                            i.0,
                            SceneNode::SurfaceTree(
                                SurfaceTreeNode {
                                    index: n.index,
                                    root: n.root,
                                    base: n.base,
                                    top: n.top,
                                    offset,
                                },
                            ),
                        );
                    },
                    None => {},
                }
            },
            NodeIndex::Branch(i) => {
                match self.get_branch(i) {
                    Some(n) => {
                        let _ = self.forest.replace(
                            i.0,
                            SceneNode::Branch(BranchNode { index: n.index, offset }),
                        );
                    },
                    None => {},
                }
            },
        }
        proof {
            assert forall|i: Index| #[trigger] is_output_at(self.forest.values(), i) implies self.forest@.contains_key(
                i,
            ) && self.forest@[i].parent is None by {
                assert(is_output_at(old(self).forest.values(), i));
            }
        }
    }

    /// Returns the node presented on an output, if the output has a node that presents one.
    pub fn get_graph(&self, output: u64) -> (r: Option<NodeIndex>)
        requires
            self.wf(),
        ensures
            r == (if self.output_map().contains_key(output) {
                match self.nodes()[self.output_map()[output].raw()] {
                    SceneNode::Output(n) => n.presented(),
                    _ => None,
                }
            } else {
                None
            }),
    {
        let index = match self.get_output_index(output) {
            Some(index) => index,
            None => {
                return None;
            },
        };
        let node = self.get_output(index).unwrap();
        node.present
    }

    /// Returns true if the walk over the tree under `root` ends within `fuel` steps, looking up
    /// present nodes only; a caller establishes the walks [`Scene::render_surfaces`] and
    /// [`Scene::branch_add_child`] need this way.
    pub fn walk_ends_within(&self, root: NodeIndex, fuel: u64) -> (r: bool)
        requires
            self.wf(),
        ensures
            r ==> walk_ends(self.graph(), node_raw(root)),
    {
        self.forest.walk_ends_within(root.index(), fuel)
    }

    /// Returns true if the climb from `branch` through its parents ends or meets `index` within
    /// `fuel` steps; a caller establishes the climb [`Scene::branch_add_child`] needs this way.
    pub fn climb_ends_within(&self, branch: BranchIndex, index: NodeIndex, fuel: u64) -> (r: bool)
        requires
            self.wf(),
        ensures
            r ==> climb_ends(self.graph(), branch.raw(), node_raw(index)),
    {
        self.forest.climb_ends_within(branch.0, index.index(), fuel)
    }

    /// Returns the surfaces to render for the tree under `root`, top to bottom: the surface
    /// nodes in the reverse of the order a pre-order walk enters them.
    ///
    /// Nothing is rendered for a root that is not present.
    pub fn render_surfaces(&self, root: NodeIndex) -> (r: Vec<u64>)
        requires
            self.wf(),
            self.graph().contains_key(node_raw(root)) ==> walk_ends(self.graph(), node_raw(root)),
            forall|k: nat|
                #[trigger] nth_edge(self.graph(), node_raw(root), Some(Edge::Start(node_raw(root))), k)
                    matches Some(Edge::Start(i)) ==> !(self.nodes()[i] is Output),
        ensures
            !self.graph().contains_key(node_raw(root)) ==> r@ == Seq::<u64>::empty(),
            forall|n: nat|
                #[trigger] nth_edge(self.graph(), node_raw(root), Some(Edge::Start(node_raw(root))), n) is None
                    ==> self.graph().contains_key(node_raw(root)) ==> r@ == surface_ids(
                    self.nodes(),
                    started_nodes(
                        self.graph(),
                        node_raw(root),
                        Some(Edge::Start(node_raw(root))),
                        n,
                    ),
                ).reverse(),
    {
        let index = root.index();
        let mut iter = match self.forest.preorder_traverse(index) {
            Some(iter) => iter,
            None => {
                return Vec::new();
            },
        };
        let ghost g = self.graph();
        let ghost nodes = self.nodes();
        let ghost first = Some(Edge::Start(index));
        let ghost n = choose|n: nat| walk_bound(g, index, n);
        let ghost mut k: nat = 0;
        let mut indices: Vec<u64> = Vec::new();
        loop
            invariant
                self.wf(),
                g == self.graph(),
                nodes == self.nodes(),
                first == Some(Edge::Start(index)),
                index == node_raw(root),
                iter.wf(),
                iter.graph() == g,
                iter.root() == index,
                iter.pending() == nth_edge(g, index, first, k),
                walk_bound(g, index, n),
                k <= n,
                forall|j: nat| j < k ==> #[trigger] nth_edge(g, index, first, j) is Some,
                forall|j: nat|
                    #[trigger] nth_edge(g, index, first, j) matches Some(Edge::Start(i)) ==> !(
                    nodes[i] is Output),
                indices@ == surface_ids(nodes, started_nodes(g, index, first, k)),
            ensures
                nth_edge(g, index, first, k) is None,
                indices@ == surface_ids(nodes, started_nodes(g, index, first, k)),
            decreases n - k,
        {
            let e = iter.next();
            proof {
                assert(nth_edge(g, index, first, k + 1) == advance(
                    g,
                    index,
                    nth_edge(g, index, first, k),
                ));
            }
            match e {
                None => {
                    break;
                },
                Some(Edge::Start(i)) => {
                    let ghost before = started_nodes(g, index, first, k);
                    assert(started_nodes(g, index, first, k + 1) == before.push(i));
                    assert(before.push(i).drop_last() =~= before);
                    let node = self.forest.get(i).unwrap();
                    match node.value() {
                        SceneNode::Surface(surface) => {
                            indices.push(surface.surface);
                        },
                        _ => {},
                    }
                },
                Some(Edge::End(_)) => {
                    assert(started_nodes(g, index, first, k + 1) == started_nodes(g, index, first, k));
                },
            }
            proof {
                k = k + 1;
            }
        }
        // The walk is over: the pending edge is the end.
        let ghost end_k = k;
        let mut out: Vec<u64> = Vec::new();
        let mut j: usize = indices.len();
        while j > 0
            invariant
                j <= indices.len(),
                out@ == indices@.subrange(j as int, indices@.len() as int).reverse(),
            decreases j,
        {
            j -= 1;
            out.push(indices[j]);
            assert(indices@.subrange(j as int, indices@.len() as int) =~= seq![indices@[j as int]]
                + indices@.subrange(j + 1, indices@.len() as int));
            assert(out@ =~= indices@.subrange(j as int, indices@.len() as int).reverse());
        }
        assert(indices@.subrange(0, indices@.len() as int) =~= indices@);
        proof {
            assert forall|m: nat| #[trigger] nth_edge(g, index, first, m) is None implies out@
                == surface_ids(nodes, started_nodes(g, index, first, m)).reverse() by {
                if m < end_k {
                    assert(nth_edge(g, index, first, m) is Some);
                } else {
                    lemma_started_after_end(g, index, first, end_k, m);
                }
            }
        }
        out
    }

    /// Unsets the node presented on an output; leave events are not sent yet.
    fn unset_output_root(&self, output: u64)
        requires
            self.wf(),
    {
        match self.get_output_index(output) {
            Some(index) => {
                let _node = self.get_output(index);
            },
            None => {},
        }
    }
}

/// The surfaces rendered from a run of nodes are exactly the surfaces of its surface nodes,
/// in order: an id is among them when some node of the run is a surface node of that id.
pub proof fn lemma_surface_ids(nodes: Map<Index, SceneNode>, s: Seq<Index>, x: u64)
    ensures
        surface_ids(nodes, s).len() <= s.len(),
        surface_ids(nodes, s).contains(x) <==> exists|i: int|
            0 <= i < s.len() && (#[trigger] nodes[s[i]] matches SceneNode::Surface(n) && n.surface_id() == x),
    decreases s.len(),
{
    if s.len() > 0 {
        let init = s.drop_last();
        lemma_surface_ids(nodes, init, x);
        let r = surface_ids(nodes, init);
        let u = surface_ids(nodes, s);
        let n = s.len() - 1;
        if u.contains(x) {
            let k = choose|k: int| 0 <= k < u.len() && u[k] == x;
            if k < r.len() {
                assert(r[k] == x);
                let i = choose|i: int|
                    0 <= i < init.len() && (#[trigger] nodes[init[i]] matches SceneNode::Surface(m) && m.surface_id() == x);
                assert(s[i] == init[i]);
            } else {
                assert(s[n] == s.last());
            }
        }
        if exists|i: int| 0 <= i < s.len() && (#[trigger] nodes[s[i]] matches SceneNode::Surface(m) && m.surface_id() == x) {
            let i = choose|i: int|
                0 <= i < s.len() && (#[trigger] nodes[s[i]] matches SceneNode::Surface(m) && m.surface_id() == x);
            if i < n {
                assert(init[i] == s[i]);
                assert(r.contains(x));
                let k = choose|k: int| 0 <= k < r.len() && r[k] == x;
                assert(u[k] == x);
            } else {
                assert(s.last() == s[i]);
                assert(u[r.len() as int] == x);
            }
        }
    }
}

} // verus!
