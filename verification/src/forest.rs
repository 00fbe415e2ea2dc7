//! A forest of ordered trees.
//!
//! Each node of a [`Forest`] may have a parent, a previous and a next sibling, and a first and
//! a last child. Nodes are addressed by stable [`Index`] values.

use std::collections::HashMap;

use vstd::prelude::*;

use crate::slots::{KeySlots, slot_keys, slots_insert, slots_new, slots_remove};

verus! {

broadcast use vstd::std_specs::hash::group_hash_axioms;

/// The index to a value in a [`Forest`].
#[derive(Debug, Clone, Copy, PartialEq, Eq, PartialOrd, Ord, Hash, Structural)]
pub struct Index {
    key: u64,
}

/// An error from using a [`Forest`].
#[derive(Debug, Clone, Copy, PartialEq, Eq, Structural)]
pub enum Error {
    /// The index is not present in the forest.
    NotPresent(Index),
    /// Inserting failed because the forest would become cyclic.
    Cycle,
}

/// The relations of a node to other nodes.
#[derive(Debug, Clone, Copy)]
pub struct Links {
    /// The parent of the node.
    pub parent: Option<Index>,
    /// The previous sibling of the node.
    pub prev: Option<Index>,
    /// The next sibling of the node.
    pub next: Option<Index>,
    /// The first and last children of the node.
    pub first_last_child: Option<(Index, Index)>,
}

/// The relations of a node that was just inserted: none.
pub open spec fn no_links() -> Links {
    Links { parent: None, prev: None, next: None, first_last_child: None }
}

/// A node has no parent, sibling or child.
pub open spec fn isolated(l: Links) -> bool {
    l.parent.is_none() && l.prev.is_none() && l.next.is_none() && l.first_last_child.is_none()
}

/// The relations `l` with the parent replaced.
pub open spec fn with_parent(l: Links, parent: Option<Index>) -> Links {
    Links { parent, prev: l.prev, next: l.next, first_last_child: l.first_last_child }
}

/// The relations `l` with the previous sibling replaced.
pub open spec fn with_prev(l: Links, prev: Option<Index>) -> Links {
    Links { parent: l.parent, prev, next: l.next, first_last_child: l.first_last_child }
}

/// The relations `l` with the next sibling replaced.
pub open spec fn with_next(l: Links, next: Option<Index>) -> Links {
    Links { parent: l.parent, prev: l.prev, next, first_last_child: l.first_last_child }
}

/// The relations `l` with the first and last children replaced.
pub open spec fn with_children(l: Links, first_last_child: Option<(Index, Index)>) -> Links {
    Links { parent: l.parent, prev: l.prev, next: l.next, first_last_child }
}

/// A node of a [`Forest`]: a value and its relations.
pub struct Node<T> {
    value: T,
    index: Index,
    parent: Option<Index>,
    prev: Option<Index>,
    next: Option<Index>,
    first_last_child: Option<(Index, Index)>,
}

impl<T> Node<T> {
    /// The relations of the node.
    pub closed spec fn links(&self) -> Links {
        Links {
            parent: self.parent,
            prev: self.prev,
            next: self.next,
            first_last_child: self.first_last_child,
        }
    }

    /// The index of the node.
    pub closed spec fn key(&self) -> Index {
        self.index
    }

    /// The value of the node.
    pub closed spec fn val(&self) -> T {
        self.value
    }

    /// Returns the index of the node.
    pub fn index(self_: &Self) -> (r: Index)
        ensures
            r == self_.key(),
    {
        self_.index
    }

    /// Returns the parent of the node.
    pub fn parent(self_: &Self) -> (r: Option<Index>)
        ensures
            r == self_.links().parent,
    {
        self_.parent
    }

    /// Returns the previous sibling of the node.
    pub fn prev_sibling(self_: &Self) -> (r: Option<Index>)
        ensures
            r == self_.links().prev,
    {
        self_.prev
    }

    /// Returns the next sibling of the node.
    pub fn next_sibling(self_: &Self) -> (r: Option<Index>)
        ensures
            r == self_.links().next,
    {
        self_.next
    }

    /// Returns the first child of the node.
    pub fn first_child(self_: &Self) -> (r: Option<Index>)
        ensures
            r == first_child_of(self_.links()),
    {
        match self_.first_last_child {
            Some((first, _)) => Some(first),
            None => None,
        }
    }

    /// Returns the last child of the node.
    pub fn last_child(self_: &Self) -> (r: Option<Index>)
        ensures
            r == last_child_of(self_.links()),
    {
        match self_.first_last_child {
            Some((_, last)) => Some(last),
            None => None,
        }
    }

    /// Returns the value of the node.
    pub fn value(&self) -> (r: &T)
        ensures
            *r == self.val(),
    {
        &self.value
    }
}

/// The first child of a node, if it has children.
pub open spec fn first_child_of(l: Links) -> Option<Index> {
    match l.first_last_child {
        Some((first, _)) => Some(first),
        None => None,
    }
}

/// The last child of a node, if it has children.
pub open spec fn last_child_of(l: Links) -> Option<Index> {
    match l.first_last_child {
        Some((_, last)) => Some(last),
        None => None,
    }
}


/// Whether a step of a traversal marks the start or the end of a node.
#[derive(Debug, Clone, Copy, PartialEq, Eq, Hash, Structural)]
pub enum Edge {
    /// The start of a node: like pushing the node onto a stack.
    Start(Index),
    /// The end of a node: like popping the node off a stack.
    End(Index),
}

/// The edge that a pre-order traversal of the tree under `root` yields after `e`.
///
/// After the start of a node comes the start of its first child, or its own end if it has no
/// child. After the end of a node other than the root comes the start of its next sibling, or
/// else the end of its parent; the end of the root, or of a node without parent, ends the walk.
pub open spec fn step(g: Map<Index, Links>, root: Index, e: Edge) -> Option<Edge> {
    match e {
        Edge::Start(i) => match first_child_of(g[i]) {
            Some(c) => Some(Edge::Start(c)),
            None => Some(Edge::End(i)),
        },
        Edge::End(i) => if i == root {
            None
        } else {
            match g[i].next {
                Some(n) => Some(Edge::Start(n)),
                None => match g[i].parent {
                    Some(p) => Some(Edge::End(p)),
                    None => None,
                },
            }
        },
    }
}

/// Taking a step after `e` looks up only nodes that are present.
pub open spec fn step_ok(g: Map<Index, Links>, root: Index, e: Option<Edge>) -> bool {
    match e {
        Some(Edge::Start(i)) => g.contains_key(i),
        Some(Edge::End(i)) => i == root || g.contains_key(i),
        None => true,
    }
}

/// The pending edge of a traversal after one more step.
pub open spec fn advance(g: Map<Index, Links>, root: Index, e: Option<Edge>) -> Option<Edge> {
    match e {
        Some(e) => step(g, root, e),
        None => None,
    }
}

/// The pending edge of a traversal that started with `first`, after `n` steps.
pub open spec fn nth_edge(g: Map<Index, Links>, root: Index, first: Option<Edge>, n: nat) -> Option<
    Edge,
>
    decreases n,
{
    if n == 0 {
        first
    } else {
        advance(g, root, nth_edge(g, root, first, (n - 1) as nat))
    }
}

/// Once a traversal has ended it stays ended.
pub proof fn lemma_ended_stays_ended(
    g: Map<Index, Links>,
    root: Index,
    first: Option<Edge>,
    k: nat,
    j: nat,
)
    requires
        k <= j,
        nth_edge(g, root, first, k) is None,
    ensures
        nth_edge(g, root, first, j) is None,
    decreases j - k,
{
    if k < j {
        lemma_ended_stays_ended(g, root, first, k, (j - 1) as nat);
    }
}

/// A pre-order traversal from `root` yields the start of `target`.
pub open spec fn visits(g: Map<Index, Links>, root: Index, target: Index) -> bool {
    exists|k: nat| #[trigger]
        nth_edge(g, root, Some(Edge::Start(root)), k) == Some(Edge::Start(target))
}

/// Within `n` steps the traversal from `root` has ended or reached the start of `target`, and
/// every step on the way looks up present nodes only.
pub open spec fn search_bound(g: Map<Index, Links>, root: Index, target: Index, n: nat) -> bool {
    let first = Some(Edge::Start(root));
    &&& (nth_edge(g, root, first, n) is None || nth_edge(g, root, first, n) == Some(
        Edge::Start(target),
    ))
    &&& forall|k: nat| k <= n ==> step_ok(g, root, #[trigger] nth_edge(g, root, first, k))
}

/// The search for `target` in the tree under `root` comes to an end.
pub open spec fn search_ends(g: Map<Index, Links>, root: Index, target: Index) -> bool {
    exists|n: nat| #[trigger] search_bound(g, root, target, n)
}

/// The node `k` parents above `i`, following parent relations while the nodes are present:
/// `i` itself for `k == 0`, none once the chain ends.
pub open spec fn ancestor_at(g: Map<Index, Links>, i: Index, k: nat) -> Option<Index>
    decreases k,
{
    if k == 0 {
        Some(i)
    } else {
        match ancestor_at(g, i, (k - 1) as nat) {
            Some(j) => if g.contains_key(j) {
                g[j].parent
            } else {
                None
            },
            None => None,
        }
    }
}

/// `a` is an ancestor of `i`: its parent, its parent's parent, and so on.
pub open spec fn is_ancestor(g: Map<Index, Links>, a: Index, i: Index) -> bool {
    exists|k: nat| k >= 1 && #[trigger] ancestor_at(g, i, k) == Some(a)
}

/// Within `n` steps up from `i` the chain of parents has ended or met `a`.
pub open spec fn climb_bound(g: Map<Index, Links>, i: Index, a: Index, n: nat) -> bool {
    n >= 1 && (ancestor_at(g, i, n) is None || ancestor_at(g, i, n) == Some(a))
}

/// The climb from `i` through its parents ends or meets `a`.
pub open spec fn climb_ends(g: Map<Index, Links>, i: Index, a: Index) -> bool {
    exists|n: nat| #[trigger] climb_bound(g, i, a, n)
}

/// Once the chain of parents has ended it stays ended.
pub proof fn lemma_climb_stays_ended(g: Map<Index, Links>, i: Index, k: nat, j: nat)
    requires
        k <= j,
        ancestor_at(g, i, k) is None,
    ensures
        ancestor_at(g, i, j) is None,
    decreases j - k,
{
    if k < j {
        lemma_climb_stays_ended(g, i, k, (j - 1) as nat);
    }
}

/// Making `child` a child of `index` would make the forest cyclic, as the check of
/// [`Forest::add_child`] finds: the two are the same node, or `child` has relations and is an
/// ancestor of `index` or is found in the tree under `index`.
pub open spec fn makes_cycle(g: Map<Index, Links>, index: Index, child: Index) -> bool {
    ||| index == child
    ||| !isolated(g[child]) && (g[index].parent == Some(child) || visits(g, index, child)
        || is_ancestor(g, child, index))
}

/// The relations after `child` is appended to the children of `index`.
pub open spec fn attach(g: Map<Index, Links>, index: Index, child: Index) -> Map<Index, Links> {
    match g[index].first_last_child {
        Some((first, last)) => {
            let g1 = g.insert(index, with_children(g[index], Some((first, child))));
            let g2 = g1.insert(last, with_next(g1[last], Some(child)));
            g2.insert(child, with_prev(with_parent(g2[child], Some(index)), Some(last)))
        },
        None => {
            let g1 = g.insert(index, with_children(g[index], Some((child, child))));
            g1.insert(child, with_parent(g1[child], Some(index)))
        },
    }
}

/// The nodes that [`Forest::add_child`] looks up are present.
pub open spec fn attach_ok(g: Map<Index, Links>, index: Index) -> bool {
    g[index].first_last_child matches Some((_, last)) ==> g.contains_key(last)
}

/// The relations after `index` is detached from its parent and siblings: the node has no
/// parent and no siblings any more, its previous and next siblings are linked to each other,
/// and if it was the first or last child of its parent, its neighbour takes that place (the
/// parent has no children left if it was the only one). Its children stay.
pub open spec fn detached(g: Map<Index, Links>, index: Index) -> Map<Index, Links> {
    let l = g[index];
    let g1 = g.insert(
        index,
        Links { parent: None, prev: None, next: None, first_last_child: l.first_last_child },
    );
    let g2 = match l.prev {
        Some(pr) => if g1.contains_key(pr) {
            g1.insert(pr, with_next(g1[pr], l.next))
        } else {
            g1
        },
        None => g1,
    };
    let g3 = match l.next {
        Some(n) => if g2.contains_key(n) {
            g2.insert(n, with_prev(g2[n], l.prev))
        } else {
            g2
        },
        None => g2,
    };
    match l.parent {
        Some(p) => match (l.prev, l.next) {
            (None, None) => g3.insert(p, with_children(g3[p], None)),
            (None, Some(n)) => g3.insert(
                p,
                with_children(g3[p], Some((n, g3[p].first_last_child.unwrap().1))),
            ),
            (Some(pr), None) => g3.insert(
                p,
                with_children(g3[p], Some((g3[p].first_last_child.unwrap().0, pr))),
            ),
            (Some(_), Some(_)) => g3,
        },
        None => g3,
    }
}

/// The nodes that [`Forest::detach`] looks up are present: the parent of a node that has a
/// parent and lacks a sibling on some side, and the children of that parent where the node has
/// exactly one sibling neighbour.
pub open spec fn detach_ok(g: Map<Index, Links>, index: Index) -> bool {
    let l = g[index];
    match l.parent {
        None => true,
        Some(p) => match (l.prev, l.next) {
            (None, None) => g.contains_key(p),
            (Some(_), Some(_)) => true,
            _ => g.contains_key(p) && g[p].first_last_child is Some,
        },
    }
}

/// Within `n` steps the walk from `root` has ended, and every step on the way looks up present
/// nodes only.
pub open spec fn walk_bound(g: Map<Index, Links>, root: Index, n: nat) -> bool {
    let first = Some(Edge::Start(root));
    &&& nth_edge(g, root, first, n) is None
    &&& forall|k: nat| k <= n ==> step_ok(g, root, #[trigger] nth_edge(g, root, first, k))
}

/// The walk over the tree under `root` comes to an end.
pub open spec fn walk_ends(g: Map<Index, Links>, root: Index) -> bool {
    exists|n: nat| #[trigger] walk_bound(g, root, n)
}

/// The nodes the first `k` edges of a walk start, in order.
pub open spec fn started_nodes(g: Map<Index, Links>, root: Index, first: Option<Edge>, k: nat) -> Seq<
    Index,
>
    decreases k,
{
    if k == 0 {
        Seq::empty()
    } else {
        let s = started_nodes(g, root, first, (k - 1) as nat);
        match nth_edge(g, root, first, (k - 1) as nat) {
            Some(Edge::Start(i)) => s.push(i),
            _ => s,
        }
    }
}

/// Once a walk has ended it starts no more nodes.
pub proof fn lemma_started_after_end(
    g: Map<Index, Links>,
    root: Index,
    first: Option<Edge>,
    k: nat,
    j: nat,
)
    requires
        k <= j,
        nth_edge(g, root, first, k) is None,
    ensures
        started_nodes(g, root, first, j) == started_nodes(g, root, first, k),
    decreases j - k,
{
    if k < j {
        lemma_started_after_end(g, root, first, k, (j - 1) as nat);
        lemma_ended_stays_ended(g, root, first, k, (j - 1) as nat);
    }
}

/// A forest of nodes holding values of type `T`.
pub struct Forest<T> {
    keys: KeySlots,
    nodes: HashMap<u64, Node<T>>,
}

impl<T> View for Forest<T> {
    type V = Map<Index, Links>;

    closed spec fn view(&self) -> Map<Index, Links> {
        Map::new(|i: Index| self.nodes@.contains_key(i.key), |i: Index| self.nodes@[i.key].links())
    }
}

impl<T> Forest<T> {
    /// The values of the nodes.
    pub closed spec fn values(&self) -> Map<Index, T> {
        Map::new(|i: Index| self.nodes@.contains_key(i.key), |i: Index| self.nodes@[i.key].val())
    }

    /// The forest is well formed: its keys are those of its nodes and each node knows its index.
    pub closed spec fn wf(&self) -> bool {
        &&& slot_keys(self.keys) == self.nodes@.dom()
        &&& self.nodes@.dom().finite()
        &&& forall|k: u64| #[trigger] self.nodes@.contains_key(k) ==> self.nodes@[k].index.key == k
    }

    proof fn lemma_view_len(&self)
        requires
            self.nodes@.dom().finite(),
        ensures
            self@.dom().finite(),
            self@.dom().len() == self.nodes@.dom().len(),
    {
        let f = |k: u64| Index { key: k };
        assert(self.nodes@.dom().map(f) =~= self@.dom()) by {
            assert forall|i: Index| self@.dom().contains(i) implies self.nodes@.dom().map(f).contains(
                i,
            ) by {
                assert(f(i.key) == i);
            }
        }
        vstd::set_lib::lemma_map_size(self.nodes@.dom(), self@.dom(), f);
    }

    /// Creates an empty forest.
    pub fn new() -> (f: Self)
        ensures
            f.wf(),
            f@ == Map::<Index, Links>::empty(),
            f.values() == Map::<Index, T>::empty(),
    {
        let f = Forest { keys: slots_new(), nodes: HashMap::new() };
        assert(f@ =~= Map::<Index, Links>::empty());
        assert(f.values() =~= Map::<Index, T>::empty());
        f
    }

    /// Inserts a value into the forest, returning the index of the value.
    ///
    /// The value when inserted does not have any child or parent nodes.
    pub fn insert(&mut self, value: T) -> (index: Index)
        requires
            old(self).wf(),
            old(self)@.len() < 0xffff_fffe,
        ensures
            final(self).wf(),
            !old(self)@.contains_key(index),
            final(self)@ == old(self)@.insert(index, no_links()),
            final(self).values() == old(self).values().insert(index, value),
    {
        proof {
            self.lemma_view_len();
        }
        let key = slots_insert(&mut self.keys);
        let index = Index { key };
        let ghost g0 = self@;
        let ghost v0 = self.values();
        assert(g0 =~= old(self)@);
        assert(v0 =~= old(self).values());
        self.nodes.insert(
            key,
            Node { value, index, parent: None, prev: None, next: None, first_last_child: None },
        );
        assert(self@ =~= g0.insert(index, no_links()));
        assert(self.values() =~= v0.insert(index, value));
        index
    }

    /// Inserts the value that `f` makes from the index of the new node, returning that index.
    pub fn insert_with<F>(&mut self, f: F) -> (index: Index)
        where
            F: FnOnce(Index) -> T,
        requires
            old(self).wf(),
            old(self)@.len() < 0xffff_fffe,
            forall|i: Index| f.requires((i,)),
        ensures
            final(self).wf(),
            !old(self)@.contains_key(index),
            final(self)@ == old(self)@.insert(index, no_links()),
            final(self).values().dom() == old(self).values().dom().insert(index),
            f.ensures((index,), final(self).values()[index]),
            forall|i: Index| #[trigger] old(self).values().contains_key(i) ==> final(self).values()[i] == old(self).values()[i],
    {
        proof {
            self.lemma_view_len();
        }
        let key = slots_insert(&mut self.keys);
        let index = Index { key };
        let value = f(index);
        let ghost g0 = self@;
        let ghost v0 = self.values();
        assert(g0 =~= old(self)@);
        assert(v0 =~= old(self).values());
        self.nodes.insert(
            key,
            Node { value, index, parent: None, prev: None, next: None, first_last_child: None },
        );
        assert(self@ =~= g0.insert(index, no_links()));
        assert(self.values() =~= v0.insert(index, value));
        index
    }

    /// Returns the node at the index, or [`None`] if the index is not present.
    pub fn get(&self, index: Index) -> (r: Option<&Node<T>>)
        requires
            self.wf(),
        ensures
            r.is_some() == self@.contains_key(index),
            r matches Some(n) ==> n.links() == self@[index] && n.key() == index && n.val()
                == self.values()[index],
    {
        self.nodes.get(&index.key)
    }

    /// Returns the relations of a node that is present.
    fn links_at(&self, index: Index) -> (l: Links)
        requires
            self.wf(),
            self@.contains_key(index),
        ensures
            l == self@[index],
    {
        let node = self.nodes.get(&index.key).unwrap();
        Links {
            parent: node.parent,
            prev: node.prev,
            next: node.next,
            first_last_child: node.first_last_child,
        }
    }

    /// Replaces the relations of a node that is present.
    fn set_links(&mut self, index: Index, l: Links)
        requires
            old(self).wf(),
            old(self)@.contains_key(index),
        ensures
            final(self).wf(),
            final(self)@ == old(self)@.insert(index, l),
            final(self).values() == old(self).values(),
    {
        let ghost g0 = self@;
        let ghost v0 = self.values();
        let node = self.nodes.remove(&index.key).unwrap();
        let Node { value, index: own, .. } = node;
        self.nodes.insert(
            index.key,
            Node {
                value,
                index: own,
                parent: l.parent,
                prev: l.prev,
                next: l.next,
                first_last_child: l.first_last_child,
            },
        );
        assert(self.nodes@.dom() =~= old(self).nodes@.dom());
        assert(self@ =~= g0.insert(index, l));
        assert(self.values() =~= v0);
    }

    /// Returns [`Error::NotPresent`] if the index is not present.
    fn is_present(&self, index: Index) -> (r: Result<(), Error>)
        requires
            self.wf(),
        ensures
            r == (if self@.contains_key(index) {
                Ok::<(), Error>(())
            } else {
                Err(Error::NotPresent(index))
            }),
    {
        if !self.contains_index(index) {
            return Err(Error::NotPresent(index));
        }
        Ok(())
    }

    /// Detaches the node from its parent and siblings.
    ///
    /// The children of the node are not detached.
    pub fn detach(&mut self, index: Index) -> (r: Result<(), Error>)
        requires
            old(self).wf(),
            old(self)@.contains_key(index) ==> detach_ok(old(self)@, index),
        ensures
            final(self).wf(),
            final(self).values() == old(self).values(),
            old(self)@.contains_key(index) ==> r == Ok::<(), Error>(()) && final(self)@ == detached(
                old(self)@,
                index,
            ),
            !old(self)@.contains_key(index) ==> r == Err::<(), Error>(Error::NotPresent(index))
                && final(self)@ == old(self)@,
    {
        self.is_present(index)?;
        let l = self.links_at(index);
        self.set_links(
            index,
            Links { parent: None, prev: None, next: None, first_last_child: l.first_last_child },
        );
        // Link the previous and next siblings to each other.
        if let Some(prev) = l.prev {
            if self.contains_index(prev) {
                let pl = self.links_at(prev);
                self.set_links(
                    prev,
                    Links {
                        parent: pl.parent,
                        prev: pl.prev,
                        next: l.next,
                        first_last_child: pl.first_last_child,
                    },
                );
            }
        }
        if let Some(next) = l.next {
            if self.contains_index(next) {
                let nl = self.links_at(next);
                self.set_links(
                    next,
                    Links {
                        parent: nl.parent,
                        prev: l.prev,
                        next: nl.next,
                        first_last_child: nl.first_last_child,
                    },
                );
            }
        }
        // Let a neighbour take the node's place as first or last child of its parent.
        if let Some(parent) = l.parent {
            match (l.prev, l.next) {
                (None, None) => {
                    let pl = self.links_at(parent);
                    self.set_links(
                        parent,
                        Links { parent: pl.parent, prev: pl.prev, next: pl.next, first_last_child: None },
                    );
                },
                (None, Some(next)) => {
                    let pl = self.links_at(parent);
                    let last_child = pl.first_last_child.unwrap().1;
                    self.set_links(
                        parent,
                        Links {
                            parent: pl.parent,
                            prev: pl.prev,
                            next: pl.next,
                            first_last_child: Some((next, last_child)),
                        },
                    );
                },
                (Some(prev), None) => {
                    let pl = self.links_at(parent);
                    let first_child = pl.first_last_child.unwrap().0;
                    self.set_links(
                        parent,
                        Links {
                            parent: pl.parent,
                            prev: pl.prev,
                            next: pl.next,
                            first_last_child: Some((first_child, prev)),
                        },
                    );
                },
                (Some(_), Some(_)) => {},
            }
        }
        Ok(())
    }

    /// Removes the index from the forest, returning the value stored with the index.
    ///
    /// The node is detached first; its children keep it as their parent.
    pub fn remove(&mut self, index: Index) -> (r: Result<T, Error>)
        requires
            old(self).wf(),
            old(self)@.contains_key(index) ==> detach_ok(old(self)@, index),
        ensures
            final(self).wf(),
            old(self)@.contains_key(index) ==> r == Ok::<T, Error>(old(self).values()[index])
                && final(self)@ == detached(old(self)@, index).remove(index) && final(self).values()
                == old(self).values().remove(index),
            !old(self)@.contains_key(index) ==> r == Err::<T, Error>(Error::NotPresent(index))
                && final(self)@ == old(self)@ && final(self).values() == old(self).values(),
    {
        match self.detach(index) {
            Ok(()) => {},
            Err(e) => {
                return Err(e);
            },
        }
        let ghost g1 = self@;
        let ghost v1 = self.values();
        assert(g1.contains_key(index));
        assert(self.nodes@.contains_key(index.key));
        let node = self.nodes.remove(&index.key).unwrap();
        slots_remove(&mut self.keys, index.key);
        assert(self@ =~= g1.remove(index));
        assert(self.values() =~= v1.remove(index));
        Ok(node.value)
    }

    /// Replaces the value of a node that is present, returning the old value; returns [`None`]
    /// and changes nothing if the index is not present.
    ///
    /// This is how a node's value is changed in place.
    pub fn replace(&mut self, index: Index, value: T) -> (r: Option<T>)
        requires
            old(self).wf(),
        ensures
            final(self).wf(),
            final(self)@ == old(self)@,
            old(self)@.contains_key(index) ==> r == Some(old(self).values()[index])
                && final(self).values() == old(self).values().insert(index, value),
            !old(self)@.contains_key(index) ==> r is None && final(self).values() == old(self).values(),
    {
        if !self.contains_index(index) {
            return None;
        }
        let ghost g0 = self@;
        let ghost v0 = self.values();
        let node = self.nodes.remove(&index.key).unwrap();
        let Node { value: old_value, index: own, parent, prev, next, first_last_child } = node;
        self.nodes.insert(index.key, Node { value, index: own, parent, prev, next, first_last_child });
        assert(self.nodes@.dom() =~= old(self).nodes@.dom());
        assert(self@ =~= g0);
        assert(self.values() =~= v0.insert(index, value));
        Some(old_value)
    }

    /// Returns true if the index is present in the forest.
    pub fn contains_index(&self, index: Index) -> (r: bool)
        requires
            self.wf(),
        ensures
            r == self@.contains_key(index),
    {
        self.nodes.contains_key(&index.key)
    }
}

/// A pre-order depth first walk over the nodes of a [`Forest`], yielding [`Edge`]s.
#[derive(Clone)]
pub struct PreorderTraverse<'f, T> {
    forest: &'f Forest<T>,
    root: Index,
    next: Option<Edge>,
}

impl<'f, T> PreorderTraverse<'f, T> {
    /// The relations of the forest being walked.
    pub closed spec fn graph(&self) -> Map<Index, Links> {
        self.forest@
    }

    /// The node the walk started at.
    pub closed spec fn root(&self) -> Index {
        self.root
    }

    /// The edge the walk yields next, if any.
    pub closed spec fn pending(&self) -> Option<Edge> {
        self.next
    }

    /// The forest being walked is well formed.
    pub closed spec fn wf(&self) -> bool {
        self.forest.wf()
    }

    fn next_node(&self, next: Edge) -> (r: Option<Edge>)
        requires
            self.wf(),
            step_ok(self.graph(), self.root(), Some(next)),
        ensures
            r == step(self.graph(), self.root(), next),
    {
        match next {
            Edge::Start(index) => {
                match Node::first_child(self.forest.get(index).unwrap()) {
                    Some(first_child) => Some(Edge::Start(first_child)),
                    None => Some(Edge::End(index)),
                }
            },
            Edge::End(index) => {
                if index == self.root {
                    return None;
                }
                let node = self.forest.get(index).unwrap();
                match Node::next_sibling(node) {
                    Some(next_sibling) => Some(Edge::Start(next_sibling)),
                    None => match Node::parent(node) {
                        Some(parent) => Some(Edge::End(parent)),
                        None => None,
                    },
                }
            },
        }
    }

    /// Returns the pending edge and moves one step on.
    pub fn next(&mut self) -> (r: Option<Edge>)
        requires
            old(self).wf(),
            step_ok(old(self).graph(), old(self).root(), old(self).pending()),
        ensures
            final(self).wf(),
            final(self).graph() == old(self).graph(),
            final(self).root() == old(self).root(),
            r == old(self).pending(),
            final(self).pending() == advance(old(self).graph(), old(self).root(), old(self).pending()),
    {
        let next = match self.next {
            Some(e) => e,
            None => {
                return None;
            },
        };
        self.next = self.next_node(next);
        Some(next)
    }
}

/// The edge is the start of a node, or the walk is over.
pub open spec fn settled(e: Option<Edge>) -> bool {
    !(e matches Some(Edge::End(_)))
}

/// The node whose start the edge is, if it is one.
pub open spec fn started(e: Option<Edge>) -> Option<Index> {
    match e {
        Some(Edge::Start(i)) => Some(i),
        _ => None,
    }
}

/// Within `n` steps from `first` the walk reaches the start of a node or its end, and every step
/// on the way looks up present nodes only.
pub open spec fn settle_bound(g: Map<Index, Links>, root: Index, first: Option<Edge>, n: nat) -> bool {
    &&& settled(nth_edge(g, root, first, n))
    &&& forall|k: nat| k <= n ==> step_ok(g, root, #[trigger] nth_edge(g, root, first, k))
}

/// The walk from `first` comes to the start of a node or to its end.
pub open spec fn settles(g: Map<Index, Links>, root: Index, first: Option<Edge>) -> bool {
    exists|n: nat| #[trigger] settle_bound(g, root, first, n)
}

/// The `m`-th edge of the walk from `first` is the first that is settled.
pub open spec fn first_settled(g: Map<Index, Links>, root: Index, first: Option<Edge>, m: nat) -> bool {
    &&& settled(nth_edge(g, root, first, m))
    &&& forall|k: nat| k < m ==> !settled(#[trigger] nth_edge(g, root, first, k))
}

/// A descent from `first` yields `r` and leaves `after` pending: `r` is the node of the first
/// start on the walk, or none if the walk ends first.
pub open spec fn descends(
    g: Map<Index, Links>,
    root: Index,
    first: Option<Edge>,
    r: Option<Index>,
    after: Option<Edge>,
) -> bool {
    exists|m: nat| #[trigger]
        first_settled(g, root, first, m) && r == started(nth_edge(g, root, first, m)) && after
            == nth_edge(g, root, first, m + 1)
}

/// A pre-order depth first walk that yields the index of each node it enters.
#[derive(Clone)]
pub struct DfsDescend<'f, T>(PreorderTraverse<'f, T>);

impl<'f, T> DfsDescend<'f, T> {
    /// The walk of edges beneath.
    pub closed spec fn edges(&self) -> PreorderTraverse<'f, T> {
        self.0
    }

    /// Returns the next node the walk enters, skipping the ends of nodes.
    pub fn next(&mut self) -> (r: Option<Index>)
        requires
            old(self).edges().wf(),
            settles(old(self).edges().graph(), old(self).edges().root(), old(self).edges().pending()),
        ensures
            final(self).edges().wf(),
            final(self).edges().graph() == old(self).edges().graph(),
            final(self).edges().root() == old(self).edges().root(),
            descends(
                old(self).edges().graph(),
                old(self).edges().root(),
                old(self).edges().pending(),
                r,
                final(self).edges().pending(),
            ),
    {
        let ghost g = self.0.graph();
        let ghost root = self.0.root();
        let ghost first = self.0.pending();
        let ghost n = choose|n: nat| settle_bound(g, root, first, n);
        let ghost mut k: nat = 0;
        loop
            invariant
                self.0.wf(),
                g == old(self).edges().graph(),
                root == old(self).edges().root(),
                first == old(self).edges().pending(),
                self.0.graph() == g,
                self.0.root() == root,
                self.0.pending() == nth_edge(g, root, first, k),
                settle_bound(g, root, first, n),
                k <= n,
                forall|j: nat| j < k ==> !settled(#[trigger] nth_edge(g, root, first, j)),
            decreases n - k,
        {
            let e = self.0.next();
            proof {
                assert(nth_edge(g, root, first, k + 1) == advance(g, root, nth_edge(g, root, first, k)));
            }
            match e {
                Some(Edge::Start(index)) => {
                    assert(first_settled(g, root, first, k));
                    assert(descends(g, root, first, Some(index), self.0.pending()));
                    return Some(index);
                },
                None => {
                    assert(first_settled(g, root, first, k));
                    assert(descends(g, root, first, None, self.0.pending()));
                    return None;
                },
                Some(Edge::End(_)) => {},
            }
            proof {
                k = k + 1;
            }
        }
    }
}

/// A walk over a node and its previous siblings, nearest first.
#[derive(Clone)]
pub struct PreviousSiblings<'f, T> {
    forest: &'f Forest<T>,
    next: Option<Index>,
}

impl<'f, T> PreviousSiblings<'f, T> {
    /// The relations of the forest being walked.
    pub closed spec fn graph(&self) -> Map<Index, Links> {
        self.forest@
    }

    /// The index the walk yields next, if any.
    pub closed spec fn pending(&self) -> Option<Index> {
        self.next
    }

    /// The forest being walked is well formed.
    pub closed spec fn wf(&self) -> bool {
        self.forest.wf()
    }

    /// Returns the pending index and moves to its previous sibling.
    pub fn next(&mut self) -> (r: Option<Index>)
        requires
            old(self).wf(),
            old(self).pending() matches Some(i) ==> old(self).graph().contains_key(i),
        ensures
            final(self).wf(),
            final(self).graph() == old(self).graph(),
            r == old(self).pending(),
            final(self).pending() == (match old(self).pending() {
                Some(i) => old(self).graph()[i].prev,
                None => None,
            }),
    {
        let next = match self.next {
            Some(i) => i,
            None => {
                return None;
            },
        };
        let node = self.forest.get(next).unwrap();
        self.next = Node::prev_sibling(node);
        Some(next)
    }
}

/// A walk over a node and its next siblings, nearest first.
#[derive(Clone)]
pub struct NextSiblings<'f, T> {
    forest: &'f Forest<T>,
    next: Option<Index>,
}

impl<'f, T> NextSiblings<'f, T> {
    /// The relations of the forest being walked.
    pub closed spec fn graph(&self) -> Map<Index, Links> {
        self.forest@
    }

    /// The index the walk yields next, if any.
    pub closed spec fn pending(&self) -> Option<Index> {
        self.next
    }

    /// The forest being walked is well formed.
    pub closed spec fn wf(&self) -> bool {
        self.forest.wf()
    }

    /// Returns the pending index and moves to its next sibling.
    pub fn next(&mut self) -> (r: Option<Index>)
        requires
            old(self).wf(),
            old(self).pending() matches Some(i) ==> old(self).graph().contains_key(i),
        ensures
            final(self).wf(),
            final(self).graph() == old(self).graph(),
            r == old(self).pending(),
            final(self).pending() == (match old(self).pending() {
                Some(i) => old(self).graph()[i].next,
                None => None,
            }),
    {
        let next = match self.next {
            Some(i) => i,
            None => {
                return None;
            },
        };
        let node = self.forest.get(next).unwrap();
        self.next = Node::next_sibling(node);
        Some(next)
    }
}

/// A walk over the children of a node, first to last.
#[derive(Clone)]
pub struct Children<'f, T> {
    forest: &'f Forest<T>,
    next: Option<Index>,
    last: Option<Index>,
}

impl<'f, T> Children<'f, T> {
    /// The relations of the forest being walked.
    pub closed spec fn graph(&self) -> Map<Index, Links> {
        self.forest@
    }

    /// The index the walk yields next, if any.
    pub closed spec fn pending(&self) -> Option<Index> {
        self.next
    }

    /// The child after which the walk stops.
    pub closed spec fn last(&self) -> Option<Index> {
        self.last
    }

    /// The forest being walked is well formed.
    pub closed spec fn wf(&self) -> bool {
        self.forest.wf()
    }

    /// Returns the pending child and moves to its next sibling, unless it is the last child.
    pub fn next(&mut self) -> (r: Option<Index>)
        requires
            old(self).wf(),
            match old(self).pending() {
                Some(i) => old(self).last() != Some(i) ==> old(self).graph().contains_key(i),
                None => true,
            },
        ensures
            final(self).wf(),
            final(self).graph() == old(self).graph(),
            final(self).last() == old(self).last(),
            r == old(self).pending(),
            final(self).pending() == (match old(self).pending() {
                Some(i) => if old(self).last() == Some(i) {
                    None
                } else {
                    old(self).graph()[i].next
                },
                None => None,
            }),
    {
        let next = match self.next {
            Some(i) => i,
            None => {
                return None;
            },
        };
        self.next = None;
        let is_last = match self.last {
            Some(last) => last == next,
            None => false,
        };
        if !is_last {
            self.next = Node::next_sibling(self.forest.get(next).unwrap());
        }
        Some(next)
    }
}

impl<T> Forest<T> {
    /// Returns a pre-order walk over the tree under `index`, or [`None`] if the index is not
    /// present.
    pub fn preorder_traverse(&self, index: Index) -> (r: Option<PreorderTraverse<'_, T>>)
        requires
            self.wf(),
        ensures
            r.is_some() == self@.contains_key(index),
            r matches Some(it) ==> it.wf() && it.graph() == self@ && it.root() == index
                && it.pending() == Some(Edge::Start(index)),
    {
        if !self.contains_index(index) {
            return None;
        }
        Some(PreorderTraverse { forest: self, root: index, next: Some(Edge::Start(index)) })
    }

    /// Returns a walk over the indices of the tree under `index`, or [`None`] if the index is
    /// not present.
    pub fn dfs_descend(&self, index: Index) -> (r: Option<DfsDescend<'_, T>>)
        requires
            self.wf(),
        ensures
            r.is_some() == self@.contains_key(index),
            r matches Some(it) ==> it.edges().wf() && it.edges().graph() == self@
                && it.edges().root() == index && it.edges().pending() == Some(Edge::Start(index)),
    {
        match self.preorder_traverse(index) {
            Some(it) => Some(DfsDescend(it)),
            None => None,
        }
    }

    /// Returns a walk over the node and its previous siblings, or [`None`] if the index is not
    /// present.
    pub fn previous_siblings(&self, index: Index) -> (r: Option<PreviousSiblings<'_, T>>)
        requires
            self.wf(),
        ensures
            r.is_some() == self@.contains_key(index),
            r matches Some(it) ==> it.wf() && it.graph() == self@ && it.pending() == Some(index),
    {
        if !self.contains_index(index) {
            return None;
        }
        Some(PreviousSiblings { forest: self, next: Some(index) })
    }

    /// Returns a walk over the node and its next siblings, or [`None`] if the index is not
    /// present.
    pub fn next_siblings(&self, index: Index) -> (r: Option<NextSiblings<'_, T>>)
        requires
            self.wf(),
        ensures
            r.is_some() == self@.contains_key(index),
            r matches Some(it) ==> it.wf() && it.graph() == self@ && it.pending() == Some(index),
    {
        if !self.contains_index(index) {
            return None;
        }
        Some(NextSiblings { forest: self, next: Some(index) })
    }

    /// Returns a walk over the children of the node; it yields nothing if the index is not
    /// present.
    pub fn children(&self, index: Index) -> (r: Children<'_, T>)
        requires
            self.wf(),
        ensures
            r.wf(),
            r.graph() == self@,
            r.pending() == (if self@.contains_key(index) {
                first_child_of(self@[index])
            } else {
                None
            }),
            r.last() == (if self@.contains_key(index) {
                last_child_of(self@[index])
            } else {
                None
            }),
    {
        match self.get(index) {
            Some(node) => Children {
                forest: self,
                next: Node::first_child(node),
                last: Node::last_child(node),
            },
            None => Children { forest: self, next: None, last: None },
        }
    }

    /// Returns true if the walk over the tree under `root` ends within `fuel` steps, looking up
    /// present nodes only; a caller establishes the walks [`Forest::add_child`] needs this way.
    pub fn walk_ends_within(&self, root: Index, fuel: u64) -> (r: bool)
        requires
            self.wf(),
        ensures
            r ==> walk_ends(self@, root),
    {
        let ghost g = self@;
        let ghost first = Some(Edge::Start(root));
        let mut iter = PreorderTraverse { forest: self, root, next: Some(Edge::Start(root)) };
        let mut k: u64 = 0;
        while k < fuel
            invariant
                self.wf(),
                g == self@,
                first == Some(Edge::Start(root)),
                iter.wf(),
                iter.graph() == g,
                iter.root() == root,
                iter.pending() == nth_edge(g, root, first, k as nat),
                forall|j: nat| j < k ==> step_ok(g, root, #[trigger] nth_edge(g, root, first, j)),
            decreases fuel - k,
        {
            let ok = match iter.next {
                None => {
                    assert(walk_bound(g, root, k as nat));
                    return true;
                },
                Some(Edge::Start(i)) => self.contains_index(i),
                Some(Edge::End(i)) => i == root || self.contains_index(i),
            };
            if !ok {
                return false;
            }
            let _ = iter.next();
            proof {
                assert(nth_edge(g, root, first, (k + 1) as nat) == advance(
                    g,
                    root,
                    nth_edge(g, root, first, k as nat),
                ));
            }
            k += 1;
        }
        false
    }

    /// Returns true if the climb from `i` through its parents ends or meets `a` within `fuel`
    /// steps; a caller establishes the climb [`Forest::add_child`] needs this way.
    pub fn climb_ends_within(&self, i: Index, a: Index, fuel: u64) -> (r: bool)
        requires
            self.wf(),
        ensures
            r ==> climb_ends(self@, i, a),
    {
        let ghost g = self@;
        let mut cur: Option<Index> = if self.contains_index(i) {
            self.links_at(i).parent
        } else {
            None
        };
        assert(ancestor_at(g, i, 0) == Some(i));
        assert(cur == ancestor_at(g, i, 1));
        let mut k: u64 = 1;
        while k <= fuel
            invariant
                self.wf(),
                g == self@,
                k >= 1,
                cur == ancestor_at(g, i, k as nat),
            decreases fuel + 1 - k,
        {
            match cur {
                None => {
                    assert(climb_bound(g, i, a, k as nat));
                    return true;
                },
                Some(j) => {
                    if j == a {
                        assert(climb_bound(g, i, a, k as nat));
                        return true;
                    }
                    cur = if self.contains_index(j) {
                        self.links_at(j).parent
                    } else {
                        None
                    };
                    assert(cur == ancestor_at(g, i, (k + 1) as nat));
                },
            }
            if k == u64::MAX {
                return false;
            }
            k += 1;
        }
        false
    }

    /// Returns true if `a` is an ancestor of `i`.
    fn has_ancestor(&self, i: Index, a: Index) -> (r: bool)
        requires
            self.wf(),
            i != a,
            climb_ends(self@, i, a),
        ensures
            r == is_ancestor(self@, a, i),
    {
        let ghost g = self@;
        let ghost n = choose|n: nat| climb_bound(g, i, a, n);
        let ghost mut k: nat = 1;
        let mut cur: Option<Index> = if self.contains_index(i) {
            self.links_at(i).parent
        } else {
            None
        };
        assert(ancestor_at(g, i, 0) == Some(i));
        assert(cur == ancestor_at(g, i, 1));
        while cur.is_some()
            invariant
                self.wf(),
                g == self@,
                i != a,
                climb_bound(g, i, a, n),
                1 <= k <= n,
                cur == ancestor_at(g, i, k),
                forall|m: nat| 1 <= m < k ==> #[trigger] ancestor_at(g, i, m) != Some(a),
            decreases n - k,
        {
            let j = cur.unwrap();
            if j == a {
                assert(ancestor_at(g, i, k) == Some(a));
                return true;
            }
            assert(k != n);
            cur = if self.contains_index(j) {
                self.links_at(j).parent
            } else {
                None
            };
            proof {
                assert(cur == ancestor_at(g, i, k + 1));
                k = k + 1;
            }
        }
        proof {
            assert forall|m: nat| m >= 1 implies #[trigger] ancestor_at(g, i, m) != Some(a) by {
                if m >= k {
                    lemma_climb_stays_ended(g, i, k, m);
                }
            }
        }
        false
    }

    /// Returns [`Error::Cycle`] if making `inserting` a child of `index` would make the forest
    /// cyclic, as far as [`makes_cycle`] looks.
    fn check_for_cycles(&self, index: Index, inserting: Index) -> (r: Result<(), Error>)
        requires
            self.wf(),
            self@.contains_key(index),
            self@.contains_key(inserting),
            index != inserting && !isolated(self@[inserting]) && self@[index].parent != Some(
                inserting,
            ) ==> search_ends(self@, index, inserting),
            index != inserting && !isolated(self@[inserting]) && self@[index].parent != Some(
                inserting,
            ) && !visits(self@, index, inserting) ==> climb_ends(self@, index, inserting),
        ensures
            r == (if makes_cycle(self@, index, inserting) {
                Err::<(), Error>(Error::Cycle)
            } else {
                Ok(())
            }),
    {
        // 1. If the two nodes are the same, then a cycle is guaranteed.
        if index == inserting {
            return Err(Error::Cycle);
        }
        // 2. If the node being inserted has no relations, a cycle is impossible.
        let inserting_node = self.nodes.get(&inserting.key).unwrap();
        if inserting_node.parent.is_none() && inserting_node.prev.is_none()
            && inserting_node.next.is_none() && inserting_node.first_last_child.is_none() {
            return Ok(());
        }
        // 3. The parent and child must not become cyclic.
        let parent_node = self.nodes.get(&index.key).unwrap();
        let is_parent = match parent_node.parent {
            Some(p) => p == inserting,
            None => false,
        };
        if is_parent {
            return Err(Error::Cycle);
        }
        // 4. The node being inserted must not appear in the tree under the parent.
        let ghost g = self@;
        let ghost first = Some(Edge::Start(index));
        let ghost n = choose|n: nat| search_bound(g, index, inserting, n);
        let ghost mut k: nat = 0;
        let mut iter = PreorderTraverse { forest: self, root: index, next: Some(Edge::Start(index)) };
        loop
            invariant
                self.wf(),
                g == self@,
                first == Some(Edge::Start(index)),
                index != inserting,
                !isolated(g[inserting]),
                g[index].parent != Some(inserting),
                !visits(g, index, inserting) ==> climb_ends(g, index, inserting),
                iter.wf(),
                iter.graph() == g,
                iter.root() == index,
                iter.pending() == nth_edge(g, index, first, k),
                search_bound(g, index, inserting, n),
                k <= n,
                forall|j: nat| #![trigger nth_edge(g, index, first, j)]
                    j < k ==> nth_edge(g, index, first, j) is Some && nth_edge(g, index, first, j)
                        != Some(Edge::Start(inserting)),
            decreases n - k,
        {
            let e = iter.next();
            proof {
                assert(nth_edge(g, index, first, k + 1) == advance(
                    g,
                    index,
                    nth_edge(g, index, first, k),
                ));
            }
            match e {
                None => {
                    proof {
                        assert forall|j: nat|
                            nth_edge(g, index, first, j) != Some(Edge::Start(inserting)) by {
                            if j >= k {
                                lemma_ended_stays_ended(g, index, first, k, j);
                            }
                        }
                        assert(!visits(g, index, inserting));
                    }
                    // 5. The node being inserted must not be an ancestor of the parent.
                    if self.has_ancestor(index, inserting) {
                        return Err(Error::Cycle);
                    }
                    return Ok(());
                },
                Some(Edge::Start(found)) => {
                    if found == inserting {
                        return Err(Error::Cycle);
                    }
                },
                Some(Edge::End(_)) => {},
            }
            proof {
                k = k + 1;
            }
        }
    }

    /// Makes `child` the last child of `index`.
    ///
    /// The child keeps whatever parent and siblings it had before.
    pub fn add_child(&mut self, index: Index, child: Index) -> (r: Result<(), Error>)
        requires
            old(self).wf(),
            old(self)@.contains_key(index) && old(self)@.contains_key(child) && index != child
                && !isolated(old(self)@[child]) && old(self)@[index].parent != Some(child)
                ==> search_ends(old(self)@, index, child),
            old(self)@.contains_key(index) && old(self)@.contains_key(child) && index != child
                && !isolated(old(self)@[child]) && old(self)@[index].parent != Some(child)
                && !visits(old(self)@, index, child) ==> climb_ends(old(self)@, index, child),
            old(self)@.contains_key(index) && old(self)@.contains_key(child) && !makes_cycle(
                old(self)@,
                index,
                child,
            ) ==> attach_ok(old(self)@, index),
        ensures
            final(self).wf(),
            final(self).values() == old(self).values(),
            !old(self)@.contains_key(index) ==> r == Err::<(), Error>(Error::NotPresent(index))
                && final(self)@ == old(self)@,
            old(self)@.contains_key(index) && !old(self)@.contains_key(child) ==> r == Err::<
                (),
                Error,
            >(Error::NotPresent(child)) && final(self)@ == old(self)@,
            old(self)@.contains_key(index) && old(self)@.contains_key(child) && makes_cycle(
                old(self)@,
                index,
                child,
            ) ==> r == Err::<(), Error>(Error::Cycle) && final(self)@ == old(self)@,
            old(self)@.contains_key(index) && old(self)@.contains_key(child) && !makes_cycle(
                old(self)@,
                index,
                child,
            ) ==> r == Ok::<(), Error>(()) && final(self)@ == attach(old(self)@, index, child),
    {
        self.is_present(index)?;
        self.is_present(child)?;
        self.check_for_cycles(index, child)?;
        let ghost g0 = self@;
        let parent = self.links_at(index);
        match parent.first_last_child {
            Some((first_child, prev_last_child)) => {
                self.set_links(
                    index,
                    Links {
                        parent: parent.parent,
                        prev: parent.prev,
                        next: parent.next,
                        first_last_child: Some((first_child, child)),
                    },
                );
                let prev_last = self.links_at(prev_last_child);
                self.set_links(
                    prev_last_child,
                    Links {
                        parent: prev_last.parent,
                        prev: prev_last.prev,
                        next: Some(child),
                        first_last_child: prev_last.first_last_child,
                    },
                );
                let child_links = self.links_at(child);
                self.set_links(
                    child,
                    Links {
                        parent: Some(index),
                        prev: Some(prev_last_child),
                        next: child_links.next,
                        first_last_child: child_links.first_last_child,
                    },
                );
            },
            None => {
                self.set_links(
                    index,
                    Links {
                        parent: parent.parent,
                        prev: parent.prev,
                        next: parent.next,
                        first_last_child: Some((child, child)),
                    },
                );
                let child_links = self.links_at(child);
                self.set_links(
                    child,
                    Links {
                        parent: Some(index),
                        prev: child_links.prev,
                        next: child_links.next,
                        first_last_child: child_links.first_last_child,
                    },
                );
            },
        }
        Ok(())
    }
}

/// The nodes that carry values are the nodes that have relations.
pub broadcast proof fn lemma_values_dom<T>(f: &Forest<T>)
    ensures
        #[trigger] f.values().dom() == f@.dom(),
{
    assert(f.values().dom() =~= f@.dom());
}

/// A well-formed forest has finitely many nodes.
pub broadcast proof fn lemma_wf_finite<T>(f: &Forest<T>)
    requires
        #[trigger] f.wf(),
    ensures
        f@.dom().finite(),
{
    f.lemma_view_len();
}

/// Detaching a node changes the parent of no other node, and keeps the same nodes.
pub proof fn lemma_detached_parents(g: Map<Index, Links>, index: Index, j: Index)
    requires
        g.contains_key(index),
        j != index,
        detach_ok(g, index),
    ensures
        detached(g, index).dom() == g.dom(),
        g.contains_key(j) ==> detached(g, index)[j].parent == g[j].parent,
{
    assert(detached(g, index).dom() =~= g.dom());
}

/// Appending a child changes the parent of no other node, and keeps the same nodes.
pub proof fn lemma_attach_parents(g: Map<Index, Links>, index: Index, child: Index, j: Index)
    requires
        g.contains_key(index),
        g.contains_key(child),
        attach_ok(g, index),
        j != child,
    ensures
        attach(g, index, child).dom() == g.dom(),
        g.contains_key(j) ==> attach(g, index, child)[j].parent == g[j].parent,
{
    assert(attach(g, index, child).dom() =~= g.dom());
}

/// Every relation of `l` names a node of `g`.
pub open spec fn targets_present(g: Map<Index, Links>, l: Links) -> bool {
    &&& (l.parent matches Some(p) ==> g.contains_key(p))
    &&& (l.prev matches Some(p) ==> g.contains_key(p))
    &&& (l.next matches Some(n) ==> g.contains_key(n))
    &&& (l.first_last_child matches Some((f, c)) ==> g.contains_key(f) && g.contains_key(c))
}

/// The relations of a forest agree with each other: every relation names a present node, each
/// next sibling has the node as its previous sibling and the same parent, the first and last
/// children of a node have it as parent and are the ends of their sibling list, a node with a
/// parent is among that parent's children, and a child without previous (next) sibling is its
/// parent's first (last) child.
pub open spec fn well_linked(g: Map<Index, Links>) -> bool {
    &&& forall|i: Index| #[trigger] g.contains_key(i) ==> targets_present(g, g[i])
    &&& forall|i: Index, j: Index|
        #![trigger g[i].next, g[j].prev]
        g.contains_key(i) && g.contains_key(j) ==> (g[i].next == Some(j) <==> g[j].prev == Some(
            i,
        ))
    &&& forall|i: Index| #[trigger]
        g.contains_key(i) && g[i].next is Some ==> g[g[i].next.unwrap()].parent == g[i].parent
    &&& forall|p: Index| #[trigger]
        g.contains_key(p) && g[p].first_last_child is Some ==> {
            let (f, c) = g[p].first_last_child.unwrap();
            &&& g[f].parent == Some(p)
            &&& g[f].prev is None
            &&& g[c].parent == Some(p)
            &&& g[c].next is None
        }
    &&& forall|i: Index| #[trigger]
        g.contains_key(i) && g[i].parent is Some ==> g[g[i].parent.unwrap()].first_last_child is Some
    &&& forall|i: Index| #[trigger]
        g.contains_key(i) && g[i].parent is Some && g[i].prev is None ==> g[g[i].parent.unwrap()].first_last_child.unwrap().0 == i
    &&& forall|i: Index| #[trigger]
        g.contains_key(i) && g[i].parent is Some && g[i].next is None ==> g[g[i].parent.unwrap()].first_last_child.unwrap().1 == i
}

/// Appending a node without relations to the children of another node keeps the relations of a
/// forest in agreement.
pub proof fn lemma_attach_keeps_links(g: Map<Index, Links>, index: Index, child: Index)
    requires
        well_linked(g),
        g.contains_key(index),
        g.contains_key(child),
        index != child,
        isolated(g[child]),
    ensures
        well_linked(attach(g, index, child)),
{
    let h = attach(g, index, child);
    assert(h.dom() =~= g.dom());
    // No node names the isolated child.
    assert forall|i: Index| g.contains_key(i) implies g[i].next != Some(child) && g[i].parent
        != Some(child) && g[i].first_last_child != Some((child, child)) by {
        if g[i].next == Some(child) {
            assert(g[child].prev == Some(i));
        }
    }
    match g[index].first_last_child {
        Some((first, last)) => {
            assert(g[last].parent == Some(index));
            assert(last != child);
            assert(first != child);
            assert(g[last].next is None);
            assert forall|i: Index| #[trigger] h.contains_key(i) implies targets_present(h, h[i]) by {
                assert(targets_present(g, g[i]));
            }
            assert forall|i: Index, j: Index|
                #![trigger h[i].next, h[j].prev]
                h.contains_key(i) && h.contains_key(j) implies (h[i].next == Some(j) <==> h[j].prev
                    == Some(i)) by {
                if g[i].next == Some(j) {
                    assert(g[j].prev == Some(i));
                }
                if g[j].prev == Some(i) {
                    assert(g[i].next == Some(j));
                }
                if j == child && g[i].next == Some(j) {
                    assert(false);
                }
                if i == last && g[j].prev == Some(i) {
                    assert(g[i].next == Some(j));
                }
            }
            assert forall|i: Index| #[trigger]
                h.contains_key(i) && h[i].next is Some implies h[h[i].next.unwrap()].parent
                == h[i].parent by {
                if i != last {
                    let n = g[i].next.unwrap();
                    assert(g[n].parent == g[i].parent);
                    assert(n != child);
                }
            }
            assert forall|p: Index| #[trigger]
                h.contains_key(p) && h[p].first_last_child is Some implies {
                let (f, c) = h[p].first_last_child.unwrap();
                &&& h[f].parent == Some(p)
                &&& h[f].prev is None
                &&& h[c].parent == Some(p)
                &&& h[c].next is None
            } by {
                if p != index {
                    let (f, c) = g[p].first_last_child.unwrap();
                    assert(g[f].parent == Some(p));
                    assert(g[c].parent == Some(p));
                    assert(f != child && c != child);
                    assert(c != last) by {
                        if c == last {
                            assert(g[last].parent == Some(index));
                        }
                    }
                }
            }
            assert forall|i: Index| #[trigger]
                h.contains_key(i) && h[i].parent is Some implies h[h[i].parent.unwrap()].first_last_child
                is Some by {
                if i != child {
                    assert(g[g[i].parent.unwrap()].first_last_child is Some);
                }
            }
        },
        None => {
            assert forall|i: Index| #[trigger] h.contains_key(i) implies targets_present(h, h[i]) by {
                assert(targets_present(g, g[i]));
            }
            assert forall|i: Index, j: Index|
                #![trigger h[i].next, h[j].prev]
                h.contains_key(i) && h.contains_key(j) implies (h[i].next == Some(j) <==> h[j].prev
                    == Some(i)) by {
                if g[i].next == Some(j) {
                    assert(g[j].prev == Some(i));
                }
                if g[j].prev == Some(i) {
                    assert(g[i].next == Some(j));
                }
            }
            assert forall|i: Index| #[trigger]
                h.contains_key(i) && h[i].next is Some implies h[h[i].next.unwrap()].parent
                == h[i].parent by {
                let n = g[i].next.unwrap();
                assert(g[n].parent == g[i].parent);
            }
            assert forall|p: Index| #[trigger]
                h.contains_key(p) && h[p].first_last_child is Some implies {
                let (f, c) = h[p].first_last_child.unwrap();
                &&& h[f].parent == Some(p)
                &&& h[f].prev is None
                &&& h[c].parent == Some(p)
                &&& h[c].next is None
            } by {
                if p != index {
                    let (f, c) = g[p].first_last_child.unwrap();
                    assert(g[f].parent == Some(p));
                    assert(g[c].parent == Some(p));
                }
            }
            assert forall|i: Index| #[trigger]
                h.contains_key(i) && h[i].parent is Some implies h[h[i].parent.unwrap()].first_last_child
                is Some by {
                if i != child {
                    assert(g[g[i].parent.unwrap()].first_last_child is Some);
                }
            }
        },
    }
}

/// A node inserted without relations keeps the relations of a forest in agreement.
pub proof fn lemma_insert_keeps_links(g: Map<Index, Links>, index: Index)
    requires
        well_linked(g),
        !g.contains_key(index),
    ensures
        well_linked(g.insert(index, no_links())),
{
    let h = g.insert(index, no_links());
    assert forall|i: Index| #[trigger] h.contains_key(i) implies targets_present(h, h[i]) by {
        if i != index {
            assert(targets_present(g, g[i]));
        }
    }
    assert forall|i: Index, j: Index|
        #![trigger h[i].next, h[j].prev]
        h.contains_key(i) && h.contains_key(j) implies (h[i].next == Some(j) <==> h[j].prev == Some(
            i,
        )) by {
        if i != index && j != index {
            assert(g[i].next == Some(j) <==> g[j].prev == Some(i));
        } else if i != index {
            assert(targets_present(g, g[i]));
        } else if j != index {
            assert(targets_present(g, g[j]));
        }
    }
    assert forall|i: Index| #[trigger]
        h.contains_key(i) && h[i].next is Some implies h[h[i].next.unwrap()].parent == h[i].parent by {
        if i != index {
            assert(targets_present(g, g[i]));
            assert(g[g[i].next.unwrap()].parent == g[i].parent);
        }
    }
    assert forall|p: Index| #[trigger]
        h.contains_key(p) && h[p].first_last_child is Some implies {
        let (f, c) = h[p].first_last_child.unwrap();
        &&& h[f].parent == Some(p)
        &&& h[f].prev is None
        &&& h[c].parent == Some(p)
        &&& h[c].next is None
    } by {
        if p != index {
            assert(targets_present(g, g[p]));
            let (f, c) = g[p].first_last_child.unwrap();
            assert(g[f].parent == Some(p));
        }
    }
    assert forall|i: Index| #[trigger]
        h.contains_key(i) && h[i].parent is Some implies h[h[i].parent.unwrap()].first_last_child
        is Some by {
        if i != index {
            assert(targets_present(g, g[i]));
            assert(g[g[i].parent.unwrap()].first_last_child is Some);
        }
    }
}

/// In a forest whose relations agree, every step of a walk from a present node looks up present
/// nodes only.
pub proof fn lemma_walk_present(g: Map<Index, Links>, root: Index, k: nat)
    requires
        well_linked(g),
        g.contains_key(root),
    ensures
        step_ok(g, root, nth_edge(g, root, Some(Edge::Start(root)), k)),
        match nth_edge(g, root, Some(Edge::Start(root)), k) {
            Some(Edge::Start(i)) => g.contains_key(i),
            Some(Edge::End(i)) => g.contains_key(i),
            None => true,
        },
    decreases k,
{
    if k > 0 {
        lemma_walk_present(g, root, (k - 1) as nat);
        match nth_edge(g, root, Some(Edge::Start(root)), (k - 1) as nat) {
            Some(Edge::Start(i)) => {
                assert(targets_present(g, g[i]));
            },
            Some(Edge::End(i)) => {
                assert(targets_present(g, g[i]));
            },
            None => {},
        }
    }
}

/// After `child` is appended to the children of `index`, it is the last child of `index` and
/// has `index` as its parent; if `index` had no children, it is also the first.
pub proof fn lemma_attach_makes_last_child(g: Map<Index, Links>, index: Index, child: Index)
    requires
        index != child,
    ensures
        last_child_of(attach(g, index, child)[index]) == Some(child),
        attach(g, index, child)[child].parent == Some(index),
        g[index].first_last_child is None ==> first_child_of(attach(g, index, child)[index]) == Some(
            child,
        ),
{
}

/// Detaching a node without parent or siblings keeps the relations in agreement.
proof fn lemma_detach_root_keeps_links(g: Map<Index, Links>, index: Index)
    requires
        well_linked(g),
        g.contains_key(index),
        g[index].prev is None,
        g[index].next is None,
        g[index].parent is None,
    ensures
        well_linked(detached(g, index)),
{
    let h = detached(g, index);
    assert(h =~= g.insert(index, with_parent(g[index], None)));
    assert(h[index] == g[index]);
    assert(h =~= g);
}

/// Detaching the only child of a parent keeps the relations in agreement.
#[verifier::rlimit(40)]
proof fn lemma_detach_sole_child_keeps_links(g: Map<Index, Links>, index: Index, p: Index)
    requires
        well_linked(g),
        g.contains_key(index),
        g[index].prev is None,
        g[index].next is None,
        g[index].parent == Some(p),
        forall|j: Index| #[trigger] g.contains_key(j) && j != index ==> g[j].parent != Some(p),
    ensures
        well_linked(detached(g, index)),
{
    let h = detached(g, index);
    assert(targets_present(g, g[index]));
    assert(g.contains_key(p));
    let g1 = g.insert(index, with_parent(g[index], None));
    assert(h =~= g1.insert(p, with_children(g1[p], None)));
    assert forall|i: Index| #[trigger] h.contains_key(i) implies targets_present(h, h[i]) by {
        assert(targets_present(g, g[i]));
    }
    assert forall|i: Index, j: Index|
        #![trigger h[i].next, h[j].prev]
        h.contains_key(i) && h.contains_key(j) implies (h[i].next == Some(j) <==> h[j].prev
            == Some(i)) by {
        assert(g[i].next == Some(j) <==> g[j].prev == Some(i));
    }
    assert forall|i: Index| #[trigger]
        h.contains_key(i) && h[i].next is Some implies h[h[i].next.unwrap()].parent
        == h[i].parent by {
        let n = g[i].next.unwrap();
        assert(g[n].parent == g[i].parent);
        assert(n != index) by {
            if n == index {
                assert(g[index].prev == Some(i));
            }
        }
    }
    assert forall|q: Index| #[trigger]
        h.contains_key(q) && h[q].first_last_child is Some implies {
        let (f2, c2) = h[q].first_last_child.unwrap();
        &&& h[f2].parent == Some(q)
        &&& h[f2].prev is None
        &&& h[c2].parent == Some(q)
        &&& h[c2].next is None
    } by {
        let (f2, c2) = g[q].first_last_child.unwrap();
        assert(g[f2].parent == Some(q));
        assert(g[c2].parent == Some(q));
    }
}

/// Detaching a node that has no siblings and is the only node with its parent, if it has one,
/// keeps the relations of a forest in agreement: the node loses its parent and the parent loses
/// its only child.
pub proof fn lemma_detach_only_child_keeps_links(g: Map<Index, Links>, index: Index)
    requires
        well_linked(g),
        g.contains_key(index),
        g[index].prev is None,
        g[index].next is None,
        g[index].parent matches Some(p) ==> forall|j: Index|
            #[trigger] g.contains_key(j) && j != index ==> g[j].parent != Some(p),
    ensures
        detach_ok(g, index),
        well_linked(detached(g, index)),
        detached(g, index)[index].parent is None,
{
    assert(targets_present(g, g[index]));
    match g[index].parent {
        None => lemma_detach_root_keeps_links(g, index),
        Some(p) => lemma_detach_sole_child_keeps_links(g, index, p),
    }
}

/// In a forest whose relations agree, making a node a child of one of its descendants is always
/// refused as a cycle.
pub proof fn lemma_ancestor_cycle(g: Map<Index, Links>, index: Index, child: Index)
    requires
        well_linked(g),
        g.contains_key(index),
        is_ancestor(g, child, index),
    ensures
        makes_cycle(g, index, child),
{
    let k = choose|k: nat| k >= 1 && #[trigger] ancestor_at(g, index, k) == Some(child);
    let j = ancestor_at(g, index, (k - 1) as nat).unwrap();
    assert(g.contains_key(j) && g[j].parent == Some(child));
    assert(g[g[j].parent.unwrap()].first_last_child is Some);
}

/// Detaching a node that has a sibling keeps the relations in agreement.
#[verifier::rlimit(80)]
proof fn lemma_detach_sibling_keeps_links(g: Map<Index, Links>, index: Index)
    requires
        well_linked(g),
        g.contains_key(index),
        g[index].prev is Some || g[index].next is Some,
    ensures
        well_linked(detached(g, index)),
{
    let h = detached(g, index);
    let l = g[index];
    assert(targets_present(g, l));
    if let Some(pr) = l.prev {
        assert(g[pr].next == Some(index));
        assert(g[pr].parent == l.parent);
    }
    if let Some(n) = l.next {
        assert(g[n].prev == Some(index));
        assert(g[n].parent == l.parent);
    }
    assert(h.dom() =~= g.dom());
    if let Some(p) = l.parent {
        assert(g[p].first_last_child is Some);
        if l.prev is None {
            assert(g[p].first_last_child.unwrap().0 == index);
        }
        if l.next is None {
            assert(g[p].first_last_child.unwrap().1 == index);
        }
    }
    // Only the node and its neighbours change their sibling links; only the parent its children.
    assert forall|i: Index| #[trigger] h.contains_key(i) implies targets_present(h, h[i]) by {
        assert(targets_present(g, g[i]));
    }
    assert forall|i: Index, j: Index|
        #![trigger h[i].next, h[j].prev]
        h.contains_key(i) && h.contains_key(j) implies (h[i].next == Some(j) <==> h[j].prev == Some(
            i,
        )) by {
        assert(g[i].next == Some(j) <==> g[j].prev == Some(i));
        if let Some(pr) = l.prev {
            assert(g[pr].next == Some(j) <==> g[j].prev == Some(pr));
        }
        if let Some(n) = l.next {
            assert(g[i].next == Some(n) <==> g[n].prev == Some(i));
        }
        assert(g[i].next == Some(index) <==> g[index].prev == Some(i));
        assert(g[index].next == Some(j) <==> g[j].prev == Some(index));
    }
    assert forall|i: Index| #[trigger]
        h.contains_key(i) && h[i].next is Some implies h[h[i].next.unwrap()].parent == h[i].parent by {
        if g[i].next is Some {
            assert(g[g[i].next.unwrap()].parent == g[i].parent);
        }
        if i != index && g[i].next == Some(index) {
            assert(g[index].prev == Some(i));
        }
    }
    assert forall|q: Index| #[trigger]
        h.contains_key(q) && h[q].first_last_child is Some implies {
        let (f, c) = h[q].first_last_child.unwrap();
        &&& h[f].parent == Some(q)
        &&& h[f].prev is None
        &&& h[c].parent == Some(q)
        &&& h[c].next is None
    } by {
        let (f0, c0) = g[q].first_last_child.unwrap();
        assert(g[f0].parent == Some(q));
        assert(g[f0].prev is None);
        assert(g[c0].parent == Some(q));
        assert(g[c0].next is None);
        if let Some(n) = l.next {
            assert(g[n].prev == Some(index));
        }
        if let Some(pr) = l.prev {
            assert(g[pr].next == Some(index));
        }
    }
    assert forall|i: Index| #[trigger]
        h.contains_key(i) && h[i].parent is Some implies h[h[i].parent.unwrap()].first_last_child
        is Some by {
        assert(g[g[i].parent.unwrap()].first_last_child is Some);
    }
    assert forall|i: Index| #[trigger]
        h.contains_key(i) && h[i].parent is Some && h[i].prev is None implies h[h[i].parent.unwrap()].first_last_child.unwrap().0
        == i by {
        if g[i].prev is None {
            assert(g[g[i].parent.unwrap()].first_last_child.unwrap().0 == i);
        } else {
            assert(g[g[i].prev.unwrap()].next == Some(i));
        }
    }
    assert forall|i: Index| #[trigger]
        h.contains_key(i) && h[i].parent is Some && h[i].next is None implies h[h[i].parent.unwrap()].first_last_child.unwrap().1
        == i by {
        if g[i].next is None {
            assert(g[g[i].parent.unwrap()].first_last_child.unwrap().1 == i);
        } else {
            assert(g[g[i].next.unwrap()].prev == Some(i));
        }
    }
}

/// Detaching a node keeps the relations of a forest in agreement, provided that a node without
/// siblings is the only node naming its parent and that the node is not its own sibling: the
/// node loses its parent and siblings, its
/// siblings are linked to each other, and its parent's first and last children are updated.
pub proof fn lemma_detach_keeps_links(g: Map<Index, Links>, index: Index)
    requires
        well_linked(g),
        g.contains_key(index),
        g[index].prev is None && g[index].next is None && g[index].parent is Some ==> forall|j: Index|
            #[trigger] g.contains_key(j) && j != index ==> g[j].parent != g[index].parent,
        g[index].next != Some(index),
    ensures
        detach_ok(g, index),
        well_linked(detached(g, index)),
        detached(g, index)[index].parent is None,
        detached(g, index)[index].prev is None,
        detached(g, index)[index].next is None,
{
    assert(targets_present(g, g[index]));
    assert(g[index].prev != Some(index)) by {
        if g[index].prev == Some(index) {
            assert(g[index].next == Some(index));
        }
    }
    if let Some(p) = g[index].parent {
        assert(g[p].first_last_child is Some);
    }
    if g[index].prev is None && g[index].next is None {
        lemma_detach_only_child_keeps_links(g, index);
    } else {
        lemma_detach_sibling_keeps_links(g, index);
    }
}

/// A walk that ends also ends any search along it.
pub proof fn lemma_walk_ends_search(g: Map<Index, Links>, root: Index, target: Index)
    requires
        walk_ends(g, root),
    ensures
        search_ends(g, root, target),
{
    let n = choose|n: nat| walk_bound(g, root, n);
    assert(search_bound(g, root, target, n));
}

/// Walking `j` steps from the edge a walk reaches after `k` steps is walking `k + j` steps.
pub proof fn lemma_nth_shift(g: Map<Index, Links>, root: Index, first: Option<Edge>, k: nat, j: nat)
    ensures
        nth_edge(g, root, nth_edge(g, root, first, k), j) == nth_edge(g, root, first, k + j),
    decreases j,
{
    if j > 0 {
        lemma_nth_shift(g, root, first, k, (j - 1) as nat);
        assert(nth_edge(g, root, first, k + j) == advance(
            g,
            root,
            nth_edge(g, root, first, (k + j - 1) as nat),
        ));
    }
}

/// Ends of nodes start nothing: over edges that are ends the started nodes stay the same.
proof fn lemma_started_over_ends(g: Map<Index, Links>, root: Index, first: Option<Edge>, k: nat, m: nat)
    requires
        forall|j: nat| j < m ==> !settled(#[trigger] nth_edge(g, root, nth_edge(g, root, first, k), j)),
    ensures
        started_nodes(g, root, first, k + m) == started_nodes(g, root, first, k),
    decreases m,
{
    if m > 0 {
        lemma_started_over_ends(g, root, first, k, (m - 1) as nat);
        lemma_nth_shift(g, root, first, k, (m - 1) as nat);
        assert(!settled(nth_edge(g, root, nth_edge(g, root, first, k), (m - 1) as nat)));
    }
}

/// Each step of a descent yields the next node the pre-order walk starts, or nothing once the
/// walk is over: the nodes a descent yields, in order, are the nodes the walk of edges starts.
pub proof fn lemma_descend_yields_starts(
    g: Map<Index, Links>,
    root: Index,
    first: Option<Edge>,
    k: nat,
    r: Option<Index>,
    after: Option<Edge>,
)
    requires
        descends(g, root, nth_edge(g, root, first, k), r, after),
    ensures
        exists|m: nat|
            after == nth_edge(g, root, first, k + m + 1) && #[trigger] started_nodes(
                g,
                root,
                first,
                k + m + 1,
            ) == started_nodes(g, root, first, k) + match r {
                Some(i) => seq![i],
                None => Seq::empty(),
            },
{
    let e = nth_edge(g, root, first, k);
    let m = choose|m: nat|
        #[trigger] first_settled(g, root, e, m) && r == started(nth_edge(g, root, e, m)) && after
            == nth_edge(g, root, e, m + 1);
    lemma_started_over_ends(g, root, first, k, m);
    lemma_nth_shift(g, root, first, k, m);
    lemma_nth_shift(g, root, first, k, m + 1);
    let expected = started_nodes(g, root, first, k) + match r {
        Some(i) => seq![i],
        None => Seq::<Index>::empty(),
    };
    assert(started_nodes(g, root, first, k + m + 1) =~= expected);
}

/// The nodes among `rs`, in order, leaving out the nones.
pub open spec fn yielded(rs: Seq<Option<Index>>) -> Seq<Index>
    decreases rs.len(),
{
    if rs.len() == 0 {
        Seq::empty()
    } else {
        yielded(rs.drop_last()) + match rs.last() {
            Some(i) => seq![i],
            None => Seq::empty(),
        }
    }
}

/// A run of descents from the start of `root`, each starting where the one before left off,
/// yields exactly the nodes the pre-order walk starts up to where the run stops.
pub proof fn lemma_descent_run(
    g: Map<Index, Links>,
    root: Index,
    es: Seq<Option<Edge>>,
    rs: Seq<Option<Index>>,
)
    requires
        es.len() == rs.len() + 1,
        es[0] == Some(Edge::Start(root)),
        forall|i: int| 0 <= i < rs.len() ==> descends(g, root, #[trigger] es[i], rs[i], es[i + 1]),
    ensures
        exists|m: nat|
            es.last() == nth_edge(g, root, Some(Edge::Start(root)), m) && #[trigger] started_nodes(
                g,
                root,
                Some(Edge::Start(root)),
                m,
            ) == yielded(rs),
    decreases rs.len(),
{
    let first = Some(Edge::Start(root));
    if rs.len() == 0 {
        assert(nth_edge(g, root, first, 0) == es.last());
        assert(started_nodes(g, root, first, 0) == yielded(rs));
    } else {
        let n = rs.len() - 1;
        let es0 = es.drop_last();
        let rs0 = rs.drop_last();
        assert forall|i: int| 0 <= i < rs0.len() implies descends(g, root, #[trigger] es0[i], rs0[i], es0[i + 1]) by {
            assert(es0[i] == es[i] && es0[i + 1] == es[i + 1] && rs0[i] == rs[i]);
        }
        lemma_descent_run(g, root, es0, rs0);
        let m0 = choose|m: nat|
            es0.last() == nth_edge(g, root, first, m) && #[trigger] started_nodes(g, root, first, m)
                == yielded(rs0);
        assert(es0.last() == es[n]);
        assert(descends(g, root, es[n], rs[n], es[n + 1]));
        lemma_descend_yields_starts(g, root, first, m0, rs[n], es[n + 1]);
        let m1 = choose|m1: nat|
            es[n + 1] == nth_edge(g, root, first, m0 + m1 + 1) && #[trigger] started_nodes(
                g,
                root,
                first,
                m0 + m1 + 1,
            ) == started_nodes(g, root, first, m0) + match rs[n] {
                Some(i) => seq![i],
                None => Seq::empty(),
            };
        assert(rs.drop_last() == rs0);
        assert(started_nodes(g, root, first, m0 + m1 + 1) == yielded(rs));
        assert(es.last() == es[n + 1]);
    }
}

/// Once `b` has been made a child of `a`, making `a` a child of `b` is refused as a cycle.
pub proof fn lemma_parent_cycle(g: Map<Index, Links>, a: Index, b: Index)
    requires
        g.contains_key(a),
        g.contains_key(b),
        a != b,
    ensures
        attach(g, a, b)[b].parent == Some(a),
        makes_cycle(attach(g, a, b), b, a),
{
}

/// A node can never be made its own child.
pub proof fn lemma_no_self_child(g: Map<Index, Links>, a: Index)
    ensures
        makes_cycle(g, a, a),
{
}

/// Inserting a node and removing it again leaves the forest's relations and values as they were.
pub proof fn lemma_insert_remove_roundtrip<T>(
    g: Map<Index, Links>,
    values: Map<Index, T>,
    index: Index,
    value: T,
)
    requires
        !g.contains_key(index),
        !values.contains_key(index),
    ensures
        detach_ok(g.insert(index, no_links()), index),
        detached(g.insert(index, no_links()), index).remove(index) == g,
        values.insert(index, value).remove(index) == values,
{
    let g2 = g.insert(index, no_links());
    assert(detached(g2, index) =~= g2);
    assert(g2.remove(index) =~= g);
    assert(values.insert(index, value).remove(index) =~= values);
}

/// A walk that meets the same edge twice repeats from there on: it never ends.
proof fn lemma_repeat_never_ends(g: Map<Index, Links>, root: Index, first: Option<Edge>, i: nat, j: nat, t: nat)
    requires
        i < j,
        nth_edge(g, root, first, i) == nth_edge(g, root, first, j),
        nth_edge(g, root, first, i) is Some,
    ensures
        nth_edge(g, root, first, i + t) is Some,
    decreases t,
{
    let p = (j - i) as nat;
    if t < p {
        if nth_edge(g, root, first, i + t) is None {
            lemma_ended_stays_ended(g, root, first, i + t, j);
        }
    } else {
        let u = (t - p) as nat;
        lemma_repeat_never_ends(g, root, first, i, j, u);
        lemma_nth_shift(g, root, first, i, u);
        lemma_nth_shift(g, root, first, j, u);
        assert(j + u == i + t);
    }
}

/// A walk that comes to an end meets no edge twice.
pub proof fn lemma_ending_walk_no_repeat(
    g: Map<Index, Links>,
    root: Index,
    first: Option<Edge>,
    n: nat,
    i: nat,
    j: nat,
)
    requires
        nth_edge(g, root, first, n) is None,
        i < j,
        nth_edge(g, root, first, i) is Some,
    ensures
        nth_edge(g, root, first, i) != nth_edge(g, root, first, j),
{
    if nth_edge(g, root, first, i) == nth_edge(g, root, first, j) {
        lemma_repeat_never_ends(g, root, first, i, j, n);
        lemma_ended_stays_ended(g, root, first, n, i + n);
    }
}

/// Each node among the first `k` started is started by an edge before step `k`, and none twice.
proof fn lemma_started_distinct(g: Map<Index, Links>, root: Index, first: Option<Edge>, n: nat, k: nat)
    requires
        nth_edge(g, root, first, n) is None,
    ensures
        started_nodes(g, root, first, k).no_duplicates(),
        forall|x: Index|
            #[trigger] started_nodes(g, root, first, k).contains(x) ==> exists|s: nat|
                s < k && nth_edge(g, root, first, s) == Some(Edge::Start(x)),
    decreases k,
{
    if k > 0 {
        let k1 = (k - 1) as nat;
        lemma_started_distinct(g, root, first, n, k1);
        let s0 = started_nodes(g, root, first, k1);
        match nth_edge(g, root, first, k1) {
            Some(Edge::Start(x)) => {
                if s0.contains(x) {
                    let s = choose|s: nat| s < k1 && nth_edge(g, root, first, s) == Some(Edge::Start(x));
                    lemma_ending_walk_no_repeat(g, root, first, n, s, k1);
                }
                assert forall|y: Index| #[trigger] s0.push(x).contains(y) implies exists|s: nat|
                    s < k && nth_edge(g, root, first, s) == Some(Edge::Start(y)) by {
                    if y != x {
                        let v = choose|v: int| 0 <= v < s0.push(x).len() && s0.push(x)[v] == y;
                        assert(s0[v] == y);
                        assert(s0.contains(y));
                        let s = choose|s: nat| s < k1 && nth_edge(g, root, first, s) == Some(Edge::Start(y));
                        assert(s < k);
                    } else {
                        assert(nth_edge(g, root, first, k1) == Some(Edge::Start(y)));
                    }
                }
            },
            _ => {
                assert forall|y: Index| #[trigger] s0.contains(y) implies exists|s: nat|
                    s < k && nth_edge(g, root, first, s) == Some(Edge::Start(y)) by {
                    let s = choose|s: nat| s < k1 && nth_edge(g, root, first, s) == Some(Edge::Start(y));
                    assert(s < k);
                }
            },
        }
    }
}

/// A pre-order walk that comes to an end starts each node at most once.
pub proof fn lemma_walk_starts_each_once(g: Map<Index, Links>, root: Index, k: nat)
    requires
        walk_ends(g, root),
    ensures
        started_nodes(g, root, Some(Edge::Start(root)), k).no_duplicates(),
{
    let n = choose|n: nat| walk_bound(g, root, n);
    lemma_started_distinct(g, root, Some(Edge::Start(root)), n, k);
}

/// The node an edge starts or ends.
pub open spec fn edge_node(e: Edge) -> Index {
    match e {
        Edge::Start(i) => i,
        Edge::End(i) => i,
    }
}

/// One step further up from a node is one step further up from its parent.
proof fn lemma_ancestor_shift(g: Map<Index, Links>, c: Index, p: Index, k: nat)
    requires
        g.contains_key(c),
        g[c].parent == Some(p),
    ensures
        ancestor_at(g, c, k + 1) == ancestor_at(g, p, k),
    decreases k,
{
    reveal_with_fuel(ancestor_at, 2);
    if k > 0 {
        lemma_ancestor_shift(g, c, p, (k - 1) as nat);
    }
}

/// Every edge of a walk within its end is about the root or a node beneath it.
proof fn lemma_walk_beneath(g: Map<Index, Links>, root: Index, n: nat, k: nat)
    requires
        well_linked(g),
        walk_bound(g, root, n),
    ensures
        nth_edge(g, root, Some(Edge::Start(root)), k) matches Some(e) ==> edge_node(e) == root
            || is_ancestor(g, root, edge_node(e)),
    decreases k,
{
    let first = Some(Edge::Start(root));
    if k > 0 {
        let k1 = (k - 1) as nat;
        lemma_walk_beneath(g, root, n, k1);
        if k1 > n {
            lemma_ended_stays_ended(g, root, first, n, k1);
        }
        match nth_edge(g, root, first, k1) {
            Some(Edge::Start(i)) => {
                assert(step_ok(g, root, nth_edge(g, root, first, k1)));
                assert(g.contains_key(i));
                match first_child_of(g[i]) {
                    Some(c) => {
                        assert(targets_present(g, g[i]));
                        assert(g.contains_key(c));
                        assert(g[c].parent == Some(i));
                        lemma_ancestor_shift(g, c, i, 0);
                        if i != root {
                            let m = choose|m: nat| m >= 1 && #[trigger] ancestor_at(g, i, m) == Some(root);
                            lemma_ancestor_shift(g, c, i, m);
                            assert(ancestor_at(g, c, m + 1) == Some(root));
                        } else {
                            assert(ancestor_at(g, c, 1) == Some(root));
                        }
                    },
                    None => {},
                }
            },
            Some(Edge::End(i)) => {
                if i != root {
                    assert(step_ok(g, root, nth_edge(g, root, first, k1)));
                    assert(g.contains_key(i));
                    let m = choose|m: nat| m >= 1 && #[trigger] ancestor_at(g, i, m) == Some(root);
                    match g[i].parent {
                        Some(p) => {
                            lemma_ancestor_shift(g, i, p, (m - 1) as nat);
                            assert(ancestor_at(g, p, (m - 1) as nat) == Some(root));
                            match g[i].next {
                                Some(x) => {
                                    assert(targets_present(g, g[i]));
                                    assert(g[x].parent == g[i].parent);
                                    lemma_ancestor_shift(g, x, p, (m - 1) as nat);
                                    assert(ancestor_at(g, x, m) == Some(root));
                                },
                                None => {
                                    if m > 1 {
                                        assert(ancestor_at(g, p, (m - 1) as nat) == Some(root));
                                    }
                                },
                            }
                        },
                        None => {
                            reveal_with_fuel(ancestor_at, 2);
                            assert(ancestor_at(g, i, 1) is None);
                            lemma_climb_stays_ended(g, i, 1, m);
                        },
                    }
                }
            },
            None => {},
        }
    }
}

/// Every node a pre-order walk that comes to an end starts is the root or lies beneath it.
pub proof fn lemma_walk_stays_beneath(g: Map<Index, Links>, root: Index, k: nat, x: Index)
    requires
        well_linked(g),
        walk_ends(g, root),
        started_nodes(g, root, Some(Edge::Start(root)), k).contains(x),
    ensures
        x == root || is_ancestor(g, root, x),
{
    let n = choose|n: nat| walk_bound(g, root, n);
    lemma_started_distinct(g, root, Some(Edge::Start(root)), n, k);
    let s = choose|s: nat| s < k && nth_edge(g, root, Some(Edge::Start(root)), s) == Some(Edge::Start(x));
    lemma_walk_beneath(g, root, n, s);
}

} // verus!
