//! Dependency tracking
//!
//! This module provides the [`DependencyTracker`] type to help manage transaction dependencies.
//! Failing or finishing a transaction walks over its dependents; each transaction is reported
//! at most once per call, so the walk ends however the dependents are linked.

use std::collections::HashMap;

use vstd::prelude::*;

use crate::slots::{KeySlots, slot_keys, slots_insert, slots_new};

verus! {

broadcast use vstd::std_specs::hash::group_hash_axioms;

/// The identifier of a transaction in a [`DependencyTracker`].
#[derive(Debug, Clone, Copy, PartialEq, Eq, Hash, Structural)]
pub struct Id {
    key: u64,
}

/// The state of a transaction.
#[derive(Debug, Clone, Copy, PartialEq, Eq, Structural)]
pub enum Status {
    Queued,
    Finished,
    Failed,
}

impl Default for Status {
    fn default() -> (s: Status)
        ensures
            s == Status::Queued,
    {
        Status::Queued
    }
}

/// An error from adding a dependency.
#[derive(Debug, Clone, Copy, PartialEq, Eq, Structural)]
pub enum Error {
    NotPresent,
    CausesCycle,
}

struct TrackerNode {
    dependents: Vec<Id>,
    dependencies: Vec<Id>,
    status: Status,
}

/// What the tracker knows of one transaction.
pub struct NodeState {
    /// The transactions that depend on this one, in the order they were added.
    pub dependents: Seq<Id>,
    /// The unfinished transactions this one depends on, in the order they were added.
    pub dependencies: Seq<Id>,
    /// The state of the transaction.
    pub status: Status,
}

/// The state of a fresh transaction: queued, with no dependency and no dependent.
pub open spec fn fresh_node() -> NodeState {
    NodeState { dependents: Seq::empty(), dependencies: Seq::empty(), status: Status::Queued }
}

/// The neighbours of `x`: its dependencies when `forward`, else its dependents.
pub open spec fn edges(g: Map<Id, NodeState>, x: Id, forward: bool) -> Seq<Id> {
    if g.contains_key(x) {
        if forward {
            g[x].dependencies
        } else {
            g[x].dependents
        }
    } else {
        Seq::empty()
    }
}

/// The neighbours of the elements of `s`, one after the other, in the order of `s`.
pub open spec fn next_layer(g: Map<Id, NodeState>, s: Seq<Id>, forward: bool) -> Seq<Id>
    decreases s.len(),
{
    if s.len() == 0 {
        Seq::empty()
    } else {
        next_layer(g, s.drop_last(), forward) + edges(g, s.last(), forward)
    }
}

/// The `k`-th layer of the walk that starts from `s`: `s` itself, then its neighbours, and so on.
pub open spec fn layer(g: Map<Id, NodeState>, s: Seq<Id>, forward: bool, k: nat) -> Seq<Id>
    decreases k,
{
    if k == 0 {
        s
    } else {
        next_layer(g, layer(g, s, forward, (k - 1) as nat), forward)
    }
}

/// `b` is reached from `a` by following one edge or more.
pub open spec fn reaches(g: Map<Id, NodeState>, a: Id, b: Id, forward: bool) -> bool {
    exists|k: nat| #[trigger] layer(g, edges(g, a, forward), forward, k).contains(b)
}

/// The walk from `s` comes to an end or meets `target`.
pub open spec fn search_ends(g: Map<Id, NodeState>, s: Seq<Id>, target: Id, forward: bool) -> bool {
    exists|k: nat|
        #[trigger] layer(g, s, forward, k).len() == 0 || layer(g, s, forward, k).contains(target)
}

/// Every neighbour of a transaction of the tracker is a transaction of the tracker.
pub open spec fn closed_graph(g: Map<Id, NodeState>) -> bool {
    forall|x: Id, i: int|
        #![trigger g[x].dependencies[i]]
        #![trigger g[x].dependents[i]]
        g.contains_key(x) ==> {
            &&& (0 <= i < g[x].dependencies.len() ==> g.contains_key(g[x].dependencies[i]))
            &&& (0 <= i < g[x].dependents.len() ==> g.contains_key(g[x].dependents[i]))
        }
}

/// Every dependency of a transaction lists that transaction among its dependents.
pub open spec fn mirrored(g: Map<Id, NodeState>) -> bool {
    forall|x: Id, i: int|
        g.contains_key(x) && 0 <= i < g[x].dependencies.len() ==> g[g[x].dependencies[i]].dependents.contains(
            x,
        )
}

/// `r` ranks the transactions so that every neighbour ranks below the transaction.
pub open spec fn ranked(g: Map<Id, NodeState>, r: Map<Id, nat>, forward: bool) -> bool {
    forall|x: Id|
        #[trigger] g.contains_key(x) ==> r.contains_key(x) && forall|i: int|
            0 <= i < edges(g, x, forward).len() ==> r.contains_key(edges(g, x, forward)[i])
                && #[trigger] r[edges(g, x, forward)[i]] < r[x]
}

/// No transaction depends, directly or not, on itself.
pub open spec fn dependencies_acyclic(g: Map<Id, NodeState>) -> bool {
    exists|r: Map<Id, nat>| ranked(g, r, true)
}


/// An element of the next layer is a neighbour of an element of the layer.
proof fn lemma_next_layer_contains(g: Map<Id, NodeState>, s: Seq<Id>, forward: bool, z: Id)
    ensures
        next_layer(g, s, forward).contains(z) <==> exists|i: int|
            0 <= i < s.len() && #[trigger] edges(g, s[i], forward).contains(z),
    decreases s.len(),
{
    if s.len() > 0 {
        lemma_next_layer_contains(g, s.drop_last(), forward, z);
        let t = next_layer(g, s.drop_last(), forward);
        let e = edges(g, s.last(), forward);
        assert(next_layer(g, s, forward) == t + e);
        if next_layer(g, s, forward).contains(z) {
            let j = choose|j: int| 0 <= j < (t + e).len() && (t + e)[j] == z;
            if j < t.len() {
                assert(t.contains(z));
                let i = choose|i: int|
                    0 <= i < s.drop_last().len() && #[trigger] edges(g, s.drop_last()[i], forward).contains(z);
                assert(s.drop_last()[i] == s[i]);
            } else {
                assert(e[j - t.len()] == z);
                assert(edges(g, s[s.len() - 1], forward).contains(z));
            }
        }
        if exists|i: int| 0 <= i < s.len() && #[trigger] edges(g, s[i], forward).contains(z) {
            let i = choose|i: int| 0 <= i < s.len() && #[trigger] edges(g, s[i], forward).contains(z);
            if i < s.len() - 1 {
                assert(s.drop_last()[i] == s[i]);
                assert(t.contains(z));
                let j = choose|j: int| 0 <= j < t.len() && t[j] == z;
                assert((t + e)[j] == z);
            } else {
                let j = choose|j: int| 0 <= j < e.len() && e[j] == z;
                assert((t + e)[t.len() + j] == z);
            }
        }
    }
}

/// Taking one more step first is the same as starting from the next layer.
proof fn lemma_layer_shift(g: Map<Id, NodeState>, s: Seq<Id>, forward: bool, k: nat)
    ensures
        layer(g, s, forward, k + 1) == layer(g, next_layer(g, s, forward), forward, k),
    decreases k,
{
    let ns = next_layer(g, s, forward);
    if k == 0 {
        assert(layer(g, s, forward, 0) == s);
        assert(layer(g, s, forward, 1) == next_layer(g, layer(g, s, forward, 0), forward));
        assert(layer(g, ns, forward, 0) == ns);
    } else {
        lemma_layer_shift(g, s, forward, (k - 1) as nat);
        assert(layer(g, s, forward, k + 1) == next_layer(g, layer(g, s, forward, k), forward));
        assert(layer(g, ns, forward, k) == next_layer(g, layer(g, ns, forward, (k - 1) as nat), forward));
    }
}

/// The next layer of a single element is its neighbours.
proof fn lemma_next_layer_single(g: Map<Id, NodeState>, x: Id, forward: bool)
    ensures
        next_layer(g, seq![x], forward) == edges(g, x, forward),
{
    let s = seq![x];
    assert(s.drop_last() =~= Seq::<Id>::empty());
    assert(s.last() == x);
    assert(next_layer(g, Seq::<Id>::empty(), forward) == Seq::<Id>::empty());
    assert(next_layer(g, s, forward) == next_layer(g, s.drop_last(), forward) + edges(g, s.last(), forward));
    assert(Seq::<Id>::empty() + edges(g, x, forward) =~= edges(g, x, forward));
}

/// Once a layer is empty, every later layer is empty.
proof fn lemma_layer_empty_after(g: Map<Id, NodeState>, s: Seq<Id>, forward: bool, k: nat, j: nat)
    requires
        layer(g, s, forward, k).len() == 0,
        k <= j,
    ensures
        layer(g, s, forward, j).len() == 0,
    decreases j - k,
{
    if k < j {
        lemma_layer_empty_after(g, s, forward, k, (j - 1) as nat);
        let t = layer(g, s, forward, (j - 1) as nat);
        assert(t =~= Seq::<Id>::empty());
    }
}

/// Layers of a walk inside a closed graph stay inside the graph.
proof fn lemma_layer_in_graph(g: Map<Id, NodeState>, s: Seq<Id>, forward: bool, k: nat, z: Id)
    requires
        closed_graph(g),
        forall|i: int| 0 <= i < s.len() ==> g.contains_key(#[trigger] s[i]),
        layer(g, s, forward, k).contains(z),
    ensures
        g.contains_key(z),
    decreases k,
{
    if k > 0 {
        let t = layer(g, s, forward, (k - 1) as nat);
        lemma_next_layer_contains(g, t, forward, z);
        let i = choose|i: int| 0 <= i < t.len() && #[trigger] edges(g, t[i], forward).contains(z);
        lemma_layer_in_graph(g, s, forward, (k - 1) as nat, t[i]);
        let e = edges(g, t[i], forward);
        let j = choose|j: int| 0 <= j < e.len() && e[j] == z;
        if forward {
            assert(g.contains_key(g[t[i]].dependencies[j]));
        } else {
            assert(g.contains_key(g[t[i]].dependents[j]));
        }
    }
}

/// Under a ranking, every element of the `k`-th layer ranks `k` below the bound of the start.
proof fn lemma_layer_rank(
    g: Map<Id, NodeState>,
    r: Map<Id, nat>,
    s: Seq<Id>,
    forward: bool,
    n: nat,
    k: nat,
    z: Id,
)
    requires
        closed_graph(g),
        ranked(g, r, forward),
        forall|i: int| 0 <= i < s.len() ==> g.contains_key(#[trigger] s[i]) && r[s[i]] < n,
        layer(g, s, forward, k).contains(z),
    ensures
        g.contains_key(z),
        r[z] + k < n,
    decreases k,
{
    if k == 0 {
        let i = choose|i: int| 0 <= i < s.len() && s[i] == z;
    } else {
        let t = layer(g, s, forward, (k - 1) as nat);
        lemma_next_layer_contains(g, t, forward, z);
        let i = choose|i: int| 0 <= i < t.len() && #[trigger] edges(g, t[i], forward).contains(z);
        assert(t.contains(t[i]));
        lemma_layer_rank(g, r, s, forward, n, (k - 1) as nat, t[i]);
        let e = edges(g, t[i], forward);
        let j = choose|j: int| 0 <= j < e.len() && e[j] == z;
        assert(r[e[j]] < r[t[i]]);
        lemma_layer_in_graph(g, s, forward, k, z);
    }
}

/// Under a ranking, the walk from the neighbours of a transaction comes to an end.
proof fn lemma_ranked_walk_ends(g: Map<Id, NodeState>, r: Map<Id, nat>, x: Id, forward: bool)
    requires
        closed_graph(g),
        ranked(g, r, forward),
        g.contains_key(x),
    ensures
        layer(g, edges(g, x, forward), forward, r[x]).len() == 0,
{
    let s = edges(g, x, forward);
    assert forall|i: int| 0 <= i < s.len() implies g.contains_key(#[trigger] s[i]) && r[s[i]] < r[x] by {
        if forward {
            assert(g.contains_key(g[x].dependencies[i]));
        } else {
            assert(g.contains_key(g[x].dependents[i]));
        }
    }
    let l = layer(g, s, forward, r[x]);
    if l.len() > 0 {
        assert(l.contains(l[0]));
        lemma_layer_rank(g, r, s, forward, r[x], r[x], l[0]);
    }
}

/// Elements of one start sequence that all occur in another give layers whose elements all
/// occur in the layers of the other.
proof fn lemma_layer_mono(g: Map<Id, NodeState>, t: Seq<Id>, u: Seq<Id>, forward: bool, k: nat, z: Id)
    requires
        forall|i: int| 0 <= i < t.len() ==> u.contains(#[trigger] t[i]),
        layer(g, t, forward, k).contains(z),
    ensures
        layer(g, u, forward, k).contains(z),
    decreases k,
{
    if k == 0 {
        let i = choose|i: int| 0 <= i < t.len() && t[i] == z;
    } else {
        let lt = layer(g, t, forward, (k - 1) as nat);
        let lu = layer(g, u, forward, (k - 1) as nat);
        lemma_next_layer_contains(g, lt, forward, z);
        let i = choose|i: int| 0 <= i < lt.len() && #[trigger] edges(g, lt[i], forward).contains(z);
        assert(lt.contains(lt[i]));
        lemma_layer_mono(g, t, u, forward, (k - 1) as nat, lt[i]);
        let j = choose|j: int| 0 <= j < lu.len() && lu[j] == lt[i];
        lemma_next_layer_contains(g, lu, forward, z);
    }
}

/// Reaching is closed under a step back: a neighbour that reaches `b`, or is `b`, makes its
/// origin reach `b`.
proof fn lemma_reaches_step(g: Map<Id, NodeState>, x: Id, d: Id, b: Id, forward: bool)
    requires
        edges(g, x, forward).contains(d),
        d == b || reaches(g, d, b, forward),
    ensures
        reaches(g, x, b, forward),
{
    let s = edges(g, x, forward);
    if d == b {
        assert(layer(g, s, forward, 0).contains(b));
    } else {
        let k = choose|k: nat| #[trigger] layer(g, edges(g, d, forward), forward, k).contains(b);
        let ns = next_layer(g, s, forward);
        let j = choose|j: int| 0 <= j < s.len() && s[j] == d;
        assert forall|i: int| 0 <= i < edges(g, d, forward).len() implies ns.contains(
            #[trigger] edges(g, d, forward)[i],
        ) by {
            let e = edges(g, d, forward);
            assert(e.contains(e[i]));
            assert(edges(g, s[j], forward).contains(e[i]));
            lemma_next_layer_contains(g, s, forward, e[i]);
        }
        lemma_layer_mono(g, edges(g, d, forward), ns, forward, k, b);
        lemma_layer_shift(g, s, forward, k);
        assert(layer(g, s, forward, k + 1).contains(b));
    }
}


/// `x` fails when `id` fails: it is `id` or depends on it, directly or not.
pub open spec fn fails_with(g: Map<Id, NodeState>, id: Id, x: Id) -> bool {
    x == id || reaches(g, id, x, false)
}

/// The tracker after `id` failed: `id` and every transaction that depends on it, directly or
/// not, has failed; nothing else changes.
pub open spec fn failed_state(g: Map<Id, NodeState>, id: Id) -> Map<Id, NodeState> {
    Map::new(
        |x: Id| g.contains_key(x),
        |x: Id|
            if fails_with(g, id, x) {
                NodeState { status: Status::Failed, ..g[x] }
            } else {
                g[x]
            },
    )
}

/// The walk from a single transaction meets exactly that transaction and those it reaches.
proof fn lemma_walk_from_single(g: Map<Id, NodeState>, id: Id, forward: bool, x: Id)
    ensures
        (exists|j: nat| #[trigger] layer(g, seq![id], forward, j).contains(x)) <==> (x == id
            || reaches(g, id, x, forward)),
{
    let s = seq![id];
    lemma_next_layer_single(g, id, forward);
    if exists|j: nat| #[trigger] layer(g, s, forward, j).contains(x) {
        let j = choose|j: nat| #[trigger] layer(g, s, forward, j).contains(x);
        if j == 0 {
            assert(s[0] == id);
        } else {
            lemma_layer_shift(g, s, forward, (j - 1) as nat);
            assert(layer(g, edges(g, id, forward), forward, (j - 1) as nat).contains(x));
        }
    }
    if x == id {
        assert(layer(g, s, forward, 0).contains(x));
    } else if reaches(g, id, x, forward) {
        let j = choose|j: nat| #[trigger] layer(g, edges(g, id, forward), forward, j).contains(x);
        lemma_layer_shift(g, s, forward, j);
        assert(layer(g, s, forward, j + 1).contains(x));
    }
}


/// A dependent of a transaction that fails with `id` fails with `id` too.
proof fn lemma_fails_with_step(g: Map<Id, NodeState>, id: Id, y: Id, x: Id)
    requires
        g.contains_key(y),
        fails_with(g, id, y),
        g[y].dependents.contains(x),
    ensures
        fails_with(g, id, x),
{
    lemma_walk_from_single(g, id, false, y);
    let j = choose|j: nat| #[trigger] layer(g, seq![id], false, j).contains(y);
    let t = layer(g, seq![id], false, j);
    let i = choose|i: int| 0 <= i < t.len() && t[i] == y;
    assert(edges(g, t[i], false).contains(x));
    lemma_next_layer_contains(g, t, false, x);
    assert(layer(g, seq![id], false, j + 1).contains(x));
    lemma_walk_from_single(g, id, false, x);
}

/// `a` holds every dependent of each of its transactions.
pub open spec fn dependents_closed(g: Map<Id, NodeState>, a: Seq<Id>) -> bool {
    forall|y: Id, x: Id|
        #![trigger a.contains(y), g[y].dependents.contains(x)]
        a.contains(y) && g.contains_key(y) && g[y].dependents.contains(x) ==> a.contains(x)
}

/// A sequence that holds `id` and is closed under dependents holds every layer of the walk
/// over dependents from `id`.
proof fn lemma_layers_in_closed(g: Map<Id, NodeState>, id: Id, a: Seq<Id>, j: nat, x: Id)
    requires
        a.contains(id),
        dependents_closed(g, a),
        layer(g, seq![id], false, j).contains(x),
    ensures
        a.contains(x),
    decreases j,
{
    if j == 0 {
        assert(seq![id][0] == id);
    } else {
        let t = layer(g, seq![id], false, (j - 1) as nat);
        lemma_next_layer_contains(g, t, false, x);
        let i = choose|i: int| 0 <= i < t.len() && #[trigger] edges(g, t[i], false).contains(x);
        assert(t.contains(t[i]));
        lemma_layers_in_closed(g, id, a, (j - 1) as nat, t[i]);
        assert(g.contains_key(t[i]));
        assert(g[t[i]].dependents.contains(x));
    }
}

/// A sequence that holds `id` and is closed under dependents holds every transaction that
/// fails with `id`.
proof fn lemma_closed_holds_failing(g: Map<Id, NodeState>, id: Id, a: Seq<Id>, x: Id)
    requires
        a.contains(id),
        dependents_closed(g, a),
        fails_with(g, id, x),
    ensures
        a.contains(x),
{
    lemma_walk_from_single(g, id, false, x);
    let j = choose|j: nat| #[trigger] layer(g, seq![id], false, j).contains(x);
    lemma_layers_in_closed(g, id, a, j, x);
}

/// A sequence without repeats of transactions of the tracker is no longer than the tracker.
proof fn lemma_distinct_bound(g: Map<Id, NodeState>, a: Seq<Id>)
    requires
        g.dom().finite(),
        a.no_duplicates(),
        forall|i: int| 0 <= i < a.len() ==> g.contains_key(#[trigger] a[i]),
    ensures
        a.len() <= g.dom().len(),
{
    a.unique_seq_to_set();
    assert forall|x: Id| a.to_set().contains(x) implies g.dom().contains(x) by {
        let i = choose|i: int| 0 <= i < a.len() && a[i] == x;
    }
    vstd::set_lib::lemma_len_subset(a.to_set(), g.dom());
}

/// One round of failing: the transactions of `cur` are taken in order, with those of `a`
/// already failed. One not yet failed fails and queues its dependents for the next round; one
/// that already failed is passed over. Gives the failed transactions after the round and the
/// queue of the next one.
pub open spec fn fail_round(g: Map<Id, NodeState>, cur: Seq<Id>, a: Seq<Id>) -> (Seq<Id>, Seq<Id>)
    decreases cur.len(),
{
    if cur.len() == 0 {
        (a, Seq::empty())
    } else {
        let before = fail_round(g, cur.drop_last(), a);
        let x = cur.last();
        if before.0.contains(x) {
            before
        } else {
            (before.0.push(x), before.1 + g[x].dependents)
        }
    }
}

/// At most `rounds` rounds of failing, starting from the queue `cur` with those of `a`
/// already failed; the rounds stop early once the queue is empty.
pub open spec fn fail_rounds(g: Map<Id, NodeState>, cur: Seq<Id>, a: Seq<Id>, rounds: nat) -> Seq<Id>
    decreases rounds,
{
    if rounds == 0 || cur.len() == 0 {
        a
    } else {
        fail_rounds(g, fail_round(g, cur, a).1, fail_round(g, cur, a).0, (rounds - 1) as nat)
    }
}

/// The transactions that fail, in the order in which they fail, when `id` fails: each round
/// fails at least one new transaction or is the last, so one round more than there are
/// transactions is enough.
pub open spec fn fail_order(g: Map<Id, NodeState>, id: Id) -> Seq<Id> {
    fail_rounds(g, seq![id], Seq::empty(), g.dom().len() + 1)
}

/// The tracker after the transactions of `a` failed; nothing else changes.
pub open spec fn failed_among(g: Map<Id, NodeState>, a: Seq<Id>) -> Map<Id, NodeState> {
    Map::new(
        |x: Id| g.contains_key(x),
        |x: Id|
            if a.contains(x) {
                NodeState { status: Status::Failed, ..g[x] }
            } else {
                g[x]
            },
    )
}

/// Holds of every identifier but `x`.
pub open spec fn other_than(x: Id) -> spec_fn(Id) -> bool {
    |d: Id| d != x
}

/// Holds of every identifier that `a` does not contain.
pub open spec fn not_in(a: Seq<Id>) -> spec_fn(Id) -> bool {
    |d: Id| !a.contains(d)
}

/// Leaves out every occurrence of `x`.
pub open spec fn without(s: Seq<Id>, x: Id) -> Seq<Id> {
    s.filter(other_than(x))
}

/// Leaves out every element of `a`.
pub open spec fn without_all(s: Seq<Id>, a: Seq<Id>) -> Seq<Id> {
    s.filter(not_in(a))
}

/// Filtering by two predicates that agree everywhere gives the same sequence.
proof fn lemma_filter_ext(s: Seq<Id>, p: spec_fn(Id) -> bool, q: spec_fn(Id) -> bool)
    requires
        forall|d: Id| #[trigger] p(d) == q(d),
    ensures
        s.filter(p) == s.filter(q),
    decreases s.len(),
{
    reveal(Seq::filter);
    if s.len() > 0 {
        lemma_filter_ext(s.drop_last(), p, q);
    }
}

/// Filtering twice is filtering by both predicates.
proof fn lemma_filter_twice(s: Seq<Id>, p: spec_fn(Id) -> bool, q: spec_fn(Id) -> bool)
    ensures
        s.filter(p).filter(q) == s.filter(|d: Id| p(d) && q(d)),
    decreases s.len(),
{
    reveal(Seq::filter);
    if s.len() > 0 {
        lemma_filter_twice(s.drop_last(), p, q);
        let t = s.drop_last().filter(p);
        if p(s.last()) {
            t.lemma_filter_push(s.last(), q);
        }
    }
}

/// Leaving out all of `a` and then `x` is leaving out all of `a` with `x` pushed.
proof fn lemma_without_push(s: Seq<Id>, a: Seq<Id>, x: Id)
    ensures
        without(without_all(s, a), x) == without_all(s, a.push(x)),
{
    let p = not_in(a);
    let q = other_than(x);
    lemma_filter_twice(s, p, q);
    let pq = |d: Id| p(d) && q(d);
    let ax = not_in(a.push(x));
    assert forall|d: Id| #[trigger] pq(d) == ax(d) by {
        if a.push(x).contains(d) && d != x {
            let j = choose|j: int| 0 <= j < a.push(x).len() && a.push(x)[j] == d;
            assert(a[j] == d);
        }
        if a.contains(d) {
            let j = choose|j: int| 0 <= j < a.len() && a[j] == d;
            assert(a.push(x)[j] == d);
        }
        if d == x {
            assert(a.push(x)[a.len() as int] == d);
        }
    }
    lemma_filter_ext(s, pq, ax);
}

/// Leaving out what a sequence of sets agree on gives the same result.
proof fn lemma_without_all_same(s: Seq<Id>, a: Seq<Id>, b: Seq<Id>)
    requires
        forall|d: Id| a.contains(d) == b.contains(d),
    ensures
        without_all(s, a) == without_all(s, b),
{
    lemma_filter_ext(s, not_in(a), not_in(b));
}

/// A sequence with all of `a` left out is empty exactly when `a` holds every element.
proof fn lemma_without_all_empty(s: Seq<Id>, a: Seq<Id>)
    ensures
        (without_all(s, a).len() == 0) == (forall|d: Id| s.contains(d) ==> a.contains(d)),
{
    let p = not_in(a);
    broadcast use vstd::seq_lib::group_filter_ensures;
    if without_all(s, a).len() == 0 {
        assert forall|d: Id| s.contains(d) implies a.contains(d) by {
            let i = choose|i: int| 0 <= i < s.len() && s[i] == d;
            if !a.contains(d) {
                s.lemma_filter_contains(p, i);
                let f = s.filter(p);
                assert(f.contains(d));
            }
        }
    } else {
        let f = s.filter(p);
        assert(f.contains(f[0]));
        s.lemma_filter_contains_rev(p, f[0]);
        s.lemma_filter_pred(p, 0);
    }
}

/// The elements of a filtered sequence are elements of the sequence.
proof fn lemma_filter_subset(s: Seq<Id>, p: spec_fn(Id) -> bool, e: Id)
    requires
        s.filter(p).contains(e),
    ensures
        s.contains(e),
        p(e),
{
    s.lemma_filter_contains_rev(p, e);
    let f = s.filter(p);
    let i = choose|i: int| 0 <= i < f.len() && f[i] == e;
    s.lemma_filter_pred(p, i);
}


/// `x` is a dependent of an element of `a`.
pub open spec fn justified(g: Map<Id, NodeState>, a: Seq<Id>, x: Id) -> bool {
    exists|y: Id| a.contains(y) && #[trigger] g[y].dependents.contains(x)
}


/// The tracker after `id` came to depend on `dependency`: each lists the other.
pub open spec fn with_dependency(g: Map<Id, NodeState>, id: Id, dependency: Id) -> Map<Id, NodeState> {
    g.insert(id, NodeState { dependencies: g[id].dependencies.push(dependency), ..g[id] }).insert(
        dependency,
        NodeState { dependents: g[dependency].dependents.push(id), ..g[dependency] },
    )
}

/// Adding the dependency of `id` on `dependency` would close a cycle: `id` is the dependency or
/// one of its recorded dependencies, direct or not.
pub open spec fn causes_cycle(g: Map<Id, NodeState>, id: Id, dependency: Id) -> bool {
    id == dependency || reaches(g, dependency, id, true)
}

/// Every element of `s` is an element of `a`.
pub open spec fn all_in(s: Seq<Id>, a: Seq<Id>) -> bool {
    forall|d: Id| s.contains(d) ==> a.contains(d)
}

/// `a` is the set of transactions that finishing `id` finishes in `g`:
/// `id` is in it exactly when it has no unfinished dependency; a dependent of a member whose
/// dependencies are all members is a member; and every member other than `id` is a dependent of
/// a member whose dependencies are all members.
pub open spec fn finish_closed(g: Map<Id, NodeState>, id: Id, a: Seq<Id>) -> bool {
    &&& (a.contains(id) <==> g[id].dependencies.len() == 0)
    &&& forall|y: Id, x: Id|
        #![trigger a.contains(y), g[y].dependents.contains(x)]
        a.contains(y) && g[y].dependents.contains(x) && all_in(g[x].dependencies, a)
            ==> a.contains(x)
    &&& forall|x: Id|
        #[trigger] a.contains(x) ==> g.contains_key(x) && all_in(g[x].dependencies, a)
            && (x == id || exists|y: Id|
            a.contains(y) && #[trigger] g[y].dependents.contains(x))
}

/// One round of finishing: the transactions of `cur` are taken in order, with those of `a`
/// finished in this call. One that has not finished in this call and whose dependencies have
/// all finished finishes and queues its dependents for the next round; one that still waits,
/// or has already finished in this call, is passed over. Gives the finished transactions after the round and
/// the queue of the next one.
pub open spec fn finish_round(g: Map<Id, NodeState>, cur: Seq<Id>, a: Seq<Id>) -> (Seq<Id>, Seq<Id>)
    decreases cur.len(),
{
    if cur.len() == 0 {
        (a, Seq::empty())
    } else {
        let before = finish_round(g, cur.drop_last(), a);
        let x = cur.last();
        if without_all(g[x].dependencies, before.0).len() == 0 && !before.0.contains(x) {
            (before.0.push(x), before.1 + g[x].dependents)
        } else {
            before
        }
    }
}

/// At most `rounds` rounds of finishing, starting from the queue `cur` with those of `a`
/// already finished; the rounds stop early once the queue is empty.
pub open spec fn finish_rounds(g: Map<Id, NodeState>, cur: Seq<Id>, a: Seq<Id>, rounds: nat) -> Seq<Id>
    decreases rounds,
{
    if rounds == 0 || cur.len() == 0 {
        a
    } else {
        finish_rounds(g, finish_round(g, cur, a).1, finish_round(g, cur, a).0, (rounds - 1) as nat)
    }
}

/// The transactions that finish, in the order in which they finish, when `id` finishes: each
/// round finishes at least one new transaction or is the last, so one round more than there
/// are transactions is enough.
pub open spec fn finish_order(g: Map<Id, NodeState>, id: Id) -> Seq<Id> {
    finish_rounds(g, seq![id], Seq::empty(), g.dom().len() + 1)
}

/// The tracker after the transactions of `a` finished: they are finished and no longer listed
/// as dependencies; nothing else changes.
pub open spec fn finished_state(g: Map<Id, NodeState>, a: Seq<Id>) -> Map<Id, NodeState> {
    Map::new(
        |x: Id| g.contains_key(x),
        |x: Id|
            NodeState {
                dependents: g[x].dependents,
                dependencies: without_all(g[x].dependencies, a),
                status: if a.contains(x) {
                    Status::Finished
                } else {
                    g[x].status
                },
            },
    )
}


/// Filtering by a predicate that holds everywhere keeps the sequence.
proof fn lemma_filter_all(s: Seq<Id>)
    ensures
        s.filter(|d: Id| true) == s,
    decreases s.len(),
{
    reveal(Seq::filter);
    if s.len() > 0 {
        lemma_filter_all(s.drop_last());
        assert(s.drop_last().push(s.last()) =~= s);
    }
}

/// Leaving out an element that does not occur keeps the sequence.
proof fn lemma_filter_keeps_when_absent(s: Seq<Id>, x: Id)
    requires
        !s.contains(x),
    ensures
        without(s, x) == s,
    decreases s.len(),
{
    reveal(Seq::filter);
    if s.len() > 0 {
        assert(!s.drop_last().contains(x)) by {
            if s.drop_last().contains(x) {
                let i = choose|i: int| 0 <= i < s.drop_last().len() && s.drop_last()[i] == x;
                assert(s[i] == x);
            }
        }
        lemma_filter_keeps_when_absent(s.drop_last(), x);
        assert(s.last() != x) by {
            if s.last() == x {
                assert(s[s.len() - 1] == x);
            }
        }
        assert(s.drop_last().push(s.last()) =~= s);
    }
}


/// A transaction that depends on another cannot become a dependency of it: once `a` depends on
/// `b`, adding a dependency of `b` on `a` causes a cycle.
pub proof fn lemma_no_mutual_dependency(g: Map<Id, NodeState>, a: Id, b: Id)
    requires
        g.contains_key(a),
        g.contains_key(b),
        a != b,
    ensures
        causes_cycle(with_dependency(g, a, b), b, a),
{
    let g1 = with_dependency(g, a, b);
    assert(g1[a].dependencies == g[a].dependencies.push(b));
    assert(edges(g1, a, true)[g[a].dependencies.len() as int] == b);
    assert(layer(g1, edges(g1, a, true), true, 0).contains(b));
}

/// A transaction can never depend on itself.
pub proof fn lemma_no_self_dependency(g: Map<Id, NodeState>, a: Id)
    ensures
        causes_cycle(g, a, a),
{
}

/// When a transaction fails, each of its dependents fails with it.
pub proof fn lemma_fail_reaches_dependents(g: Map<Id, NodeState>, id: Id, x: Id)
    requires
        g.contains_key(id),
        g.contains_key(x),
        g[id].dependents.contains(x),
    ensures
        failed_state(g, id)[x].status == Status::Failed,
{
    assert(edges(g, id, false).contains(x));
    lemma_reaches_step(g, id, x, x, false);
}

/// Failing a transaction changes no dependency and no dependent, and leaves the transactions
/// that do not depend on it as they were.
pub proof fn lemma_fail_keeps_others(g: Map<Id, NodeState>, id: Id, x: Id)
    requires
        g.contains_key(x),
    ensures
        failed_state(g, id)[x].dependencies == g[x].dependencies,
        failed_state(g, id)[x].dependents == g[x].dependents,
        !fails_with(g, id, x) ==> failed_state(g, id)[x] == g[x],
{
}

/// A tracker of transactions and the dependencies between them.
pub struct DependencyTracker {
    keys: KeySlots,
    nodes: HashMap<u64, TrackerNode>,
    failed: Vec<Id>,
    finished: Vec<Id>,
}

spec fn node_state(n: TrackerNode) -> NodeState {
    NodeState { dependents: n.dependents@, dependencies: n.dependencies@, status: n.status }
}

impl View for DependencyTracker {
    type V = Map<Id, NodeState>;

    closed spec fn view(&self) -> Map<Id, NodeState> {
        Map::new(|i: Id| self.nodes@.contains_key(i.key), |i: Id| node_state(self.nodes@[i.key]))
    }
}

impl DependencyTracker {
    /// The transactions that failed since the last [`DependencyTracker::drain_failed`].
    pub closed spec fn failed_ids(&self) -> Seq<Id> {
        self.failed@
    }

    /// The transactions that finished since the last [`DependencyTracker::drain_finished`].
    pub closed spec fn finished_ids(&self) -> Seq<Id> {
        self.finished@
    }

    /// The tracker is well formed: its keys are those of its transactions, every neighbour is a
    /// transaction of the tracker, dependencies are mirrored by dependents and no transaction
    /// depends on itself.
    pub closed spec fn wf(&self) -> bool {
        &&& slot_keys(self.keys) == self.nodes@.dom()
        &&& self.nodes@.dom().finite()
        &&& closed_graph(self@)
        &&& mirrored(self@)
        &&& dependencies_acyclic(self@)
    }

    proof fn lemma_view_len(&self)
        requires
            self.nodes@.dom().finite(),
        ensures
            self@.dom().finite(),
            self@.dom().len() == self.nodes@.dom().len(),
    {
        let f = |k: u64| Id { key: k };
        assert(self.nodes@.dom().map(f) =~= self@.dom()) by {
            assert forall|i: Id| self@.dom().contains(i) implies self.nodes@.dom().map(f).contains(
                i,
            ) by {
                assert(f(i.key) == i);
            }
        }
        vstd::set_lib::lemma_map_size(self.nodes@.dom(), self@.dom(), f);
    }


    /// The neighbours of a transaction in a closed graph are transactions of the graph.
    proof fn lemma_edges_in_graph(&self, x: Id, forward: bool)
        requires
            self.wf(),
            self@.contains_key(x),
        ensures
            forall|i: int|
                0 <= i < edges(self@, x, forward).len() ==> self@.contains_key(
                    #[trigger] edges(self@, x, forward)[i],
                ),
    {
        let g = self@;
        assert forall|i: int| 0 <= i < edges(g, x, forward).len() implies g.contains_key(
            #[trigger] edges(g, x, forward)[i],
        ) by {
            if forward {
                assert(g.contains_key(g[x].dependencies[i]));
            } else {
                assert(g.contains_key(g[x].dependents[i]));
            }
        }
    }

    /// Pushes the neighbours of `x` onto `stack`.
    fn push_neighbours(&self, x: Id, forward: bool, stack: &mut Vec<Id>)
        requires
            self.wf(),
            self@.contains_key(x),
        ensures
            final(stack)@ == old(stack)@ + edges(self@, x, forward),
    {
        let node = self.nodes.get(&x.key).unwrap();
        let list = if forward {
            &node.dependencies
        } else {
            &node.dependents
        };
        assert(list@ == edges(self@, x, forward));
        let mut j: usize = 0;
        while j < list.len()
            invariant
                j <= list.len(),
                stack@ == old(stack)@ + list@.take(j as int),
            decreases list.len() - j,
        {
            stack.push(list[j]);
            assert(list@.take(j + 1) =~= list@.take(j as int).push(list@[j as int]));
            j += 1;
        }
        assert(list@.take(list.len() as int) =~= list@);
    }

    /// Whether `target` is reached from `start` by following dependencies (`forward`) or
    /// dependents, searched layer by layer.
    fn search(&self, start: Id, target: Id, forward: bool) -> (found: bool)
        requires
            self.wf(),
            self@.contains_key(start),
            search_ends(self@, edges(self@, start, forward), target, forward),
        ensures
            found == reaches(self@, start, target, forward),
    {
        let ghost g = self@;
        let ghost s0 = edges(g, start, forward);
        proof {
            self.lemma_edges_in_graph(start, forward);
        }
        let mut stack: Vec<Id> = Vec::new();
        self.push_neighbours(start, forward, &mut stack);
        assert(stack@ =~= s0);
        let ghost kmax: nat = choose|k: nat|
            #[trigger] layer(g, s0, forward, k).len() == 0 || layer(g, s0, forward, k).contains(target);
        let ghost mut k: nat = 0;
        while stack.len() > 0
            invariant
                self.wf(),
                g == self@,
                s0 == edges(g, start, forward),
                forall|i: int| 0 <= i < s0.len() ==> g.contains_key(#[trigger] s0[i]),
                stack@ == layer(g, s0, forward, k),
                k <= kmax,
                layer(g, s0, forward, kmax).len() == 0 || layer(g, s0, forward, kmax).contains(target),
                forall|j: nat| j < k ==> !(#[trigger] layer(g, s0, forward, j)).contains(target),
            decreases kmax - k,
        {
            let mut cur: Vec<Id> = Vec::new();
            std::mem::swap(&mut cur, &mut stack);
            let mut i: usize = 0;
            while i < cur.len()
                invariant
                    self.wf(),
                    g == self@,
                    s0 == edges(g, start, forward),
                    forall|i: int| 0 <= i < s0.len() ==> g.contains_key(#[trigger] s0[i]),
                    cur@ == layer(g, s0, forward, k),
                    i <= cur.len(),
                    stack@ == next_layer(g, cur@.take(i as int), forward),
                    forall|j: int| 0 <= j < i ==> cur@[j] != target,
                decreases cur.len() - i,
            {
                let x = cur[i];
                if x == target {
                    proof {
                        assert(layer(g, s0, forward, k).contains(target));
                        assert(layer(self@, edges(self@, start, forward), forward, k).contains(target));
                    }
                    return true;
                }
                proof {
                    assert(cur@.contains(x));
                    lemma_layer_in_graph(g, s0, forward, k, x);
                    let t = cur@.take(i + 1);
                    assert(t.drop_last() =~= cur@.take(i as int));
                    assert(t.last() == x);
                }
                self.push_neighbours(x, forward, &mut stack);
                i += 1;
            }
            proof {
                assert(cur@.take(cur.len() as int) =~= cur@);
                if k == kmax {
                    assert(cur@.len() > 0);
                    let w = choose|w: int| 0 <= w < cur@.len() && cur@[w] == target;
                    assert(false);
                }
                assert(!layer(g, s0, forward, k).contains(target));
            }
            proof {
                k = k + 1;
            }
        }
        proof {
            assert forall|j: nat| !(#[trigger] layer(g, s0, forward, j)).contains(target) by {
                if j >= k {
                    lemma_layer_empty_after(g, s0, forward, k, j);
                }
            }
        }
        false
    }


    /// Removes every occurrence of `x` from `v`.
    fn vec_without(v: &Vec<Id>, x: Id) -> (r: Vec<Id>)
        ensures
            r@ == without(v@, x),
    {
        let mut r: Vec<Id> = Vec::new();
        let mut i: usize = 0;
        while i < v.len()
            invariant
                i <= v.len(),
                r@ == without(v@.take(i as int), x),
            decreases v.len() - i,
        {
            let d = v[i];
            proof {
                assert(v@.take(i + 1) =~= v@.take(i as int).push(d));
                v@.take(i as int).lemma_filter_push(d, other_than(x));
            }
            if d != x {
                r.push(d);
            }
            i += 1;
        }
        assert(v@.take(v.len() as int) =~= v@);
        r
    }

    /// Removes `x` from the dependencies of `z`.
    fn remove_dependency(&mut self, z: Id, x: Id)
        requires
            old(self).wf(),
            old(self)@.contains_key(z),
        ensures
            final(self).wf(),
            final(self)@ == old(self)@.insert(
                z,
                NodeState { dependencies: without(old(self)@[z].dependencies, x), ..old(self)@[z] },
            ),
            final(self).failed_ids() == old(self).failed_ids(),
            final(self).finished_ids() == old(self).finished_ids(),
    {
        let ghost g = self@;
        let mut node = self.nodes.remove(&z.key).unwrap();
        node.dependencies = Self::vec_without(&node.dependencies, x);
        self.nodes.insert(z.key, node);
        proof {
            let nd = without(g[z].dependencies, x);
            let g1 = g.insert(z, NodeState { dependencies: nd, ..g[z] });
            assert(self@ =~= g1);
            assert(self.nodes@.dom() =~= old(self).nodes@.dom());
            assert forall|i: int| 0 <= i < nd.len() implies g[z].dependencies.contains(#[trigger] nd[i]) by {
                assert(nd.contains(nd[i]));
                lemma_filter_subset(g[z].dependencies, other_than(x), nd[i]);
            }
            assert forall|y: Id, i: int|
                #![trigger g1[y].dependencies[i]]
                #![trigger g1[y].dependents[i]]
                g1.contains_key(y) implies {
                    &&& (0 <= i < g1[y].dependencies.len() ==> g1.contains_key(g1[y].dependencies[i]))
                    &&& (0 <= i < g1[y].dependents.len() ==> g1.contains_key(g1[y].dependents[i]))
                } by {
                if y == z && 0 <= i < nd.len() {
                    let j = choose|j: int| 0 <= j < g[z].dependencies.len() && g[z].dependencies[j] == nd[i];
                    assert(g.contains_key(g[z].dependencies[j]));
                } else if 0 <= i < g1[y].dependencies.len() {
                    assert(g.contains_key(g[y].dependencies[i]));
                }
                if 0 <= i < g1[y].dependents.len() {
                    assert(g.contains_key(g[y].dependents[i]));
                }
            }
            assert(closed_graph(g1));
            assert forall|y: Id, i: int|
                g1.contains_key(y) && 0 <= i < g1[y].dependencies.len() implies g1[g1[y].dependencies[i]].dependents.contains(
                    y,
                ) by {
                if y == z {
                    let j = choose|j: int| 0 <= j < g[z].dependencies.len() && g[z].dependencies[j] == nd[i];
                    assert(g[g[z].dependencies[j]].dependents.contains(z));
                } else {
                    assert(g[g[y].dependencies[i]].dependents.contains(y));
                }
            }
            assert(mirrored(g1));
            let r = choose|r: Map<Id, nat>| ranked(g, r, true);
            assert forall|y: Id| #[trigger] g1.contains_key(y) implies r.contains_key(y) && forall|i: int|
                0 <= i < edges(g1, y, true).len() ==> r.contains_key(edges(g1, y, true)[i])
                    && #[trigger] r[edges(g1, y, true)[i]] < r[y] by {
                assert(g.contains_key(y));
                assert forall|i: int| 0 <= i < edges(g1, y, true).len() implies r.contains_key(
                    edges(g1, y, true)[i],
                ) && #[trigger] r[edges(g1, y, true)[i]] < r[y] by {
                    if y == z {
                        let j = choose|j: int| 0 <= j < g[z].dependencies.len() && g[z].dependencies[j] == nd[i];
                        assert(edges(g, z, true)[j] == nd[i]);
                    } else {
                        assert(edges(g, y, true)[i] == edges(g1, y, true)[i]);
                    }
                }
            }
            assert(ranked(g1, r, true));
        }
    }

    /// Sets the status of a transaction, keeping its dependencies and dependents.
    fn set_status(&mut self, x: Id, status: Status)
        requires
            old(self).wf(),
            old(self)@.contains_key(x),
        ensures
            final(self).wf(),
            final(self)@ == old(self)@.insert(
                x,
                NodeState { status, ..old(self)@[x] },
            ),
            final(self).failed_ids() == old(self).failed_ids(),
            final(self).finished_ids() == old(self).finished_ids(),
    {
        let ghost g = self@;
        let mut node = self.nodes.remove(&x.key).unwrap();
        node.status = status;
        self.nodes.insert(x.key, node);
        proof {
            let g1 = g.insert(x, NodeState { status, ..g[x] });
            assert(self@ =~= g1);
            assert(self.nodes@.dom() =~= old(self).nodes@.dom());
            assert forall|y: Id| #[trigger] g1.contains_key(y) implies g1[y].dependencies == g[y].dependencies
                && g1[y].dependents == g[y].dependents by {}
            assert(closed_graph(g1));
            assert(mirrored(g1));
            let r = choose|r: Map<Id, nat>| ranked(g, r, true);
            assert forall|y: Id| #[trigger] g1.contains_key(y) implies edges(g1, y, true) == edges(g, y, true) by {}
            assert(ranked(g1, r, true));
        }
    }

    pub fn new() -> (t: Self)
        ensures
            t.wf(),
            t@ == Map::<Id, NodeState>::empty(),
            t.failed_ids() == Seq::<Id>::empty(),
            t.finished_ids() == Seq::<Id>::empty(),
    {
        let t = DependencyTracker {
            keys: slots_new(),
            nodes: HashMap::new(),
            failed: Vec::new(),
            finished: Vec::new(),
        };
        assert(t@ =~= Map::<Id, NodeState>::empty());
        assert(ranked(t@, Map::<Id, nat>::empty(), true));
        t
    }

    /// Returns the status of a transaction, or [`None`] when the tracker does not know it.
    pub fn get_status(&self, id: Id) -> (s: Option<Status>)
        requires
            self.wf(),
        ensures
            s == (if self@.contains_key(id) { Some(self@[id].status) } else { None::<Status> }),
    {
        match self.nodes.get(&id.key) {
            Some(node) => Some(node.status),
            None => None,
        }
    }

    /// Creates a new queued transaction with no dependency.
    pub fn create_id(&mut self) -> (id: Id)
        requires
            old(self).wf(),
            old(self)@.len() < 0xffff_fffe,
        ensures
            final(self).wf(),
            !old(self)@.contains_key(id),
            final(self)@ == old(self)@.insert(id, fresh_node()),
            final(self).failed_ids() == old(self).failed_ids(),
            final(self).finished_ids() == old(self).finished_ids(),
    {
        proof {
            self.lemma_view_len();
        }
        let key = slots_insert(&mut self.keys);
        let ghost g0 = self@;
        assert(g0 =~= old(self)@);
        self.nodes.insert(
            key,
            TrackerNode { dependents: Vec::new(), dependencies: Vec::new(), status: Status::Queued },
        );
        let id = Id { key };
        proof {
            assert(self@ =~= g0.insert(id, fresh_node()));
            assert(closed_graph(g0));
            assert(dependencies_acyclic(g0));
            let r0 = choose|r: Map<Id, nat>| ranked(g0, r, true);
            let r1 = r0.insert(id, 0);
            assert forall|x: Id| #[trigger] self@.contains_key(x) implies r1.contains_key(x) && forall|
                i: int,
            |
                0 <= i < edges(self@, x, true).len() ==> r1.contains_key(edges(self@, x, true)[i])
                    && #[trigger] r1[edges(self@, x, true)[i]] < r1[x] by {
                if x != id {
                    assert(g0.contains_key(x));
                    assert forall|i: int| 0 <= i < edges(self@, x, true).len() implies r1.contains_key(
                        edges(self@, x, true)[i],
                    ) && #[trigger] r1[edges(self@, x, true)[i]] < r1[x] by {
                        assert(edges(self@, x, true) == edges(g0, x, true));
                        assert(edges(g0, x, true)[i] == g0[x].dependencies[i]);
                        assert(g0.contains_key(g0[x].dependencies[i]));
                    }
                }
            }
            assert(ranked(self@, r1, true));
        }
        id
    }



    /// Records that `id` depends on `dependency`, when that closes no cycle of dependencies.
    fn add_edge(&mut self, id: Id, dependency: Id)
        requires
            old(self).wf(),
            old(self)@.contains_key(id),
            old(self)@.contains_key(dependency),
            id != dependency,
            !reaches(old(self)@, dependency, id, true),
        ensures
            final(self).wf(),
            final(self)@ == with_dependency(old(self)@, id, dependency),
            final(self).failed_ids() == old(self).failed_ids(),
            final(self).finished_ids() == old(self).finished_ids(),
    {
        let ghost g = self@;
        let mut node = self.nodes.remove(&id.key).unwrap();
        node.dependencies.push(dependency);
        self.nodes.insert(id.key, node);
        let mut dep = self.nodes.remove(&dependency.key).unwrap();
        dep.dependents.push(id);
        self.nodes.insert(dependency.key, dep);
        proof {
            let g1 = with_dependency(g, id, dependency);
            assert(self@ =~= g1);
            assert(self.nodes@.dom() =~= old(self).nodes@.dom());
            assert forall|y: Id, i: int|
                #![trigger g1[y].dependencies[i]]
                #![trigger g1[y].dependents[i]]
                g1.contains_key(y) implies {
                    &&& (0 <= i < g1[y].dependencies.len() ==> g1.contains_key(g1[y].dependencies[i]))
                    &&& (0 <= i < g1[y].dependents.len() ==> g1.contains_key(g1[y].dependents[i]))
                } by {
                if 0 <= i < g[y].dependencies.len() {
                    assert(g.contains_key(g[y].dependencies[i]));
                }
                if 0 <= i < g[y].dependents.len() {
                    assert(g.contains_key(g[y].dependents[i]));
                }
            }
            assert(closed_graph(g1));
            assert forall|y: Id, i: int|
                g1.contains_key(y) && 0 <= i < g1[y].dependencies.len() implies g1[g1[y].dependencies[i]].dependents.contains(
                    y,
                ) by {
                if y == id && i == g[id].dependencies.len() {
                    assert(g1[dependency].dependents[g[dependency].dependents.len() as int] == id);
                } else {
                    let d = g[y].dependencies[i];
                    assert(g[d].dependents.contains(y));
                    let w = choose|w: int| 0 <= w < g[d].dependents.len() && g[d].dependents[w] == y;
                    assert(g1[d].dependents[w] == y);
                }
            }
            assert(mirrored(g1));
            let r0 = choose|r: Map<Id, nat>| ranked(g, r, true);
            let m = r0[dependency] + 1;
            let r1 = Map::new(
                |x: Id| r0.contains_key(x),
                |x: Id|
                    if x == id || reaches(g, x, id, true) {
                        r0[x] + m
                    } else {
                        r0[x]
                    },
            );
            assert forall|x: Id| #[trigger] g1.contains_key(x) implies r1.contains_key(x) && forall|i: int|
                0 <= i < edges(g1, x, true).len() ==> r1.contains_key(edges(g1, x, true)[i])
                    && #[trigger] r1[edges(g1, x, true)[i]] < r1[x] by {
                assert(g.contains_key(x));
                assert forall|i: int| 0 <= i < edges(g1, x, true).len() implies r1.contains_key(
                    edges(g1, x, true)[i],
                ) && #[trigger] r1[edges(g1, x, true)[i]] < r1[x] by {
                    if x == id && i == g[id].dependencies.len() {
                        assert(edges(g1, x, true)[i] == dependency);
                    } else {
                        let e = edges(g, x, true)[i];
                        assert(edges(g1, x, true)[i] == e);
                        assert(r0[e] < r0[x]);
                        assert(edges(g, x, true).contains(e));
                        if e == id || reaches(g, e, id, true) {
                            lemma_reaches_step(g, x, e, id, true);
                        }
                    }
                }
            }
            assert(ranked(g1, r1, true));
        }
    }

    /// Adds a dependency to the specified transaction.
    ///
    /// Returns [`Err`] if a transaction is unknown or if adding the dependency would cause a
    /// cycle. A finished dependency is not recorded; a failed dependency makes the transaction
    /// fail.
    pub fn add_dependency(&mut self, id: Id, dependency: Id) -> (r: Result<Status, Error>)
        requires
            old(self).wf(),
        ensures
            final(self).wf(),
            final(self).finished_ids() == old(self).finished_ids(),
            (r == Err::<Status, Error>(Error::NotPresent)) == !(old(self)@.contains_key(id)
                && old(self)@.contains_key(dependency)),
            (r == Err::<Status, Error>(Error::CausesCycle)) == (old(self)@.contains_key(id)
                && old(self)@.contains_key(dependency) && causes_cycle(old(self)@, id, dependency)),
            r is Err ==> final(self)@ == old(self)@ && final(self).failed_ids() == old(
                self,
            ).failed_ids(),
            r is Ok && old(self)@[dependency].status == Status::Finished ==> r == Ok::<Status, Error>(
                Status::Queued,
            ) && final(self)@ == old(self)@ && final(self).failed_ids() == old(self).failed_ids(),
            r is Ok && old(self)@[dependency].status == Status::Queued ==> r == Ok::<Status, Error>(
                Status::Queued,
            ) && final(self)@ == with_dependency(old(self)@, id, dependency)
                && final(self).failed_ids() == old(self).failed_ids(),
            r is Ok && old(self)@[dependency].status == Status::Failed ==> {
                let a = final(self).failed_ids().skip(old(self).failed_ids().len() as int);
                &&& r == Ok::<Status, Error>(Status::Failed)
                &&& final(self)@ == failed_state(old(self)@, id)
                &&& old(self).failed_ids().len() <= final(self).failed_ids().len()
                &&& final(self).failed_ids().take(old(self).failed_ids().len() as int)
                    == old(self).failed_ids()
                &&& a == fail_order(old(self)@, id)
                &&& a.no_duplicates()
                &&& forall|x: Id| #[trigger] a.contains(x) <==> fails_with(old(self)@, id, x)
            },
    {
        if !self.nodes.contains_key(&id.key) || !self.nodes.contains_key(&dependency.key) {
            return Err(Error::NotPresent);
        }
        let ghost g = self@;
        assert(g.contains_key(id) && g.contains_key(dependency));
        if id == dependency {
            return Err(Error::CausesCycle);
        }
        proof {
            let r = choose|r: Map<Id, nat>| ranked(g, r, true);
            lemma_ranked_walk_ends(g, r, dependency, true);
            assert(layer(g, edges(g, dependency, true), true, r[dependency]).len() == 0);
        }
        if self.search(dependency, id, true) {
            return Err(Error::CausesCycle);
        }
        let status = self.nodes.get(&dependency.key).unwrap().status;
        assert(status == g[dependency].status);
        match status {
            Status::Finished => Ok(Status::Queued),
            Status::Queued => {
                self.add_edge(id, dependency);
                Ok(Status::Queued)
            },
            Status::Failed => {
                self.fail(id);
                Ok(Status::Failed)
            },
        }
    }

    /// Whether `x` occurs in `v` at or after position `start`.
    fn listed_since(v: &Vec<Id>, start: usize, x: Id) -> (r: bool)
        requires
            start <= v.len(),
        ensures
            r == v@.skip(start as int).contains(x),
    {
        let mut i: usize = start;
        while i < v.len()
            invariant
                start <= i <= v.len(),
                forall|j: int| start <= j < i ==> v@[j] != x,
            decreases v.len() - i,
        {
            if v[i] == x {
                assert(v@.skip(start as int)[i - start] == x);
                return true;
            }
            i += 1;
        }
        proof {
            if v@.skip(start as int).contains(x) {
                let j = choose|j: int| 0 <= j < v@.skip(start as int).len() && v@.skip(start as int)[j] == x;
                assert(v@[start + j] == x);
            }
        }
        false
    }

    /// Changes the status of a transaction to failed.
    ///
    /// If a transaction fails, every transaction that depends on it, directly or not, fails too.
    /// Each of them is listed once.
    ///
    /// The transactions that failed as a result of this call can be obtained with
    /// [`DependencyTracker::drain_failed`].
    pub fn fail(&mut self, id: Id)
        requires
            old(self).wf(),
        ensures
            final(self).wf(),
            final(self).finished_ids() == old(self).finished_ids(),
            !old(self)@.contains_key(id) ==> final(self)@ == old(self)@ && final(self).failed_ids()
                == old(self).failed_ids(),
            old(self)@.contains_key(id) ==> {
                let a = final(self).failed_ids().skip(old(self).failed_ids().len() as int);
                &&& final(self)@ == failed_state(old(self)@, id)
                &&& old(self).failed_ids().len() <= final(self).failed_ids().len()
                &&& final(self).failed_ids().take(old(self).failed_ids().len() as int)
                    == old(self).failed_ids()
                &&& a == fail_order(old(self)@, id)
                &&& a.no_duplicates()
                &&& forall|x: Id| #[trigger] a.contains(x) <==> fails_with(old(self)@, id, x)
            },
    {
        if !self.nodes.contains_key(&id.key) {
            return;
        }
        let ghost g = self@;
        let ghost f0 = self.failed@;
        let start = self.failed.len();
        proof {
            self.lemma_view_len();
        }
        let ghost n: nat = g.dom().len();
        let mut stack: Vec<Id> = Vec::new();
        stack.push(id);
        let ghost mut a: Seq<Id> = Seq::empty();
        let ghost mut k: nat = 0;
        proof {
            assert(self.failed@.skip(start as int) =~= a);
            assert(self@ =~= failed_among(g, a));
            assert(fails_with(g, id, id));
            assert(stack@[0] == id);
        }
        while stack.len() > 0
            invariant
                self.wf(),
                self.finished@ == old(self).finished@,
                g.contains_key(id),
                closed_graph(g),
                g.dom().finite(),
                n == g.dom().len(),
                start == f0.len(),
                f0.len() <= self.failed@.len(),
                self.failed@.take(start as int) == f0,
                self.failed@.skip(start as int) == a,
                self@ == failed_among(g, a),
                a.no_duplicates(),
                forall|i: int| 0 <= i < a.len() ==> g.contains_key(#[trigger] a[i]) && fails_with(g, id, a[i]),
                forall|i: int|
                    0 <= i < stack.len() ==> g.contains_key(#[trigger] stack@[i]) && fails_with(g, id, stack@[i]),
                forall|y: Id, x: Id|
                    #![trigger a.contains(y), g[y].dependents.contains(x)]
                    a.contains(y) && g.contains_key(y) && g[y].dependents.contains(x) ==> a.contains(x)
                        || stack@.contains(x),
                a.contains(id) || stack@.contains(id),
                stack.len() > 0 ==> k <= a.len(),
                k <= n + 1,
                fail_rounds(g, stack@, a, (n + 1 - k) as nat) == fail_order(g, id),
            decreases n + 1 - k,
        {
            let ghost a_start = a;
            proof {
                lemma_distinct_bound(g, a);
            }
            let mut cur: Vec<Id> = Vec::new();
            std::mem::swap(&mut cur, &mut stack);
            assert(cur@.take(0) =~= Seq::<Id>::empty());
            assert(cur@.skip(0) =~= cur@);
            let mut i: usize = 0;
            while i < cur.len()
                invariant
                    self.wf(),
                    self.finished@ == old(self).finished@,
                    g.contains_key(id),
                    closed_graph(g),
                    start == f0.len(),
                    f0.len() <= self.failed@.len(),
                    self.failed@.take(start as int) == f0,
                    self.failed@.skip(start as int) == a,
                    self@ == failed_among(g, a),
                    a.no_duplicates(),
                    i <= cur.len(),
                    fail_round(g, cur@.take(i as int), a_start) == (a, stack@),
                    forall|j: int| 0 <= j < a.len() ==> g.contains_key(#[trigger] a[j]) && fails_with(g, id, a[j]),
                    forall|j: int|
                        0 <= j < stack.len() ==> g.contains_key(#[trigger] stack@[j]) && fails_with(g, id, stack@[j]),
                    forall|j: int|
                        0 <= j < cur.len() ==> g.contains_key(#[trigger] cur@[j]) && fails_with(g, id, cur@[j]),
                    forall|y: Id, x: Id|
                        #![trigger a.contains(y), g[y].dependents.contains(x)]
                        a.contains(y) && g.contains_key(y) && g[y].dependents.contains(x) ==> a.contains(x)
                            || stack@.contains(x) || cur@.skip(i as int).contains(x),
                    a.contains(id) || stack@.contains(id) || cur@.skip(i as int).contains(id),
                    a_start.len() <= a.len(),
                    stack.len() > 0 ==> a_start.len() < a.len(),
                decreases cur.len() - i,
            {
                let x = cur[i];
                proof {
                    assert(cur@.take(i + 1).drop_last() =~= cur@.take(i as int));
                    assert(cur@.take(i + 1).last() == x);
                    assert(cur@.skip(i as int) =~= seq![x] + cur@.skip(i + 1));
                    assert forall|z: Id| cur@.skip(i as int).contains(z) && z != x implies cur@.skip(i + 1).contains(z) by {
                        let w = choose|w: int| 0 <= w < cur@.skip(i as int).len() && cur@.skip(i as int)[w] == z;
                        assert(cur@.skip(i + 1)[w - 1] == z);
                    }
                    assert(g.contains_key(cur@[i as int]));
                }
                if !Self::listed_since(&self.failed, start, x) {
                    let ghost t0 = stack@;
                    assert(self@.contains_key(x));
                    assert(edges(self@, x, false) == g[x].dependents);
                    self.push_neighbours(x, false, &mut stack);
                    self.failed.push(x);
                    self.set_status(x, Status::Failed);
                    proof {
                        let a1 = a.push(x);
                        assert(self.failed@.take(start as int) =~= f0);
                        assert(self.failed@.skip(start as int) =~= a1);
                        assert forall|z: Id| #[trigger] a1.contains(z) <==> a.contains(z) || z == x by {
                            if a1.contains(z) {
                                let w = choose|w: int| 0 <= w < a1.len() && a1[w] == z;
                                if w < a.len() {
                                    assert(a[w] == z);
                                }
                            }
                            if a.contains(z) {
                                let w = choose|w: int| 0 <= w < a.len() && a[w] == z;
                                assert(a1[w] == z);
                            }
                            if z == x {
                                assert(a1[a.len() as int] == z);
                            }
                        }
                        assert(self@ =~= failed_among(g, a1));
                        assert forall|j: int| 0 <= j < stack.len() implies g.contains_key(#[trigger] stack@[j])
                            && fails_with(g, id, stack@[j]) by {
                            if j < t0.len() {
                                assert(stack@[j] == t0[j]);
                            } else {
                                let w = j - t0.len();
                                assert(stack@[j] == g[x].dependents[w]);
                                assert(g[x].dependents.contains(stack@[j]));
                                assert(g.contains_key(g[x].dependents[w]));
                                lemma_fails_with_step(g, id, x, stack@[j]);
                            }
                        }
                        assert forall|y: Id, z: Id|
                            #![trigger a1.contains(y), g[y].dependents.contains(z)]
                            a1.contains(y) && g.contains_key(y) && g[y].dependents.contains(z) implies a1.contains(z)
                                || stack@.contains(z) || cur@.skip(i + 1).contains(z) by {
                            if y == x {
                                let w = choose|w: int| 0 <= w < g[x].dependents.len() && g[x].dependents[w] == z;
                                assert(stack@[t0.len() + w] == z);
                            } else {
                                assert(a.contains(y));
                                if t0.contains(z) {
                                    let w = choose|w: int| 0 <= w < t0.len() && t0[w] == z;
                                    assert(stack@[w] == z);
                                }
                            }
                        }
                        if t0.contains(id) {
                            let w = choose|w: int| 0 <= w < t0.len() && t0[w] == id;
                            assert(stack@[w] == id);
                        }
                        assert(a1.no_duplicates());
                        a = a1;
                    }
                } else {
                    proof {
                        assert(a.contains(x));
                    }
                }
                i += 1;
            }
            proof {
                assert(cur@.take(cur.len() as int) =~= cur@);
                assert(cur@.skip(cur.len() as int) =~= Seq::<Id>::empty());
                assert(k <= a_start.len());
                k = k + 1;
            }
        }
        proof {
            assert(dependents_closed(g, a));
            assert(a.contains(id));
            assert forall|x: Id| #[trigger] a.contains(x) <==> fails_with(g, id, x) by {
                if a.contains(x) {
                    let w = choose|w: int| 0 <= w < a.len() && a[w] == x;
                }
                if fails_with(g, id, x) {
                    lemma_closed_holds_failing(g, id, a, x);
                }
            }
            assert(self@ =~= failed_state(g, id));
        }
    }


    /// Changes the status of a transaction to finished.
    ///
    /// A transaction finishes only when all of its dependencies have finished. When it finishes, it
    /// is removed from the dependencies of its dependents, and those whose dependencies have then
    /// all finished finish too. A transaction that has already finished in this call is passed
    /// over, so each is listed at most once.
    ///
    /// The transactions that finished as a result of this call can be obtained with
    /// [`DependencyTracker::drain_finished`].
    pub fn finish(&mut self, id: Id)
        requires
            old(self).wf(),
        ensures
            final(self).wf(),
            final(self).failed_ids() == old(self).failed_ids(),
            !old(self)@.contains_key(id) ==> final(self)@ == old(self)@ && final(self).finished_ids()
                == old(self).finished_ids(),
            old(self)@.contains_key(id) ==> {
                let a = final(self).finished_ids().skip(old(self).finished_ids().len() as int);
                &&& old(self).finished_ids().len() <= final(self).finished_ids().len()
                &&& final(self).finished_ids().take(old(self).finished_ids().len() as int)
                    == old(self).finished_ids()
                &&& finish_closed(old(self)@, id, a)
                &&& (old(self)@[id].dependencies.len() > 0 ==> a.len() == 0)
                &&& a == finish_order(old(self)@, id)
                &&& a.no_duplicates()
                &&& final(self)@ == finished_state(old(self)@, a)
            },
    {
        if !self.nodes.contains_key(&id.key) {
            return;
        }
        let ghost g = self@;
        let ghost s0 = seq![id];
        let ghost f0 = self.finished@;
        proof {
            assert(self.finished@.skip(f0.len() as int) =~= Seq::<Id>::empty());
            assert forall|x: Id| g.contains_key(x) implies without_all(g[x].dependencies, Seq::<Id>::empty()) == g[x].dependencies by {
                let e = g[x].dependencies;
                assert(forall|d: Id| #[trigger] not_in(Seq::<Id>::empty())(d) == (|d: Id| true)(d));
                lemma_filter_ext(e, not_in(Seq::<Id>::empty()), |d: Id| true);
                lemma_filter_all(e);
            }
            assert(self@ =~= finished_state(g, Seq::<Id>::empty()));
        }
        proof {
            self.lemma_view_len();
        }
        let start = self.finished.len();
        let ghost n: nat = g.dom().len();
        let ghost ready: bool = g[id].dependencies.len() == 0;
        let mut stack: Vec<Id> = Vec::new();
        stack.push(id);
        let ghost mut k: nat = 0;
        assert(stack@ =~= s0);
        assert(self.finished@.skip(f0.len() as int) =~= Seq::<Id>::empty());
        while stack.len() > 0
            invariant
                self.wf(),
                self.failed@ == old(self).failed@,
                g.contains_key(id),
                s0 == seq![id],
                closed_graph(g),
                mirrored(g),
                f0.len() <= self.finished@.len(),
                self.finished@.take(f0.len() as int) == f0,
                start == f0.len(),
                self@ == finished_state(g, self.finished@.skip(f0.len() as int)),
                forall|x: Id|
                    #[trigger] self.finished@.skip(f0.len() as int).contains(x) ==> g.contains_key(x)
                        && all_in(g[x].dependencies, self.finished@.skip(f0.len() as int))
                        && (x == id
                        || justified(g, self.finished@.skip(f0.len() as int), x)),
                forall|i: int|
                    #![trigger stack@[i]]
                    0 <= i < stack.len() ==> g.contains_key(stack@[i]) && (stack@[i] == id
                        || justified(g, self.finished@.skip(f0.len() as int), stack@[i])),
                forall|y: Id, x: Id|
                    #![trigger self.finished@.skip(f0.len() as int).contains(y), g[y].dependents.contains(x)]
                    self.finished@.skip(f0.len() as int).contains(y) && g[y].dependents.contains(x)
                        && all_in(g[x].dependencies, self.finished@.skip(f0.len() as int))
                       
                        ==> self.finished@.skip(f0.len() as int).contains(x) || stack@.contains(x),
                k == 0 ==> stack@ == s0 && self.finished@.len() == f0.len(),
                ready == (g[id].dependencies.len() == 0),
                !ready && k > 0 ==> stack.len() == 0 && self.finished@.len() == f0.len(),
                ready && k > 0 ==> self.finished@.skip(f0.len() as int).contains(id),
                self.finished@.skip(f0.len() as int).no_duplicates(),
                g.dom().finite(),
                n == g.dom().len(),
                stack.len() > 0 ==> k <= self.finished@.skip(f0.len() as int).len(),
                k <= n + 1,
                finish_rounds(g, stack@, self.finished@.skip(f0.len() as int), (n + 1 - k) as nat)
                    == finish_order(g, id),
            decreases n + 1 - k,
        {
            let ghost a_start = self.finished@.skip(f0.len() as int);
            proof {
                assert forall|j: int| 0 <= j < a_start.len() implies g.contains_key(#[trigger] a_start[j]) by {
                    assert(a_start.contains(a_start[j]));
                }
                lemma_distinct_bound(g, a_start);
            }
            let mut cur: Vec<Id> = Vec::new();
            std::mem::swap(&mut cur, &mut stack);
            assert(cur@.take(0) =~= Seq::<Id>::empty());
            assert(cur@.skip(0) =~= cur@);
            assert(!stack@.contains(id)) by {
                assert(stack@.len() == 0);
            }
            let mut i: usize = 0;
            while i < cur.len()
                invariant
                    self.wf(),
                    self.failed@ == old(self).failed@,
                    g.contains_key(id),
                    s0 == seq![id],
                    closed_graph(g),
                    mirrored(g),
                    i <= cur.len(),
                    f0.len() <= self.finished@.len(),
                    self.finished@.take(f0.len() as int) == f0,
                start == f0.len(),
                    self@ == finished_state(g, self.finished@.skip(f0.len() as int)),
                    forall|x: Id|
                        #[trigger] self.finished@.skip(f0.len() as int).contains(x) ==> g.contains_key(
                            x,
                        ) && all_in(g[x].dependencies, self.finished@.skip(f0.len() as int))
                            && (x
                            == id || justified(g, self.finished@.skip(f0.len() as int), x)),
                    forall|j: int|
                        #![trigger cur@[j]]
                        0 <= j < cur.len() ==> g.contains_key(cur@[j]) && (cur@[j] == id
                            || justified(g, self.finished@.skip(f0.len() as int), cur@[j])),
                    forall|j: int|
                        #![trigger stack@[j]]
                        0 <= j < stack@.len() ==> g.contains_key(stack@[j]) && justified(g, self.finished@.skip(f0.len() as int), stack@[j]),
                    forall|y: Id, x: Id|
                        #![trigger self.finished@.skip(f0.len() as int).contains(y), g[y].dependents.contains(x)]
                        self.finished@.skip(f0.len() as int).contains(y) && g[y].dependents.contains(x)
                            && all_in(g[x].dependencies, self.finished@.skip(f0.len() as int))
                           
                            ==> self.finished@.skip(f0.len() as int).contains(x) || stack@.contains(x)
                            || cur@.skip(i as int).contains(x),
                    k == 0 ==> cur@ == s0,
                    k == 0 && i == 0 ==> self.finished@.len() == f0.len(),
                    ready == (g[id].dependencies.len() == 0),
                    !ready ==> stack.len() == 0 && self.finished@.len() == f0.len(),
                    !ready && k > 0 ==> cur.len() == 0,
                    ready && (k > 0 || i > 0) ==> self.finished@.skip(
                        f0.len() as int,
                    ).contains(id),
                    self.finished@.skip(f0.len() as int).no_duplicates(),
                    a_start.len() <= self.finished@.skip(f0.len() as int).len(),
                    stack.len() > 0 ==> a_start.len() < self.finished@.skip(f0.len() as int).len(),
                    finish_round(g, cur@.take(i as int), a_start) == (self.finished@.skip(f0.len() as int), stack@),
                decreases cur.len() - i,
            {
                let x = cur[i];
                let ghost a = self.finished@.skip(f0.len() as int);
                proof {
                    assert(cur@.take(i + 1).drop_last() =~= cur@.take(i as int));
                    assert(cur@.take(i + 1).last() == x);
                }
                proof {
                    assert(g.contains_key(cur@[i as int]));
                    lemma_without_all_empty(g[x].dependencies, a);
                    assert(cur@.skip(i as int) =~= seq![x] + cur@.skip(i + 1));
                    assert(self@.contains_key(x));
                    assert(self.nodes@.contains_key(x.key));
                }
                let pending = self.nodes.get(&x.key).unwrap().dependencies.len();
                let done = Self::listed_since(&self.finished, start, x);
                assert(self@[x].dependencies.len() == pending);
                if pending == 0 && !done {
                    proof {
                        if !ready {
                            assert(x == id);
                            assert(a.len() == 0);
                            assert(!a.contains(x));
                            if g[x].dependencies.len() > 0 {
                                assert(g[x].dependencies.contains(g[x].dependencies[0]));
                            }
                            assert(false);
                        }
                        assert(!a.contains(x));
                    }
                    let mut dependents: Vec<Id> = Vec::new();
                    self.push_neighbours(x, false, &mut dependents);
                    assert(dependents@ =~= g[x].dependents);
                    let ghost t0 = stack@;
                    assert(forall|v: int| #![trigger t0[v]] 0 <= v < t0.len() ==> justified(g, a, t0[v]));
                    let mut j: usize = 0;
                    while j < dependents.len()
                        invariant
                            self.wf(),
                            self.failed@ == old(self).failed@,
                            self.finished@.skip(f0.len() as int) == a,
                            self.finished@.take(f0.len() as int) == f0,
                start == f0.len(),
                            f0.len() <= self.finished@.len(),
                            g.contains_key(x),
                            closed_graph(g),
                            mirrored(g),
                            dependents@ == g[x].dependents,
                            forall|v: int| #![trigger t0[v]] 0 <= v < t0.len() ==> justified(g, a, t0[v]),
                            j <= dependents.len(),
                            stack@ == t0 + dependents@.take(j as int),
                            self@ == Map::new(
                                |w: Id| g.contains_key(w),
                                |w: Id|
                                    if dependents@.take(j as int).contains(w) {
                                        NodeState {
                                            dependencies: without_all(g[w].dependencies, a.push(x)),
                                            ..finished_state(g, a)[w]
                                        }
                                    } else {
                                        finished_state(g, a)[w]
                                    },
                            ),
                        decreases dependents.len() - j,
                    {
                        let z = dependents[j];
                        proof {
                            assert(g.contains_key(g[x].dependents[j as int]));
                            lemma_without_push(g[z].dependencies, a, x);
                            lemma_without_push(g[z].dependencies, a.push(x), x);
                            assert forall|d: Id| a.push(x).push(x).contains(d) == a.push(x).contains(d) by {
                                if a.push(x).push(x).contains(d) {
                                    let w = choose|w: int| 0 <= w < a.push(x).push(x).len() && a.push(x).push(x)[w] == d;
                                    if w < a.push(x).len() {
                                        assert(a.push(x)[w] == d);
                                    } else {
                                        assert(a.push(x)[a.len() as int] == d);
                                    }
                                }
                                if a.push(x).contains(d) {
                                    let w = choose|w: int| 0 <= w < a.push(x).len() && a.push(x)[w] == d;
                                    assert(a.push(x).push(x)[w] == d);
                                }
                            }
                            lemma_without_all_same(g[z].dependencies, a.push(x).push(x), a.push(x));
                        }
                        self.remove_dependency(z, x);
                        stack.push(z);
                        proof {
                            let tj = dependents@.take(j as int);
                            let tj1 = dependents@.take(j + 1);
                            assert(tj1 =~= tj.push(z));
                            assert forall|w: Id| tj1.contains(w) <==> tj.contains(w) || w == z by {
                                if tj1.contains(w) {
                                    let v = choose|v: int| 0 <= v < tj1.len() && tj1[v] == w;
                                    if v < j {
                                        assert(tj[v] == w);
                                    }
                                }
                                if tj.contains(w) {
                                    let v = choose|v: int| 0 <= v < tj.len() && tj[v] == w;
                                    assert(tj1[v] == w);
                                }
                                if w == z {
                                    assert(tj1[j as int] == w);
                                }
                            }
                            assert(stack@ =~= t0 + tj1);
                            let target = Map::new(
                                |w: Id| g.contains_key(w),
                                |w: Id|
                                    if tj1.contains(w) {
                                        NodeState {
                                            dependencies: without_all(g[w].dependencies, a.push(x)),
                                            ..finished_state(g, a)[w]
                                        }
                                    } else {
                                        finished_state(g, a)[w]
                                    },
                            );
                            assert(self@ =~= target);
                        }
                        j += 1;
                    }
                    proof {
                        assert(dependents@.take(dependents.len() as int) =~= dependents@);
                        assert forall|w: Id| g.contains_key(w) && !g[x].dependents.contains(w) implies without_all(
                            g[w].dependencies,
                            a.push(x),
                        ) == without_all(g[w].dependencies, a) by {
                            if g[w].dependencies.contains(x) {
                                let v = choose|v: int| 0 <= v < g[w].dependencies.len() && g[w].dependencies[v] == x;
                                assert(g[g[w].dependencies[v]].dependents.contains(w));
                            }
                            lemma_without_push(g[w].dependencies, a, x);
                            assert(without(without_all(g[w].dependencies, a), x) == without_all(g[w].dependencies, a)) by {
                                let s1 = without_all(g[w].dependencies, a);
                                if s1.contains(x) {
                                    lemma_filter_subset(g[w].dependencies, not_in(a), x);
                                }
                                lemma_filter_keeps_when_absent(s1, x);
                            }
                        }
                    }
                    let ghost before = self@;
                    self.set_status(x, Status::Finished);
                    self.finished.push(x);
                    proof {
                        let a1 = self.finished@.skip(f0.len() as int);
                        assert(a1 =~= a.push(x));
                        assert(self.finished@.take(f0.len() as int) =~= f0);
                        assert forall|w: Id| a1.contains(w) <==> a.contains(w) || w == x by {
                            if a1.contains(w) {
                                let v = choose|v: int| 0 <= v < a1.len() && a1[v] == w;
                                if v < a.len() {
                                    assert(a[v] == w);
                                }
                            }
                            if a.contains(w) {
                                let v = choose|v: int| 0 <= v < a.len() && a[v] == w;
                                assert(a1[v] == w);
                            }
                            if w == x {
                                assert(a1[a.len() as int] == w);
                            }
                        }
                        assert(self@ =~= finished_state(g, a1));
                        assert(all_in(g[x].dependencies, a));
                        assert(a1.no_duplicates());
                        assert forall|w: Id| #[trigger] a1.contains(w) implies g.contains_key(w) && all_in(
                            g[w].dependencies,
                            a1,
                        ) && (w == id || justified(g, a1, w)) by {
                            if w != x {
                                assert(a.contains(w));
                                if w != id {
                                    let y = choose|y: Id| a.contains(y) && #[trigger] g[y].dependents.contains(w);
                                    assert(a1.contains(y));
                                }
                            } else if w != id {
                                assert(cur@[i as int] == x);
                                let y = choose|y: Id| a.contains(y) && #[trigger] g[y].dependents.contains(cur@[i as int]);
                                assert(a1.contains(y));
                            }
                        }
                        assert forall|v: int| 0 <= v < cur.len() implies g.contains_key(#[trigger] cur@[v]) && (cur@[v] == id || justified(g, a1, cur@[v])) by {
                            if cur@[v] != id {
                                let y = choose|y: Id| a.contains(y) && #[trigger] g[y].dependents.contains(cur@[v]);
                                assert(a1.contains(y));
                            }
                        }
                        assert forall|v: int| 0 <= v < stack.len() implies g.contains_key(#[trigger] stack@[v]) && justified(g, a1, stack@[v]) by {
                            if v < t0.len() {
                                assert(stack@[v] == t0[v]);
                                let y = choose|y: Id| a.contains(y) && #[trigger] g[y].dependents.contains(t0[v]);
                                assert(a1.contains(y));
                                assert(g[y].dependents.contains(stack@[v]));
                            } else {
                                let w = v - t0.len();
                                assert(stack@[v] == g[x].dependents[w]);
                                assert(g[x].dependents.contains(stack@[v]));
                                assert(g.contains_key(g[x].dependents[w]));
                                assert(a1.contains(x));
                            }
                        }
                        assert forall|y: Id, z: Id|
                            #![trigger a1.contains(y), g[y].dependents.contains(z)]
                            a1.contains(y) && g[y].dependents.contains(z) && all_in(g[z].dependencies, a1)
                                implies a1.contains(z) || stack@.contains(z) || cur@.skip(i + 1).contains(z) by {
                            if g[x].dependents.contains(z) {
                                let w = choose|w: int| 0 <= w < g[x].dependents.len() && g[x].dependents[w] == z;
                                assert(stack@[t0.len() + w] == z);
                            } else if y == x {
                            } else {
                                assert(a.contains(y));
                                if g[z].dependencies.contains(x) {
                                    let w = choose|w: int| 0 <= w < g[z].dependencies.len() && g[z].dependencies[w] == x;
                                    assert(g[g[z].dependencies[w]].dependents.contains(z));
                                }
                                assert(all_in(g[z].dependencies, a));
                                if t0.contains(z) {
                                    let w = choose|w: int| 0 <= w < t0.len() && t0[w] == z;
                                    assert(stack@[w] == z);
                                }
                                if cur@.skip(i as int).contains(z) && z != x {
                                    let w = choose|w: int| 0 <= w < cur@.skip(i as int).len() && cur@.skip(i as int)[w] == z;
                                    assert(w > 0);
                                    assert(cur@.skip(i + 1)[w - 1] == z);
                                }
                            }
                        }
                        assert(a1 == self.finished@.skip(f0.len() as int));
                        assert forall|v: int| 0 <= v < stack.len() implies justified(g, self.finished@.skip(f0.len() as int), #[trigger] stack@[v]) by {
                            let y = choose|y: Id| a1.contains(y) && #[trigger] g[y].dependents.contains(stack@[v]);
                            assert(self.finished@.skip(f0.len() as int).contains(y));
                        }
                    }
                } else {
                    proof {
                        if pending != 0 {
                            assert(!all_in(g[x].dependencies, a));
                        } else {
                            assert(a.contains(x));
                        }
                        assert forall|y: Id, z: Id|
                            #![trigger a.contains(y), g[y].dependents.contains(z)]
                            a.contains(y) && g[y].dependents.contains(z) && all_in(g[z].dependencies, a)
                                implies a.contains(z) || stack@.contains(z) || cur@.skip(i + 1).contains(z) by {
                            if cur@.skip(i as int).contains(z) && z != x {
                                let w = choose|w: int| 0 <= w < cur@.skip(i as int).len() && cur@.skip(i as int)[w] == z;
                                assert(w > 0);
                                assert(cur@.skip(i + 1)[w - 1] == z);
                            }
                        }
                        if k == 0 {
                            assert(x == id);
                        }
                    }
                }
                i += 1;
            }
            proof {
                assert(cur@.take(cur.len() as int) =~= cur@);
                assert(cur@.skip(cur.len() as int) =~= Seq::<Id>::empty());
                assert(k <= a_start.len());
            }
            proof {
                k = k + 1;
            }
        }
        proof {
            let a = self.finished@.skip(f0.len() as int);
            assert(stack@.len() == 0);
            if !ready {
                if k == 0 {
                    assert(stack@.len() == 1);
                }
                assert(a.len() == 0);
                assert(!a.contains(id));
            } else {
                if k == 0 {
                    assert(stack@.len() == 1);
                }
            }
            assert forall|y: Id, x: Id|
                #![trigger a.contains(y), g[y].dependents.contains(x)]
                a.contains(y) && g[y].dependents.contains(x) && all_in(g[x].dependencies, a)
                    implies a.contains(x) by {
                assert(!stack@.contains(x));
            }
            assert(finish_closed(g, id, a));
        }
    }

    /// Takes the transactions that failed since the last call.
    #[must_use]
    pub fn drain_failed(&mut self) -> (failed: Vec<Id>)
        requires
            old(self).wf(),
        ensures
            final(self).wf(),
            failed@ == old(self).failed_ids(),
            final(self).failed_ids() == Seq::<Id>::empty(),
            final(self)@ == old(self)@,
            final(self).finished_ids() == old(self).finished_ids(),
    {
        let mut taken = Vec::new();
        std::mem::swap(&mut taken, &mut self.failed);
        taken
    }

    /// Takes the transactions that finished since the last call.
    #[must_use]
    pub fn drain_finished(&mut self) -> (finished: Vec<Id>)
        requires
            old(self).wf(),
        ensures
            final(self).wf(),
            finished@ == old(self).finished_ids(),
            final(self).finished_ids() == Seq::<Id>::empty(),
            final(self)@ == old(self)@,
            final(self).failed_ids() == old(self).failed_ids(),
    {
        let mut taken = Vec::new();
        std::mem::swap(&mut taken, &mut self.finished);
        taken
    }
}

impl Default for DependencyTracker {
    fn default() -> (t: Self)
        ensures
            t.wf(),
            t@ == Map::<Id, NodeState>::empty(),
            t.failed_ids() == Seq::<Id>::empty(),
            t.finished_ids() == Seq::<Id>::empty(),
    {
        DependencyTracker::new()
    }
}

} // verus!
