//! The toplevel bookkeeping of the shell.
//!
//! A toplevel surface is new until its initial commit, after which it has an id and can be
//! mapped. A commit without a buffer unmaps a mapped toplevel and makes it new again; a
//! toplevel can be removed in any state. Surfaces, handles and protocol instances are named by
//! their protocol object ids; the protocol messages themselves are sent by the caller, as the
//! [`CommitOutcome`] of a commit directs.

use std::collections::HashMap;

use vstd::prelude::*;

verus! {

/// The id of a toplevel: a non-zero number that is never given out twice.
pub type ToplevelId = u64;

/// An instance of the foreign toplevel list protocol.
#[derive(Debug, Clone, Copy, PartialEq, Eq, Structural)]
pub struct ForeignToplevelInstance {
    /// The protocol object id of the instance.
    pub instance: u64,
    /// Whether the client stopped the instance.
    pub stopped: bool,
}

/// A toplevel that has had its initial commit.
#[derive(Debug, Clone, PartialEq, Eq)]
pub struct Toplevel {
    /// The id of the toplevel.
    pub id: ToplevelId,
    /// The protocol object id of the underlying surface.
    pub surface: u64,
    /// Whether the toplevel is mapped; it is not yet mapped after its initial commit.
    pub mapped: bool,
    /// The protocol object ids of the foreign handles to this toplevel.
    pub handles: Vec<u64>,
}

/// What a commit asks the caller to do.
#[derive(Debug, Clone, PartialEq, Eq)]
pub enum CommitOutcome {
    /// The initial commit of a new toplevel, which now has this id: configure it and create
    /// its foreign handles.
    Initial(ToplevelId),
    /// A mapped toplevel was unmapped and is new again: tell these handles it closed.
    Unmapped(Vec<u64>),
    /// A commit of the toplevel with this id, which a commit with a buffer maps: check that its
    /// configure was acknowledged.
    Existing(ToplevelId),
    /// The surface is not a toplevel of the shell.
    Unknown,
}

/// The first position in `s` that holds `x`.
pub open spec fn first_pos(s: Seq<u64>, x: u64) -> int
    recommends
        s.contains(x),
{
    choose|i: int| 0 <= i < s.len() && s[i] == x && forall|j: int| 0 <= j < i ==> s[j] != x
}

/// The toplevel `t`, mapped.
pub open spec fn mapped_toplevel(t: Toplevel) -> Toplevel {
    Toplevel { id: t.id, surface: t.surface, mapped: true, handles: t.handles }
}

/// The position of the first toplevel of `s` on `surface`, if any.
pub open spec fn toplevel_on(s: Seq<Toplevel>, surface: u64) -> Option<int> {
    if exists|i: int| 0 <= i < s.len() && #[trigger] s[i].surface == surface {
        Some(
            choose|i: int|
                0 <= i < s.len() && s[i].surface == surface && forall|j: int|
                    0 <= j < i ==> #[trigger] s[j].surface != surface,
        )
    } else {
        None
    }
}

/// The toplevels of the shell, pending and committed.
pub struct Shell {
    pending_toplevels: Vec<u64>,
    toplevels: Vec<Toplevel>,
    /// The instances of the foreign toplevel list protocol, by protocol object id.
    pub foreign_toplevel_instances: HashMap<u64, ForeignToplevelInstance>,
    next_toplevel_id: ToplevelId,
}

impl Shell {
    /// The surfaces of the toplevels pending an initial commit, in order.
    pub closed spec fn pending(&self) -> Seq<u64> {
        self.pending_toplevels@
    }

    /// The toplevels that had their initial commit, in order.
    pub closed spec fn committed(&self) -> Seq<Toplevel> {
        self.toplevels@
    }

    /// The id the next initial commit gives out.
    pub closed spec fn next_id(&self) -> u64 {
        self.next_toplevel_id
    }

    /// The foreign toplevel list instances, by protocol object id.
    pub closed spec fn instances(&self) -> Map<u64, ForeignToplevelInstance> {
        self.foreign_toplevel_instances@
    }

    /// The shell is well formed: ids are non-zero, distinct and below the next id.
    pub closed spec fn wf(&self) -> bool {
        &&& self.next_toplevel_id >= 1
        &&& forall|i: int|
            0 <= i < self.toplevels@.len() ==> 1 <= #[trigger] self.toplevels@[i].id
                < self.next_toplevel_id
        &&& forall|i: int, j: int|
            0 <= i < self.toplevels@.len() && 0 <= j < self.toplevels@.len() && i != j
                ==> #[trigger] self.toplevels@[i].id != #[trigger] self.toplevels@[j].id
    }

    /// Creates a shell with no toplevel; the first id is 1.
    pub fn new() -> (s: Shell)
        ensures
            s.wf(),
            s.pending() == Seq::<u64>::empty(),
            s.committed() == Seq::<Toplevel>::empty(),
            s.next_id() == 1,
            s.instances() == Map::<u64, ForeignToplevelInstance>::empty(),
    {
        let s = Shell {
            pending_toplevels: Vec::new(),
            toplevels: Vec::new(),
            foreign_toplevel_instances: HashMap::new(),
            next_toplevel_id: 1,
        };
        assert(s.pending_toplevels@ =~= Seq::<u64>::empty());
        assert(s.toplevels@ =~= Seq::<Toplevel>::empty());
        s
    }

    /// Records a new toplevel, pending its initial commit.
    pub fn add_pending_toplevel(&mut self, surface: u64)
        requires
            old(self).wf(),
        ensures
            final(self).wf(),
            final(self).pending() == old(self).pending().push(surface),
            final(self).committed() == old(self).committed(),
            final(self).next_id() == old(self).next_id(),
            final(self).instances() == old(self).instances(),
    {
        self.pending_toplevels.push(surface);
    }

    /// Returns the position of the first pending toplevel on the surface.
    fn pending_position(&self, surface: u64) -> (r: Option<usize>)
        ensures
            r is None ==> !self.pending().contains(surface),
            r matches Some(i) ==> i == first_pos(self.pending(), surface) && i < self.pending().len()
                && self.pending()[i as int] == surface,
    {
        let mut i: usize = 0;
        while i < self.pending_toplevels.len()
            invariant
                i <= self.pending_toplevels.len(),
                forall|j: int| 0 <= j < i ==> self.pending_toplevels@[j] != surface,
            decreases self.pending_toplevels.len() - i,
        {
            if self.pending_toplevels[i] == surface {
                proof {
                    let p = self.pending_toplevels@;
                    assert(p.contains(surface));
                    let c = first_pos(p, surface);
                    assert(0 <= c < p.len() && p[c] == surface && forall|j: int|
                        0 <= j < c ==> p[j] != surface) by {
                        assert(0 <= i < p.len() && p[i as int] == surface && forall|j: int|
                            0 <= j < i ==> p[j] != surface);
                    }
                    assert(c == i) by {
                        if c < i {
                            assert(p[c] != surface);
                        } else if c > i {
                            assert(p[i as int] != surface);
                        }
                    }
                }
                return Some(i);
            }
            i += 1;
        }
        None
    }

    /// Returns the position of the first committed toplevel on the surface.
    fn toplevel_position(&self, surface: u64) -> (r: Option<usize>)
        ensures
            r matches Some(i) ==> toplevel_on(self.committed(), surface) == Some(i as int) && i
                < self.committed().len(),
            r is None ==> toplevel_on(self.committed(), surface) is None,
    {
        let mut i: usize = 0;
        while i < self.toplevels.len()
            invariant
                i <= self.toplevels.len(),
                forall|j: int| 0 <= j < i ==> #[trigger] self.toplevels@[j].surface != surface,
            decreases self.toplevels.len() - i,
        {
            if self.toplevels[i].surface == surface {
                proof {
                    let s = self.toplevels@;
                    assert(s[i as int].surface == surface);
                    let c = choose|c: int|
                        0 <= c < s.len() && s[c].surface == surface && forall|j: int|
                            0 <= j < c ==> #[trigger] s[j].surface != surface;
                    assert(c == i) by {
                        if c < i {
                            assert(s[c].surface != surface);
                        } else if c > i {
                            assert(s[i as int].surface != surface);
                        }
                    }
                }
                return Some(i);
            }
            i += 1;
        }
        None
    }

    /// Handles a commit of a surface that may be a toplevel.
    ///
    /// A pending toplevel has its initial commit: it gets the next id and becomes a committed,
    /// not yet mapped toplevel. Otherwise a commit without a buffer unmaps a mapped toplevel,
    /// which becomes pending again; a commit with a buffer maps the toplevel; any other commit
    /// of a toplevel is reported as such.
    #[verifier::rlimit(60)]
    pub fn commit(&mut self, surface: u64, has_buffer: bool) -> (r: CommitOutcome)
        requires
            old(self).wf(),
            old(self).pending().contains(surface) ==> !has_buffer && old(self).next_id() < u64::MAX,
        ensures
            final(self).wf(),
            final(self).instances() == old(self).instances(),
            old(self).pending().contains(surface) ==> {
                &&& r == CommitOutcome::Initial(old(self).next_id())
                &&& final(self).pending() == old(self).pending().remove(
                    first_pos(old(self).pending(), surface),
                )
                &&& final(self).next_id() == old(self).next_id() + 1
                &&& final(self).committed().len() == old(self).committed().len() + 1
                &&& final(self).committed().drop_last() == old(self).committed()
                &&& final(self).committed().last().id == old(self).next_id()
                &&& final(self).committed().last().surface == surface
                &&& !final(self).committed().last().mapped
                &&& final(self).committed().last().handles@ == Seq::<u64>::empty()
            },
            !old(self).pending().contains(surface) ==> final(self).next_id() == old(self).next_id(),
            !old(self).pending().contains(surface) && toplevel_on(old(self).committed(), surface)
                is None ==> r == CommitOutcome::Unknown && final(self).pending() == old(
                self,
            ).pending() && final(self).committed() == old(self).committed(),
            !old(self).pending().contains(surface) ==> match toplevel_on(old(self).committed(), surface) {
                Some(k) => {
                    let t = old(self).committed()[k];
                    if !has_buffer && t.mapped {
                        &&& r == CommitOutcome::Unmapped(t.handles)
                        &&& final(self).committed() == old(self).committed().remove(k)
                        &&& final(self).pending() == old(self).pending().push(surface)
                    } else {
                        &&& r == CommitOutcome::Existing(t.id)
                        &&& final(self).committed() == (if has_buffer {
                            old(self).committed().update(k, mapped_toplevel(t))
                        } else {
                            old(self).committed()
                        })
                        &&& final(self).pending() == old(self).pending()
                    }
                },
                None => true,
            },
    {
        // If the surface is pending, this is its initial commit.
        match self.pending_position(surface) {
            Some(position) => {
                self.pending_toplevels.remove(position);
                let id = self.next_toplevel_id;
                self.next_toplevel_id = id + 1;
                let ghost before = self.toplevels@;
                self.toplevels.push(Toplevel { id, surface, mapped: false, handles: Vec::new() });
                proof {
                    assert(self.toplevels@.drop_last() =~= before);
                    assert forall|i: int, j: int|
                        0 <= i < self.toplevels@.len() && 0 <= j < self.toplevels@.len() && i != j
                            implies #[trigger] self.toplevels@[i].id != #[trigger] self.toplevels@[j].id by {
                        if i < before.len() && j < before.len() {
                            assert(self.toplevels@[i] == before[i]);
                            assert(self.toplevels@[j] == before[j]);
                        } else if i < before.len() {
                            assert(self.toplevels@[i] == before[i]);
                        } else if j < before.len() {
                            assert(self.toplevels@[j] == before[j]);
                        }
                    }
                    assert forall|i: int| 0 <= i < self.toplevels@.len() implies 1
                        <= #[trigger] self.toplevels@[i].id < self.next_toplevel_id by {
                        if i < before.len() {
                            assert(self.toplevels@[i] == before[i]);
                        }
                    }
                }
                return CommitOutcome::Initial(id);
            },
            None => {},
        }
        match self.toplevel_position(surface) {
            Some(k) => {
                if !has_buffer && self.toplevels[k].mapped {
                    let ghost before = self.toplevels@;
                    let toplevel = self.toplevels.remove(k);
                    self.pending_toplevels.push(surface);
                    proof {
                        assert forall|i: int, j: int|
                            0 <= i < self.toplevels@.len() && 0 <= j < self.toplevels@.len() && i
                                != j implies #[trigger] self.toplevels@[i].id
                                != #[trigger] self.toplevels@[j].id by {
                            let bi = if i < k { i } else { i + 1 };
                            let bj = if j < k { j } else { j + 1 };
                            assert(self.toplevels@[i] == before[bi]);
                            assert(self.toplevels@[j] == before[bj]);
                        }
                        assert forall|i: int| 0 <= i < self.toplevels@.len() implies 1
                            <= #[trigger] self.toplevels@[i].id < self.next_toplevel_id by {
                            let bi = if i < k { i } else { i + 1 };
                            assert(self.toplevels@[i] == before[bi]);
                        }
                    }
                    CommitOutcome::Unmapped(toplevel.handles)
                } else {
                    let id = self.toplevels[k].id;
                    if has_buffer {
                        // A buffer commit after the initial commit maps the toplevel.
                        let ghost before = self.toplevels@;
                        let mut toplevel = self.toplevels.remove(k);
                        toplevel.mapped = true;
                        self.toplevels.insert(k, toplevel);
                        proof {
                            assert(self.toplevels@ =~= before.update(k as int, mapped_toplevel(before[k as int])));
                            assert forall|i: int, j: int|
                                0 <= i < self.toplevels@.len() && 0 <= j < self.toplevels@.len() && i
                                    != j implies #[trigger] self.toplevels@[i].id
                                    != #[trigger] self.toplevels@[j].id by {
                                assert(self.toplevels@[i].id == before[i].id);
                                assert(self.toplevels@[j].id == before[j].id);
                            }
                            assert forall|i: int| 0 <= i < self.toplevels@.len() implies 1
                                <= #[trigger] self.toplevels@[i].id < self.next_toplevel_id by {
                                assert(self.toplevels@[i].id == before[i].id);
                            }
                        }
                    }
                    CommitOutcome::Existing(id)
                }
            },
            None => CommitOutcome::Unknown,
        }
    }

    /// Removes a toplevel on the surface, pending or committed, returning the id of the
    /// committed toplevel that was removed.
    pub fn remove_toplevel(&mut self, surface: u64) -> (r: Option<ToplevelId>)
        requires
            old(self).wf(),
        ensures
            final(self).wf(),
            final(self).instances() == old(self).instances(),
            final(self).next_id() == old(self).next_id(),
            final(self).pending() == old(self).pending().filter(|s: u64| s != surface),
            match toplevel_on(old(self).committed(), surface) {
                Some(k) => r == Some(old(self).committed()[k].id) && final(self).committed()
                    == old(self).committed().remove(k),
                None => r is None && final(self).committed() == old(self).committed(),
            },
    {
        // Remove toplevels that are pending.
        let mut kept: Vec<u64> = Vec::new();
        let mut i: usize = 0;
        while i < self.pending_toplevels.len()
            invariant
                i <= self.pending_toplevels.len(),
                self.pending_toplevels@ == old(self).pending_toplevels@,
                kept@ == self.pending_toplevels@.take(i as int).filter(|s: u64| s != surface),
            decreases self.pending_toplevels.len() - i,
        {
            let ghost p = self.pending_toplevels@;
            assert(p.take(i + 1).drop_last() =~= p.take(i as int));
            reveal(Seq::filter);
            let x = self.pending_toplevels[i];
            if x != surface {
                kept.push(x);
            }
            i += 1;
        }
        assert(self.pending_toplevels@.take(i as int) =~= self.pending_toplevels@);
        self.pending_toplevels = kept;
        match self.toplevel_position(surface) {
            Some(k) => {
                let ghost before = self.toplevels@;
                let toplevel = self.toplevels.remove(k);
                proof {
                    assert forall|i: int, j: int|
                        0 <= i < self.toplevels@.len() && 0 <= j < self.toplevels@.len() && i != j
                            implies #[trigger] self.toplevels@[i].id != #[trigger] self.toplevels@[j].id by {
                        let bi = if i < k { i } else { i + 1 };
                        let bj = if j < k { j } else { j + 1 };
                        assert(self.toplevels@[i] == before[bi]);
                        assert(self.toplevels@[j] == before[bj]);
                    }
                    assert forall|i: int| 0 <= i < self.toplevels@.len() implies 1
                        <= #[trigger] self.toplevels@[i].id < self.next_toplevel_id by {
                        let bi = if i < k { i } else { i + 1 };
                        assert(self.toplevels@[i] == before[bi]);
                    }
                }
                Some(toplevel.id)
            },
            None => None,
        }
    }

    /// Records a foreign handle to the committed toplevel with the id, returning the identifier
    /// to announce for it; `None` if no committed toplevel has the id.
    pub fn create_handle(&mut self, id: ToplevelId, generation: u64, handle: u64) -> (r: Option<String>)
        requires
            old(self).wf(),
        ensures
            final(self).wf(),
            final(self).pending() == old(self).pending(),
            final(self).next_id() == old(self).next_id(),
            final(self).instances() == old(self).instances(),
            final(self).committed().len() == old(self).committed().len(),
            match r {
                Some(s) => exists|k: int|
                    0 <= k < old(self).committed().len() && #[trigger] old(self).committed()[k].id == id && {
                        &&& s@ == hex_fixed(generation as nat, 16) + hex_fixed(id as nat, 16)
                        &&& final(self).committed()[k].id == id
                        &&& final(self).committed()[k].surface == old(self).committed()[k].surface
                        &&& final(self).committed()[k].mapped == old(self).committed()[k].mapped
                        &&& final(self).committed()[k].handles@ == old(self).committed()[k].handles@.push(handle)
                        &&& forall|j: int|
                            0 <= j < old(self).committed().len() && j != k ==> #[trigger] final(self).committed()[j]
                                == old(self).committed()[j]
                    },
                None => final(self).committed() == old(self).committed() && forall|j: int|
                    0 <= j < old(self).committed().len() ==> #[trigger] old(self).committed()[j].id != id,
            },
    {
        let mut i: usize = 0;
        while i < self.toplevels.len()
            invariant
                self.wf(),
                i <= self.toplevels.len(),
                self.toplevels@ == old(self).toplevels@,
                self.pending_toplevels@ == old(self).pending_toplevels@,
                self.next_toplevel_id == old(self).next_toplevel_id,
                self.foreign_toplevel_instances@ == old(self).foreign_toplevel_instances@,
                forall|j: int| 0 <= j < i ==> #[trigger] self.toplevels@[j].id != id,
            decreases self.toplevels.len() - i,
        {
            if self.toplevels[i].id == id {
                let ghost before = self.toplevels@;
                let mut toplevel = self.toplevels.remove(i);
                toplevel.handles.push(handle);
                self.toplevels.insert(i, toplevel);
                proof {
                    assert forall|j: int| 0 <= j < before.len() && j != i implies #[trigger] self.toplevels@[j]
                        == before[j] by {}
                    assert forall|a: int, b: int|
                        0 <= a < self.toplevels@.len() && 0 <= b < self.toplevels@.len() && a != b
                            implies #[trigger] self.toplevels@[a].id != #[trigger] self.toplevels@[b].id by {
                        assert(self.toplevels@[a].id == before[a].id);
                        assert(self.toplevels@[b].id == before[b].id);
                    }
                    assert forall|a: int| 0 <= a < self.toplevels@.len() implies 1
                        <= #[trigger] self.toplevels@[a].id < self.next_toplevel_id by {
                        assert(self.toplevels@[a].id == before[a].id);
                    }
                }
                let identifier = handle_identifier(generation, id);
                proof {
                    assert(old(self).committed()[i as int].id == id);
                    assert(self.committed()[i as int].handles@ == before[i as int].handles@.push(handle));
                }
                return Some(identifier);
            }
            i += 1;
        }
        None
    }

    /// Removes the first handle with the object id from the committed toplevel with the id;
    /// returns whether such a toplevel exists.
    pub fn remove_handle(&mut self, id: ToplevelId, handle: u64) -> (r: bool)
        requires
            old(self).wf(),
        ensures
            final(self).wf(),
            final(self).pending() == old(self).pending(),
            final(self).next_id() == old(self).next_id(),
            final(self).instances() == old(self).instances(),
            final(self).committed().len() == old(self).committed().len(),
            r == exists|k: int| 0 <= k < old(self).committed().len() && #[trigger] old(self).committed()[k].id == id,
            forall|k: int|
                0 <= k < old(self).committed().len() ==> {
                    let t = #[trigger] old(self).committed()[k];
                    let u = final(self).committed()[k];
                    if t.id == id {
                        &&& u.id == t.id
                        &&& u.surface == t.surface
                        &&& u.mapped == t.mapped
                        &&& (t.handles@.contains(handle) ==> u.handles@ == t.handles@.remove(
                            first_pos(t.handles@, handle),
                        ))
                        &&& (!t.handles@.contains(handle) ==> u.handles@ == t.handles@)
                    } else {
                        u == t
                    }
                },
    {
        let mut i: usize = 0;
        while i < self.toplevels.len()
            invariant
                self.wf(),
                i <= self.toplevels.len(),
                self.toplevels@ == old(self).toplevels@,
                self.pending_toplevels@ == old(self).pending_toplevels@,
                self.next_toplevel_id == old(self).next_toplevel_id,
                self.foreign_toplevel_instances@ == old(self).foreign_toplevel_instances@,
                forall|j: int| 0 <= j < i ==> #[trigger] self.toplevels@[j].id != id,
            decreases self.toplevels.len() - i,
        {
            if self.toplevels[i].id == id {
                let ghost before = self.toplevels@;
                let mut toplevel = self.toplevels.remove(i);
                toplevel.remove_handle(handle);
                self.toplevels.insert(i, toplevel);
                proof {
                    assert forall|j: int| 0 <= j < before.len() && j != i implies #[trigger] self.toplevels@[j]
                        == before[j] by {}
                    assert forall|a: int, b: int|
                        0 <= a < self.toplevels@.len() && 0 <= b < self.toplevels@.len() && a != b
                            implies #[trigger] self.toplevels@[a].id != #[trigger] self.toplevels@[b].id by {
                        assert(self.toplevels@[a].id == before[a].id);
                        assert(self.toplevels@[b].id == before[b].id);
                    }
                    assert forall|a: int| 0 <= a < self.toplevels@.len() implies 1
                        <= #[trigger] self.toplevels@[a].id < self.next_toplevel_id by {
                        assert(self.toplevels@[a].id == before[a].id);
                    }
                    assert(before[i as int].id == id);
                    assert(old(self).committed()[i as int].id == id);
                }
                return true;
            }
            i += 1;
        }
        false
    }

    /// Returns the committed toplevel with the id, if any.
    pub fn get_state(&self, id: ToplevelId) -> (r: Option<&Toplevel>)
        requires
            self.wf(),
        ensures
            match r {
                Some(t) => exists|i: int|
                    0 <= i < self.committed().len() && #[trigger] self.committed()[i] == *t && t.id == id,
                None => forall|i: int| 0 <= i < self.committed().len() ==> #[trigger] self.committed()[i].id != id,
            },
    {
        let mut i: usize = 0;
        while i < self.toplevels.len()
            invariant
                i <= self.toplevels.len(),
                forall|j: int| 0 <= j < i ==> #[trigger] self.toplevels@[j].id != id,
            decreases self.toplevels.len() - i,
        {
            if self.toplevels[i].id == id {
                let t = &self.toplevels[i];
                assert(self.committed()[i as int] == *t);
                return Some(t);
            }
            i += 1;
        }
        None
    }
}

impl Toplevel {
    /// Removes the first handle with the object id, if any.
    pub fn remove_handle(&mut self, id: u64)
        ensures
            final(self).id == old(self).id,
            final(self).surface == old(self).surface,
            final(self).mapped == old(self).mapped,
            old(self).handles@.contains(id) ==> final(self).handles@ == old(self).handles@.remove(
                first_pos(old(self).handles@, id),
            ),
            !old(self).handles@.contains(id) ==> final(self).handles@ == old(self).handles@,
    {
        let mut i: usize = 0;
        while i < self.handles.len()
            invariant
                i <= self.handles.len(),
                self.handles@ == old(self).handles@,
                self.id == old(self).id,
                self.surface == old(self).surface,
                self.mapped == old(self).mapped,
                forall|j: int| 0 <= j < i ==> self.handles@[j] != id,
            decreases self.handles.len() - i,
        {
            if self.handles[i] == id {
                proof {
                    let p = self.handles@;
                    assert(p.contains(id));
                    let c = first_pos(p, id);
                    assert(0 <= c < p.len() && p[c] == id && forall|j: int| 0 <= j < c ==> p[j] != id) by {
                        assert(0 <= i < p.len() && p[i as int] == id && forall|j: int|
                            0 <= j < i ==> p[j] != id);
                    }
                    assert(c == i) by {
                        if c < i {
                            assert(p[c] != id);
                        } else if c > i {
                            assert(p[i as int] != id);
                        }
                    }
                }
                self.handles.remove(i);
                return;
            }
            i += 1;
        }
    }
}

/// In a well-formed shell the committed toplevels have distinct non-zero ids, all below the id
/// the next initial commit gives out; so an initial commit never reuses an id.
pub proof fn lemma_ids_distinct(s: &Shell)
    requires
        s.wf(),
    ensures
        forall|i: int| 0 <= i < s.committed().len() ==> 1 <= #[trigger] s.committed()[i].id < s.next_id(),
        forall|i: int, j: int|
            0 <= i < s.committed().len() && 0 <= j < s.committed().len() && i != j
                ==> #[trigger] s.committed()[i].id != #[trigger] s.committed()[j].id,
{
}

/// The uppercase hexadecimal digit of a value below 16.
pub open spec fn hex_digit(d: nat) -> char {
    if d < 10 {
        ((d + 48) as u8) as char
    } else {
        ((d + 55) as u8) as char
    }
}

/// The last `width` uppercase hexadecimal digits of `n`, most significant first.
pub open spec fn hex_fixed(n: nat, width: nat) -> Seq<char>
    decreases width,
{
    if width == 0 {
        Seq::empty()
    } else {
        hex_fixed(n / 16, (width - 1) as nat).push(hex_digit(n % 16))
    }
}

/// The text of an uppercase hexadecimal digit.
fn hex_digit_str(d: u64) -> (s: &'static str)
    requires
        d < 16,
    ensures
        s@ == seq![hex_digit(d as nat)],
{
    proof {
        reveal_strlit("0");
        reveal_strlit("1");
        reveal_strlit("2");
        reveal_strlit("3");
        reveal_strlit("4");
        reveal_strlit("5");
        reveal_strlit("6");
        reveal_strlit("7");
        reveal_strlit("8");
        reveal_strlit("9");
        reveal_strlit("A");
        reveal_strlit("B");
        reveal_strlit("C");
        reveal_strlit("D");
        reveal_strlit("E");
        reveal_strlit("F");
        assert(hex_digit(0) == '0');
        assert(hex_digit(1) == '1');
        assert(hex_digit(2) == '2');
        assert(hex_digit(3) == '3');
        assert(hex_digit(4) == '4');
        assert(hex_digit(5) == '5');
        assert(hex_digit(6) == '6');
        assert(hex_digit(7) == '7');
        assert(hex_digit(8) == '8');
        assert(hex_digit(9) == '9');
        assert(hex_digit(10) == 'A');
        assert(hex_digit(11) == 'B');
        assert(hex_digit(12) == 'C');
        assert(hex_digit(13) == 'D');
        assert(hex_digit(14) == 'E');
        assert(hex_digit(15) == 'F');
    }
    if d == 0 {
        "0"
    } else if d == 1 {
        "1"
    } else if d == 2 {
        "2"
    } else if d == 3 {
        "3"
    } else if d == 4 {
        "4"
    } else if d == 5 {
        "5"
    } else if d == 6 {
        "6"
    } else if d == 7 {
        "7"
    } else if d == 8 {
        "8"
    } else if d == 9 {
        "9"
    } else if d == 10 {
        "A"
    } else if d == 11 {
        "B"
    } else if d == 12 {
        "C"
    } else if d == 13 {
        "D"
    } else if d == 14 {
        "E"
    } else {
        "F"
    }
}

/// The last `width` uppercase hexadecimal digits of `n`, most significant first.
fn hex_fixed_string(n: u64, width: u32) -> (s: String)
    ensures
        s@ == hex_fixed(n as nat, width as nat),
    decreases width,
{
    if width == 0 {
        String::new()
    } else {
        let mut s = hex_fixed_string(n / 16, width - 1);
        s.append(hex_digit_str(n % 16));
        s
    }
}

/// A `u64` as sixteen uppercase hexadecimal digits, zero padded, as `{:016X}` formats it.
fn hex16(n: u64) -> (s: String)
    ensures
        s@ == hex_fixed(n as nat, 16),
{
    hex_fixed_string(n, 16)
}

/// Returns the identifier of a foreign toplevel handle: the generation and the toplevel id,
/// each as sixteen uppercase hexadecimal digits.
///
/// Clients should not rely on how identifiers are made.
pub fn handle_identifier(generation: u64, id: ToplevelId) -> (s: String)
    ensures
        s@ == hex_fixed(generation as nat, 16) + hex_fixed(id as nat, 16),
{
    let mut s = hex16(generation);
    let tail = hex16(id);
    s.append(tail.as_str());
    s
}

/// The toplevel found on a surface is the first committed toplevel on it, and none is found
/// exactly when no committed toplevel is on it.
pub proof fn lemma_toplevel_on(s: Seq<Toplevel>, surface: u64)
    ensures
        toplevel_on(s, surface) matches Some(k) ==> 0 <= k < s.len() && s[k].surface == surface
            && forall|j: int| 0 <= j < k ==> #[trigger] s[j].surface != surface,
        toplevel_on(s, surface) is None <==> forall|j: int| 0 <= j < s.len() ==> #[trigger] s[j].surface != surface,
{
    if exists|i: int| 0 <= i < s.len() && #[trigger] s[i].surface == surface {
        let i = choose|i: int| 0 <= i < s.len() && #[trigger] s[i].surface == surface;
        lemma_least_on(s, surface, i);
    }
}

/// Below a toplevel on the surface there is a first one.
proof fn lemma_least_on(s: Seq<Toplevel>, surface: u64, i: int)
    requires
        0 <= i < s.len(),
        s[i].surface == surface,
    ensures
        exists|c: int|
            0 <= c < s.len() && s[c].surface == surface && forall|j: int|
                0 <= j < c ==> #[trigger] s[j].surface != surface,
    decreases i,
{
    if exists|j: int| 0 <= j < i && #[trigger] s[j].surface == surface {
        let j = choose|j: int| 0 <= j < i && #[trigger] s[j].surface == surface;
        lemma_least_on(s, surface, j);
    } else {
        assert(forall|j: int| 0 <= j < i ==> #[trigger] s[j].surface != surface);
    }
}

/// The first position of a value that a sequence holds is where it first occurs.
pub proof fn lemma_first_pos(s: Seq<u64>, x: u64)
    requires
        s.contains(x),
    ensures
        0 <= first_pos(s, x) < s.len(),
        s[first_pos(s, x)] == x,
        forall|j: int| 0 <= j < first_pos(s, x) ==> s[j] != x,
{
    let i = choose|i: int| 0 <= i < s.len() && s[i] == x;
    lemma_least_pos(s, x, i);
}

/// Below a position holding the value there is a first one.
proof fn lemma_least_pos(s: Seq<u64>, x: u64, i: int)
    requires
        0 <= i < s.len(),
        s[i] == x,
    ensures
        exists|c: int| 0 <= c < s.len() && s[c] == x && forall|j: int| 0 <= j < c ==> s[j] != x,
    decreases i,
{
    if exists|j: int| 0 <= j < i && s[j] == x {
        let j = choose|j: int| 0 <= j < i && s[j] == x;
        lemma_least_pos(s, x, j);
    }
}

/// The hexadecimal digits are `0` to `9` and then `A` to `F`, in order.
pub proof fn lemma_hex_digit(d: nat)
    requires
        d < 16,
    ensures
        hex_digit(d) == "0123456789ABCDEF"@[d as int],
{
    reveal_strlit("0123456789ABCDEF");
    assert(hex_digit(0) == '0');
    assert(hex_digit(1) == '1');
    assert(hex_digit(2) == '2');
    assert(hex_digit(3) == '3');
    assert(hex_digit(4) == '4');
    assert(hex_digit(5) == '5');
    assert(hex_digit(6) == '6');
    assert(hex_digit(7) == '7');
    assert(hex_digit(8) == '8');
    assert(hex_digit(9) == '9');
    assert(hex_digit(10) == 'A');
    assert(hex_digit(11) == 'B');
    assert(hex_digit(12) == 'C');
    assert(hex_digit(13) == 'D');
    assert(hex_digit(14) == 'E');
    assert(hex_digit(15) == 'F');
}

/// The fixed-width hexadecimal text of `n` has `width` digits, the last being the digit of
/// `n % 16`, and the ones before it the text of `n / 16` one digit shorter; a wider text only
/// adds digits in front.
pub proof fn lemma_hex_fixed(n: nat, width: nat)
    ensures
        hex_fixed(n, width).len() == width,
        width > 0 ==> hex_fixed(n, width).last() == hex_digit(n % 16),
        width > 0 ==> hex_fixed(n, width).drop_last() == hex_fixed(n / 16, (width - 1) as nat),
    decreases width,
{
    if width > 0 {
        lemma_hex_fixed(n / 16, (width - 1) as nat);
    }
}

/// Mapping a toplevel marks it mapped and keeps its id, surface and handles.
pub proof fn lemma_mapped_toplevel(t: Toplevel)
    ensures
        mapped_toplevel(t).mapped,
        mapped_toplevel(t).id == t.id,
        mapped_toplevel(t).surface == t.surface,
        mapped_toplevel(t).handles@ == t.handles@,
{
}

} // verus!
