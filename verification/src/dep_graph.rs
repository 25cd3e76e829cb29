//! A generation-checked arena of nodes joined by directed dependency edges,
//! together with resolution algorithms that order the nodes so that every
//! dependency comes before its dependent.

use vstd::prelude::*;

verus! {

/// A stale-reference-safe handle into a `DepGraph`: a slot number plus the
/// generation the slot had when the handle was issued.  A handle issued for a
/// slot that has since been vacated never names the slot's later occupants.
#[derive(Clone, Copy, PartialEq, Eq, Structural, Debug)]
pub struct Index {
    slot: usize,
    generation: u64,
}

/// Error returned by `DepGraph::dependency` when one of the two handles does
/// not name a node currently present in the arena.
#[derive(Clone, Copy, PartialEq, Eq, Structural, Debug)]
pub struct EdgeError;

/// Structured resolution failure: the graph cannot be levelled because the
/// listed nodes can never become ready — each of them has a dependency that is
/// itself unresolved or dangling (a dependency cycle, or an edge to a node
/// that has since been removed).
#[derive(Debug)]
pub struct CycleError {
    pub unresolved: Vec<Index>,
}

/// Handle `d` occurs somewhere in the first `bound` groups.
pub open spec fn in_first_groups(groups: Seq<Seq<Index>>, bound: int, d: Index) -> bool {
    exists|j: int, m: int|
        0 <= j < bound && j < groups.len() && 0 <= m < groups[j].len() && (#[trigger] groups[j][m])
            == d
}

/// Handle `d` occurs at a position strictly before `bound` in `order`.
pub open spec fn appears_before(order: Seq<Index>, bound: int, d: Index) -> bool {
    exists|j: int| 0 <= j < bound && j < order.len() && (#[trigger] order[j]) == d
}

/// No handle occurs twice across all the groups.
pub open spec fn groups_pairwise_distinct(groups: Seq<Seq<Index>>) -> bool {
    forall|j1: int, m1: int, j2: int, m2: int|
        #![trigger groups[j1][m1], groups[j2][m2]]
        0 <= j1 < groups.len() && 0 <= m1 < groups[j1].len() && 0 <= j2 < groups.len() && 0 <= m2
            < groups[j2].len() && (j1 != j2 || m1 != m2) ==> groups[j1][m1] != groups[j2][m2]
}

/// The views of a vector of groups, as a sequence of sequences.
pub open spec fn seq_views(groups: Seq<Vec<Index>>) -> Seq<Seq<Index>> {
    groups.map_values(|g: Vec<Index>| g@)
}

/// One arena entry: the stored value plus the ordered list of handles it
/// depends on.  Duplicate dependencies are permitted and kept.
struct Node<T> {
    inner: T,
    dependencies: Vec<Index>,
}

/// One slot of the arena.  `generation` counts how many times the slot has
/// been vacated; `node` is `None` while the slot is empty.
struct Slot<T> {
    generation: u64,
    node: Option<Node<T>>,
}

/// An arena of values with directed dependency edges between them and
/// generation-checked handles, so that removal neither shifts other nodes nor
/// lets a stale handle alias a slot's later occupant.
pub struct DepGraph<T> {
    slots: Vec<Slot<T>>,
    free: Vec<usize>,
}

impl<T> DepGraph<T> {
    /// Internal well-formedness: the free list names exactly the vacant slots
    /// that may be reused (a slot whose generation counter is exhausted is
    /// retired and never handed out again), without duplicates.
    pub closed spec fn wf(self) -> bool {
        &&& forall|k: int|
            0 <= k < self.free@.len() ==> (#[trigger] self.free@[k]) < self.slots@.len()
                && self.slots@[self.free@[k] as int].node is None
        &&& forall|k1: int, k2: int|
            0 <= k1 < k2 < self.free@.len() ==> self.free@[k1] != self.free@[k2]
        &&& forall|s: usize|
            s < self.slots@.len() && (#[trigger] self.slots@[s as int]).node is None
                && self.slots@[s as int].generation < u64::MAX ==> self.free@.contains(s)
    }

    /// Whether `i` names a node currently present in the arena.
    pub closed spec fn spec_contains(&self, i: Index) -> bool {
        &&& i.slot < self.slots@.len()
        &&& self.slots@[i.slot as int].generation == i.generation
        &&& self.slots@[i.slot as int].node is Some
    }

    /// The value stored at `i` (meaningful only when `spec_contains(i)`).
    pub closed spec fn value_of(self, i: Index) -> T {
        self.slots@[i.slot as int].node->0.inner
    }

    /// The ordered dependency list of the node at `i` (meaningful only when
    /// `spec_contains(i)`).
    pub closed spec fn deps_of(self, i: Index) -> Seq<Index> {
        self.slots@[i.slot as int].node->0.dependencies@
    }

    /// Number of slots ever allocated (an upper bound on the node count).
    pub closed spec fn slot_count(self) -> nat {
        self.slots@.len()
    }

    /// Two graphs hold the same nodes: the same handles are present, with the
    /// same values and the same dependency lists.
    pub open spec fn same_nodes(self, other: Self) -> bool {
        &&& forall|i: Index| #[trigger] self.spec_contains(i) <==> other.spec_contains(i)
        &&& forall|i: Index|
            #[trigger] self.spec_contains(i) ==> self.value_of(i) == other.value_of(i)
                && self.deps_of(i) == other.deps_of(i)
    }

    /// Some dependency of the node `e` lies in the group `g`.
    pub open spec fn some_dep_in(self, g: Seq<Index>, e: Index) -> bool {
        exists|q: int| 0 <= q < self.deps_of(e).len() && g.contains(#[trigger] self.deps_of(e)[q])
    }

    /// Some dependency of the node `e` is itself in `s` or dangling.
    pub open spec fn some_dep_blocked(self, s: Seq<Index>, e: Index) -> bool {
        exists|q: int|
            0 <= q < self.deps_of(e).len() && (s.contains(#[trigger] self.deps_of(e)[q])
                || !self.spec_contains(self.deps_of(e)[q]))
    }

    /// Some dependency of the node `e` lies outside the first `bound` groups.
    pub open spec fn some_dep_outside(self, gv: Seq<Seq<Index>>, bound: int, e: Index) -> bool {
        exists|q: int|
            0 <= q < self.deps_of(e).len() && !in_first_groups(
                gv,
                bound,
                #[trigger] self.deps_of(e)[q],
            )
    }

    /// An empty graph.
    pub fn new() -> (g: DepGraph<T>)
        ensures
            g.wf(),
            forall|i: Index| !g.spec_contains(i),
            g.slot_count() == 0,
    {
        DepGraph { slots: Vec::new(), free: Vec::new() }
    }

    /// An empty graph with room reserved for `capacity` nodes.
    pub fn with_capacity(capacity: usize) -> (g: DepGraph<T>)
        ensures
            g.wf(),
            forall|i: Index| !g.spec_contains(i),
            g.slot_count() == 0,
    {
        DepGraph { slots: Vec::with_capacity(capacity), free: Vec::new() }
    }

    /// Reserve room for `additional_capacity` more nodes; the stored nodes and
    /// edges are unchanged.
    pub fn reserve(&mut self, additional_capacity: usize)
        requires
            old(self).wf(),
        ensures
            final(self).wf(),
            final(self).same_nodes(*old(self)),
            final(self).slot_count() == old(self).slot_count(),
    {
        self.slots.reserve(additional_capacity);
    }

    /// Whether `indx` names a node currently present in the arena.
    #[verifier::when_used_as_spec(spec_contains)]
    pub fn contains(&self, indx: Index) -> (b: bool)
        ensures
            b == self.spec_contains(indx),
    {
        indx.slot < self.slots.len() && self.slots[indx.slot].generation == indx.generation
            && self.slots[indx.slot].node.is_some()
    }

    /// Add a value to the graph with no dependencies, returning a fresh handle
    /// to it.  Every node already present keeps its handle, value and edges.
    pub fn insert(&mut self, inner: T) -> (i: Index)
        requires
            old(self).wf(),
        ensures
            final(self).wf(),
            final(self).spec_contains(i),
            !old(self).spec_contains(i),
            final(self).value_of(i) == inner,
            final(self).deps_of(i) == Seq::<Index>::empty(),
            forall|j: Index| j != i ==> (#[trigger] final(self).spec_contains(j) <==> old(self).spec_contains(j)),
            forall|j: Index|
                j != i && #[trigger] old(self).spec_contains(j) ==> final(self).value_of(j) == old(self).value_of(j)
                    && final(self).deps_of(j) == old(self).deps_of(j),
            final(self).slot_count() <= old(self).slot_count() + 1,
    {
        let node = Node { inner, dependencies: Vec::new() };
        match self.free.pop() {
            Some(s) => {
                let generation = self.slots[s].generation;
                let slot_ref = &mut self.slots[s];
                slot_ref.node = Some(node);
                proof {
                    let oldf = old(self).free@;
                    let newf = self.free@;
                    assert forall|s2: usize|
                        s2 < self.slots@.len() && (#[trigger] self.slots@[s2 as int]).node is None
                            && self.slots@[s2 as int].generation < u64::MAX implies newf.contains(
                        s2,
                    ) by {
                        assert(s2 != s);
                        assert(old(self).slots@[s2 as int].node is None);
                        assert(oldf.contains(s2));
                        let k = choose|k: int| 0 <= k < oldf.len() && oldf[k] == s2;
                        assert(oldf[oldf.len() - 1] == s);
                        assert(k < oldf.len() - 1);
                        assert(newf[k] == s2);
                    }
                    assert forall|k: int|
                        0 <= k < newf.len() implies (#[trigger] newf[k]) < self.slots@.len()
                            && self.slots@[newf[k] as int].node is None by {
                        assert(newf[k] == oldf[k]);
                        assert(oldf[oldf.len() - 1] == s as usize);
                        assert(oldf[k] != s as usize);
                    }
                }
                Index { slot: s, generation }
            }
            None => {
                let s = self.slots.len();
                self.slots.push(Slot { generation: 0, node: Some(node) });
                proof {
                    assert forall|s2: usize|
                        s2 < self.slots@.len() && (#[trigger] self.slots@[s2 as int]).node is None
                            && self.slots@[s2 as int].generation < u64::MAX implies self.free@.contains(
                        s2,
                    ) by {
                        assert(s2 != s);
                        assert(old(self).slots@[s2 as int].node is None);
                    }
                }
                Index { slot: s, generation: 0 }
            }
        }
    }

    /// Borrow the value at `indx`, or `None` when the handle is stale or was
    /// never issued.
    pub fn get(&self, indx: Index) -> (r: Option<&T>)
        ensures
            match r {
                Some(v) => self.spec_contains(indx) && *v == self.value_of(indx),
                None => !self.spec_contains(indx),
            },
    {
        if indx.slot < self.slots.len() && self.slots[indx.slot].generation == indx.generation {
            match &self.slots[indx.slot].node {
                Some(node) => Some(&node.inner),
                None => None,
            }
        } else {
            None
        }
    }

    /// Remove the node at `indx`, returning its value, or `None` (leaving the
    /// graph unchanged) when the handle is stale or was never issued.  Every
    /// other node keeps its handle, value and edges; dependency lists that
    /// mention `indx` keep the now-dangling entry.
    pub fn remove(&mut self, indx: Index) -> (r: Option<T>)
        requires
            old(self).wf(),
        ensures
            final(self).wf(),
            match r {
                Some(v) => old(self).spec_contains(indx) && v == old(self).value_of(indx),
                None => !old(self).spec_contains(indx) && *final(self) == *old(self),
            },
            !final(self).spec_contains(indx),
            forall|j: Index| j != indx ==> (#[trigger] final(self).spec_contains(j) <==> old(self).spec_contains(j)),
            forall|j: Index|
                j != indx && #[trigger] old(self).spec_contains(j) ==> final(self).value_of(j) == old(self).value_of(j)
                    && final(self).deps_of(j) == old(self).deps_of(j),
    {
        if indx.slot < self.slots.len() && self.slots[indx.slot].generation == indx.generation
            && self.slots[indx.slot].node.is_some() {
            let slot_ref = &mut self.slots[indx.slot];
            let mut taken: Option<Node<T>> = None;
            core::mem::swap(&mut taken, &mut slot_ref.node);
            if slot_ref.generation < u64::MAX {
                slot_ref.generation = slot_ref.generation + 1;
                proof {
                    assert(!old(self).free@.contains(indx.slot));
                }
                self.free.push(indx.slot);
                proof {
                    let oldf = old(self).free@;
                    let newf = self.free@;
                    assert forall|s2: usize|
                        s2 < self.slots@.len() && (#[trigger] self.slots@[s2 as int]).node is None
                            && self.slots@[s2 as int].generation < u64::MAX implies newf.contains(
                        s2,
                    ) by {
                        if s2 == indx.slot {
                            assert(newf[newf.len() - 1] == indx.slot);
                        } else {
                            assert(old(self).slots@[s2 as int].node is None);
                            assert(oldf.contains(s2));
                            let k = choose|k: int| 0 <= k < oldf.len() && oldf[k] == s2;
                            assert(newf[k] == s2);
                        }
                    }
                    assert forall|k: int|
                        0 <= k < newf.len() implies (#[trigger] newf[k]) < self.slots@.len()
                            && self.slots@[newf[k] as int].node is None by {
                        if k < newf.len() - 1 {
                            assert(newf[k] == oldf[k]);
                            assert(oldf[k] != indx.slot);
                        }
                    }
                }
            } else {
                proof {
                    assert forall|k: int|
                        0 <= k < self.free@.len() implies (#[trigger] self.free@[k])
                            < self.slots@.len() && self.slots@[self.free@[k] as int].node is None by {
                        assert(self.free@[k] != indx.slot);
                    }
                }
            }
            match taken {
                Some(node) => Some(node.inner),
                None => None,
            }
        } else {
            None
        }
    }

    /// The number of slots that hold a node not yet marked in `done`.
    closed spec fn pending_count(slots: Seq<Slot<T>>, done: Seq<bool>) -> nat
        decreases slots.len(),
    {
        if slots.len() == 0 {
            0
        } else {
            Self::pending_count(slots.drop_last(), done.drop_last()) + if slots.last().node is Some
                && !done[slots.len() - 1] {
                1nat
            } else {
                0nat
            }
        }
    }

    /// Marking one slot done never raises the pending count, and lowers it by
    /// exactly one when the slot held a node not yet marked.
    proof fn lemma_pending_count_update(slots: Seq<Slot<T>>, done: Seq<bool>, s: int)
        requires
            done.len() == slots.len(),
            0 <= s < slots.len(),
        ensures
            done[s] ==> Self::pending_count(slots, done.update(s, true)) == Self::pending_count(
                slots,
                done,
            ),
            !done[s] && slots[s].node is Some ==> Self::pending_count(slots, done.update(s, true))
                + 1 == Self::pending_count(slots, done),
            !done[s] && slots[s].node is None ==> Self::pending_count(slots, done.update(s, true))
                == Self::pending_count(slots, done),
        decreases slots.len(),
    {
        if slots.len() > 0 {
            if s == slots.len() - 1 {
                assert(done.update(s, true).drop_last() =~= done.drop_last());
            } else {
                assert(done.update(s, true).drop_last() =~= done.drop_last().update(s, true));
                Self::lemma_pending_count_update(slots.drop_last(), done.drop_last(), s);
            }
        }
    }

    /// The handle that currently names slot `s`.
    closed spec fn index_at(self, s: usize) -> Index {
        Index { slot: s, generation: self.slots@[s as int].generation }
    }

    /// Whether slot `s` currently holds a node.
    closed spec fn slot_occupied(self, s: usize) -> bool {
        s < self.slots@.len() && self.slots@[s as int].node is Some
    }

    /// A dependency handle counts as resolved when it names a present node
    /// whose slot is marked in `done`.
    closed spec fn dep_resolved(self, done: Seq<bool>, d: Index) -> bool {
        self.spec_contains(d) && done[d.slot as int]
    }

    /// Every dependency of the node in slot `s` is resolved under `done`.
    closed spec fn node_ready(self, done: Seq<bool>, s: usize) -> bool {
        forall|q: int|
            0 <= q < self.deps_of(self.index_at(s)).len() ==> self.dep_resolved(
                done,
                #[trigger] self.deps_of(self.index_at(s))[q],
            )
    }

    /// One fixed-point pass: collect, in slot order, every node not yet done
    /// whose dependencies are all done.
    fn scan_ready(&self, done: &Vec<bool>) -> (wave: Vec<Index>)
        requires
            done@.len() == self.slots@.len(),
        ensures
            forall|k: int|
                0 <= k < wave@.len() ==> (#[trigger] wave@[k]) == self.index_at(wave@[k].slot)
                    && self.slot_occupied(wave@[k].slot) && !done@[wave@[k].slot as int]
                    && self.node_ready(done@, wave@[k].slot),
            forall|k1: int, k2: int|
                0 <= k1 < k2 < wave@.len() ==> wave@[k1].slot < wave@[k2].slot,
            forall|s: usize|
                s < self.slots@.len() && self.slot_occupied(s) && !done@[s as int]
                    && self.node_ready(done@, s) ==> wave@.contains(#[trigger] self.index_at(s)),
    {
        let n = self.slots.len();
        let mut wave: Vec<Index> = Vec::new();
        for s in 0..n
            invariant
                n == self.slots@.len(),
                done@.len() == n,
                forall|k: int|
                    0 <= k < wave@.len() ==> (#[trigger] wave@[k]) == self.index_at(wave@[k].slot)
                        && self.slot_occupied(wave@[k].slot) && !done@[wave@[k].slot as int]
                        && self.node_ready(done@, wave@[k].slot),
                forall|k: int| 0 <= k < wave@.len() ==> (#[trigger] wave@[k]).slot < s,
                forall|k1: int, k2: int|
                    0 <= k1 < k2 < wave@.len() ==> wave@[k1].slot < wave@[k2].slot,
                forall|s2: usize|
                    s2 < s && self.slot_occupied(s2) && !done@[s2 as int] && self.node_ready(
                        done@,
                        s2,
                    ) ==> wave@.contains(#[trigger] self.index_at(s2)),
        {
            let occupied = match &self.slots[s].node {
                Some(_) => true,
                None => false,
            };
            if occupied && !done[s] {
                let indx = Index { slot: s, generation: self.slots[s].generation };
                let deps_ok = self.deps_resolved_under(indx, done);
                if deps_ok {
                    let ghost old_wave = wave@;
                    wave.push(indx);
                    proof {
                        assert(wave@.last() == self.index_at(s));
                        assert forall|k1: int, k2: int|
                            0 <= k1 < k2 < wave@.len() implies wave@[k1].slot < wave@[k2].slot by {
                            if k2 == wave@.len() - 1 {
                                assert(wave@[k1] == old_wave[k1]);
                            }
                        }
                        assert forall|s2: usize|
                            s2 < s + 1 && self.slot_occupied(s2) && !done@[s2 as int]
                                && self.node_ready(done@, s2) implies wave@.contains(
                            #[trigger] self.index_at(s2),
                        ) by {
                            if s2 == s {
                                assert(wave@[wave@.len() - 1] == self.index_at(s2));
                            } else {
                                assert(old_wave.contains(self.index_at(s2)));
                                let k = choose|k: int|
                                    0 <= k < old_wave.len() && old_wave[k] == self.index_at(s2);
                                assert(wave@[k] == self.index_at(s2));
                            }
                        }
                    }
                }
            }
        }
        wave
    }

    /// Check every dependency of the node at `indx` against `done`.
    fn deps_resolved_under(&self, indx: Index, done: &Vec<bool>) -> (b: bool)
        requires
            self.spec_contains(indx),
            done@.len() == self.slots@.len(),
        ensures
            b == self.node_ready(done@, indx.slot),
            indx == self.index_at(indx.slot),
    {
        let node = match &self.slots[indx.slot].node {
            Some(node) => node,
            None => {
                proof {
                    assert(false);
                }
                return false;
            }
        };
        let num_deps = node.dependencies.len();
        for q in 0..num_deps
            invariant
                num_deps == node.dependencies@.len(),
                node.dependencies@ == self.deps_of(self.index_at(indx.slot)),
                indx == self.index_at(indx.slot),
                done@.len() == self.slots@.len(),
                forall|q2: int|
                    0 <= q2 < q ==> self.dep_resolved(done@, #[trigger] node.dependencies@[q2]),
        {
            let d = node.dependencies[q];
            let ok = if self.contains(d) {
                done[d.slot]
            } else {
                false
            };
            if !ok {
                return false;
            }
        }
        true
    }

    /// The dependency list of the node at `indx`, copied out, or `None` when
    /// the handle is stale or was never issued.
    pub fn dependencies(&self, indx: Index) -> (r: Option<Vec<Index>>)
        ensures
            match r {
                Some(v) => self.spec_contains(indx) && v@ == self.deps_of(indx),
                None => !self.spec_contains(indx),
            },
    {
        if indx.slot < self.slots.len() && self.slots[indx.slot].generation == indx.generation {
            match &self.slots[indx.slot].node {
                Some(node) => {
                    let copy = node.dependencies.clone();
                    proof {
                        assert(copy@ =~= node.dependencies@);
                    }
                    Some(copy)
                },
                None => None,
            }
        } else {
            None
        }
    }

    /// Record that the node at `dependent` depends on the node at
    /// `dependency`, appending to `dependent`'s edge list.  Fails, changing
    /// nothing, unless both handles are currently present.
    pub fn dependency(&mut self, dependent: Index, dependency: Index) -> (r: Result<(), EdgeError>)
        requires
            old(self).wf(),
        ensures
            final(self).wf(),
            r is Ok <==> old(self).spec_contains(dependent) && old(self).spec_contains(dependency),
            r is Err ==> *final(self) == *old(self),
            r is Ok ==> final(self).deps_of(dependent) == old(self).deps_of(dependent).push(dependency),
            forall|j: Index| #[trigger] final(self).spec_contains(j) <==> old(self).spec_contains(j),
            forall|j: Index| #[trigger] old(self).spec_contains(j) ==> final(self).value_of(j) == old(self).value_of(j),
            forall|j: Index|
                j != dependent && #[trigger] old(self).spec_contains(j) ==> final(self).deps_of(j) == old(self).deps_of(j),
    {
        if self.contains(dependent) && self.contains(dependency) {
            let slot_ref = &mut self.slots[dependent.slot];
            match &mut slot_ref.node {
                Some(node) => {
                    node.dependencies.push(dependency);
                    Ok(())
                }
                None => {
                    proof {
                        assert(false);
                    }
                    Err(EdgeError)
                }
            }
        } else {
            Err(EdgeError)
        }
    }

    /// `groups` is a correct leveled resolution of the whole graph: every
    /// present node occurs in exactly one group, every dependency of a node in
    /// group `j` lies in a strictly earlier group, every node in group `j >= 1`
    /// has some dependency in group `j - 1` (so nodes start as early as they
    /// can), and no group is empty.
    pub open spec fn valid_grouping(self, groups: Seq<Seq<Index>>) -> bool {
        &&& forall|j: int, m: int|
            0 <= j < groups.len() && 0 <= m < groups[j].len() ==> self.spec_contains(
                #[trigger] groups[j][m],
            )
        &&& groups_pairwise_distinct(groups)
        &&& forall|i: Index|
            #[trigger] self.spec_contains(i) ==> in_first_groups(groups, groups.len() as int, i)
        &&& forall|j: int, m: int, q: int|
            #![trigger self.deps_of(groups[j][m])[q]]
            0 <= j < groups.len() && 0 <= m < groups[j].len() && 0 <= q < self.deps_of(
                groups[j][m],
            ).len() ==> in_first_groups(groups, j, self.deps_of(groups[j][m])[q])
        &&& forall|j: int, m: int|
            1 <= j < groups.len() && 0 <= m < groups[j].len() ==> self.some_dep_in(
                groups[j - 1],
                #[trigger] groups[j][m],
            )
        &&& forall|j: int| 0 <= j < groups.len() ==> (#[trigger] groups[j]).len() > 0
    }

    /// A non-empty collection of present nodes none of which can ever become
    /// ready: each has a dependency that is itself in the collection or
    /// dangling.
    pub open spec fn is_blocked_seq(self, s: Seq<Index>) -> bool {
        &&& s.len() > 0
        &&& forall|k: int| 0 <= k < s.len() ==> self.spec_contains(#[trigger] s[k])
        &&& forall|k: int|
            0 <= k < s.len() ==> self.some_dep_blocked(s, #[trigger] s[k])
    }

    /// The graph holds some blocked collection of nodes, so resolution cannot
    /// cover it.
    pub open spec fn has_blocked_set(self) -> bool {
        exists|s: Seq<Index>| self.is_blocked_seq(s)
    }

    /// `order` is a correct linearization of the whole graph: every present
    /// node occurs exactly once, and every dependency of a node occurs at a
    /// strictly earlier position.
    pub open spec fn valid_linear_order(self, order: Seq<Index>) -> bool {
        &&& forall|k: int| 0 <= k < order.len() ==> self.spec_contains(#[trigger] order[k])
        &&& forall|k1: int, k2: int| 0 <= k1 < k2 < order.len() ==> order[k1] != order[k2]
        &&& forall|i: Index| #[trigger] self.spec_contains(i) ==> order.contains(i)
        &&& forall|k: int, q: int|
            #![trigger self.deps_of(order[k])[q]]
            0 <= k < order.len() && 0 <= q < self.deps_of(order[k]).len() ==> appears_before(
                order,
                k,
                self.deps_of(order[k])[q],
            )
    }

    /// Invariant carried between resolution passes, tying the `done` marks to
    /// the groups already emitted.
    closed spec fn resolve_inv(self, done: Seq<bool>, gv: Seq<Seq<Index>>) -> bool {
        &&& forall|s: int| 0 <= s < done.len() && (#[trigger] done[s]) ==> self.slot_occupied(s as usize)
        &&& forall|j: int, m: int|
            0 <= j < gv.len() && 0 <= m < gv[j].len() ==> (#[trigger] gv[j][m]) == self.index_at(
                gv[j][m].slot,
            ) && self.slot_occupied(gv[j][m].slot) && done[gv[j][m].slot as int]
        &&& forall|s: usize|
            s < done.len() && done[s as int] ==> in_first_groups(
                gv,
                gv.len() as int,
                #[trigger] self.index_at(s),
            )
        &&& forall|j1: int, m1: int, j2: int, m2: int|
            #![trigger gv[j1][m1], gv[j2][m2]]
            0 <= j1 < gv.len() && 0 <= m1 < gv[j1].len() && 0 <= j2 < gv.len() && 0 <= m2
                < gv[j2].len() && (j1 != j2 || m1 != m2) ==> gv[j1][m1].slot != gv[j2][m2].slot
        &&& forall|j: int, m: int, q: int|
            #![trigger self.deps_of(gv[j][m])[q]]
            0 <= j < gv.len() && 0 <= m < gv[j].len() && 0 <= q < self.deps_of(gv[j][m]).len()
                ==> in_first_groups(gv, j, self.deps_of(gv[j][m])[q])
        &&& forall|j: int, m: int|
            1 <= j < gv.len() && 0 <= m < gv[j].len() ==> self.some_dep_in(
                gv[j - 1],
                #[trigger] gv[j][m],
            )
        &&& forall|j: int| 0 <= j < gv.len() ==> (#[trigger] gv[j]).len() > 0
    }

    /// After a pass that emitted no wave, every still-pending node has a
    /// dependency outside all but the last emitted group.
    closed spec fn stalled_except_last(self, done: Seq<bool>, gv: Seq<Seq<Index>>) -> bool {
        forall|s: usize|
            #![trigger self.slot_occupied(s)]
            s < done.len() && self.slot_occupied(s) && !done[s as int] ==> self.some_dep_outside(
                gv,
                gv.len() - 1,
                self.index_at(s),
            )
    }

    /// Under `resolve_inv`, a dependency is marked resolved exactly when it
    /// occurs in one of the emitted groups.
    proof fn lemma_resolved_iff(self, done: Seq<bool>, gv: Seq<Seq<Index>>, d: Index)
        requires
            self.resolve_inv(done, gv),
            done.len() == self.slots@.len(),
        ensures
            self.dep_resolved(done, d) <==> in_first_groups(gv, gv.len() as int, d),
    {
        if self.dep_resolved(done, d) {
            assert(d == self.index_at(d.slot));
        }
        if in_first_groups(gv, gv.len() as int, d) {
            let (j, m) = choose|j: int, m: int|
                0 <= j < gv.len() && 0 <= m < gv[j].len() && gv[j][m] == d;
            assert(gv[j][m] == self.index_at(gv[j][m].slot));
        }
    }

    /// Every node of a blocked collection stays outside the first `bound`
    /// groups of any valid grouping.
    proof fn lemma_blocked_outside_groups(self, groups: Seq<Seq<Index>>, s: Seq<Index>, bound: int)
        requires
            self.valid_grouping(groups),
            self.is_blocked_seq(s),
            0 <= bound <= groups.len(),
        ensures
            forall|k: int| 0 <= k < s.len() ==> !in_first_groups(groups, bound, #[trigger] s[k]),
        decreases bound,
    {
        if bound > 0 {
            self.lemma_blocked_outside_groups(groups, s, bound - 1);
            assert forall|k: int|
                0 <= k < s.len() implies !in_first_groups(groups, bound, #[trigger] s[k]) by {
                if in_first_groups(groups, bound, s[k]) {
                    let (j, m) = choose|j: int, m: int|
                        0 <= j < bound && j < groups.len() && 0 <= m < groups[j].len()
                            && groups[j][m] == s[k];
                    assert(j == bound - 1);
                    assert(self.some_dep_blocked(s, s[k]));
                    let q = choose|q: int|
                        0 <= q < self.deps_of(s[k]).len() && (s.contains(
                            #[trigger] self.deps_of(s[k])[q],
                        ) || !self.spec_contains(self.deps_of(s[k])[q]));
                    let d = self.deps_of(groups[j][m])[q];
                    assert(in_first_groups(groups, j, d));
                    let (j2, m2) = choose|j2: int, m2: int|
                        0 <= j2 < j && j2 < groups.len() && 0 <= m2 < groups[j2].len()
                            && groups[j2][m2] == d;
                    assert(self.spec_contains(d));
                    let k2 = choose|k2: int| 0 <= k2 < s.len() && s[k2] == d;
                    assert(in_first_groups(groups, bound - 1, s[k2]));
                }
            }
        }
    }

    /// Resolve the graph into ordered groups ("waves"): group 0 holds the
    /// nodes with no unresolved dependencies, and every node of group `k`
    /// has all its dependencies in groups `0..k`, at least one of them in
    /// group `k - 1`.  When some nodes can never become ready (a dependency
    /// cycle, or an edge left dangling by a removal), the call reports them
    /// in a `CycleError` instead of looping forever; this happens exactly
    /// when the graph holds a blocked collection.
    pub fn grouped_resolve(&self) -> (r: Result<Vec<Vec<Index>>, CycleError>)
        ensures
            match r {
                Ok(groups) => self.valid_grouping(seq_views(groups@)) && !self.has_blocked_set(),
                Err(e) => self.is_blocked_seq(e.unresolved@) && self.has_blocked_set(),
            },
    {
        let n = self.slots.len();
        let mut done: Vec<bool> = Vec::new();
        for s in 0..n
            invariant
                done@.len() == s,
                forall|i: int| 0 <= i < s ==> !(#[trigger] done@[i]),
        {
            done.push(false);
        }
        let mut groups: Vec<Vec<Index>> = Vec::new();
        loop
            invariant
                n == self.slots@.len(),
                done@.len() == n,
                self.resolve_inv(done@, seq_views(groups@)),
                groups@.len() == 0 || self.stalled_except_last(done@, seq_views(groups@)),
            decreases Self::pending_count(self.slots@, done@),
        {
            let ghost pass_done = done@;
            let ghost old_gv = seq_views(groups@);
            let wave = self.scan_ready(&done);
            if wave.len() == 0 {
                let mut rest: Vec<Index> = Vec::new();
                for s in 0..n
                    invariant
                        n == self.slots@.len(),
                        done@.len() == n,
                        forall|k: int|
                            0 <= k < rest@.len() ==> (#[trigger] rest@[k]) == self.index_at(
                                rest@[k].slot,
                            ) && self.slot_occupied(rest@[k].slot) && !done@[rest@[k].slot as int],
                        forall|s2: usize|
                            s2 < s && self.slot_occupied(s2) && !done@[s2 as int]
                                ==> rest@.contains(#[trigger] self.index_at(s2)),
                {
                    let occupied = match &self.slots[s].node {
                        Some(_) => true,
                        None => false,
                    };
                    if occupied && !done[s] {
                        let ghost old_rest = rest@;
                        rest.push(Index { slot: s, generation: self.slots[s].generation });
                        proof {
                            assert(rest@[rest@.len() - 1] == self.index_at(s));
                            assert forall|s2: usize|
                                s2 < s + 1 && self.slot_occupied(s2) && !done@[s2 as int]
                                    implies rest@.contains(#[trigger] self.index_at(s2)) by {
                                if s2 == s {
                                    assert(rest@[rest@.len() - 1] == self.index_at(s2));
                                } else {
                                    assert(old_rest.contains(self.index_at(s2)));
                                    let k = choose|k: int|
                                        0 <= k < old_rest.len() && old_rest[k] == self.index_at(
                                            s2,
                                        );
                                    assert(rest@[k] == self.index_at(s2));
                                }
                            }
                        }
                    }
                }
                if rest.len() == 0 {
                    proof {
                        let gv = seq_views(groups@);
                        assert forall|i: Index| #[trigger] self.spec_contains(i)
                            implies in_first_groups(gv, gv.len() as int, i) by {
                            assert(self.slot_occupied(i.slot));
                            assert(!rest@.contains(self.index_at(i.slot)));
                            assert(done@[i.slot as int]);
                            assert(i == self.index_at(i.slot));
                        }
                        assert forall|j: int, m: int|
                            0 <= j < gv.len() && 0 <= m < gv[j].len() implies self.spec_contains(
                            #[trigger] gv[j][m],
                        ) by {
                            assert(gv[j][m] == self.index_at(gv[j][m].slot));
                        }
                        assert(groups_pairwise_distinct(gv));
                        assert(self.valid_grouping(gv));
                        self.lemma_valid_grouping_no_blocked(gv);
                    }
                    return Ok(groups);
                } else {
                    proof {
                        assert forall|k: int|
                            0 <= k < rest@.len() implies self.some_dep_blocked(
                            rest@,
                            #[trigger] rest@[k],
                        ) by {
                            let e = rest@[k];
                            let s = e.slot;
                            assert(e == self.index_at(s));
                            assert(self.slot_occupied(s) && !done@[s as int]);
                            assert(!wave@.contains(self.index_at(s)));
                            assert(!self.node_ready(done@, s));
                            let q = choose|q: int|
                                0 <= q < self.deps_of(self.index_at(s)).len() && !self.dep_resolved(
                                    done@,
                                    self.deps_of(self.index_at(s))[q],
                                );
                            assert(0 <= q < self.deps_of(self.index_at(s)).len()
                                && !self.dep_resolved(done@, self.deps_of(self.index_at(s))[q]));
                            let d = self.deps_of(e)[q];
                            if self.spec_contains(d) {
                                assert(!done@[d.slot as int]);
                                assert(self.slot_occupied(d.slot));
                                assert(rest@.contains(self.index_at(d.slot)));
                                assert(d == self.index_at(d.slot));
                                assert(rest@.contains(d));
                            }
                            assert(0 <= q < self.deps_of(rest@[k]).len() && (rest@.contains(
                                self.deps_of(rest@[k])[q],
                            ) || !self.spec_contains(self.deps_of(rest@[k])[q])));
                            assert(self.some_dep_blocked(rest@, rest@[k]));
                        }
                        assert forall|k: int| 0 <= k < rest@.len() implies self.spec_contains(
                            #[trigger] rest@[k],
                        ) by {
                            assert(rest@[k] == self.index_at(rest@[k].slot));
                        }
                        assert(self.is_blocked_seq(rest@));
                    }
                    return Err(CycleError { unresolved: rest });
                }
            } else {
                let num_marked = wave.len();
                for k in 0..num_marked
                    invariant
                        n == self.slots@.len(),
                        done@.len() == n,
                        num_marked == wave@.len(),
                        forall|k2: int|
                            0 <= k2 < wave@.len() ==> (#[trigger] wave@[k2]) == self.index_at(
                                wave@[k2].slot,
                            ) && self.slot_occupied(wave@[k2].slot)
                                && !pass_done[wave@[k2].slot as int] && self.node_ready(
                                pass_done,
                                wave@[k2].slot,
                            ),
                        forall|k1: int, k2: int|
                            0 <= k1 < k2 < wave@.len() ==> wave@[k1].slot < wave@[k2].slot,
                        pass_done.len() == n,
                        forall|s: int|
                            0 <= s < n ==> (#[trigger] done@[s]) == (pass_done[s] || exists|k2: int|
                                0 <= k2 < k && (#[trigger] wave@[k2]).slot == s),
                        Self::pending_count(self.slots@, done@) + k == Self::pending_count(
                            self.slots@,
                            pass_done,
                        ),
                {
                    let s = wave[k].slot;
                    let ghost prev_done = done@;
                    proof {
                        assert forall|k2: int|
                            0 <= k2 < k implies (#[trigger] wave@[k2]).slot != s by {
                            assert(wave@[k2].slot < wave@[k as int].slot);
                        }
                        assert(!done@[s as int]);
                        Self::lemma_pending_count_update(self.slots@, done@, s as int);
                    }
                    done.set(s, true);
                    proof {
                        assert forall|s2: int|
                            0 <= s2 < n implies (#[trigger] done@[s2]) == (pass_done[s2] || exists|
                            k2: int,
                        |
                            0 <= k2 < k + 1 && (#[trigger] wave@[k2]).slot == s2) by {
                            if s2 == s as int {
                                assert(wave@[k as int].slot == s2);
                            } else {
                                assert(done@[s2] == prev_done[s2]);
                            }
                        }
                    }
                }
                let ghost wv = wave@;
                groups.push(wave);
                proof {
                    let gv = seq_views(groups@);
                    assert(gv =~= old_gv.push(wv));
                    assert(gv.len() == old_gv.len() + 1);
                    assert forall|j: int| 0 <= j < old_gv.len() implies gv[j] == old_gv[j] by {}
                    // Every dependency of a wave node was resolved at pass
                    // start, hence lies in the groups emitted before this one.
                    assert forall|m: int, q: int|
                        0 <= m < wv.len() && 0 <= q < self.deps_of(wv[m]).len() implies {
                        &&& in_first_groups(gv, old_gv.len() as int, self.deps_of(wv[m])[q])
                        &&& self.dep_resolved(pass_done, self.deps_of(wv[m])[q])
                    } by {
                        let d = self.deps_of(self.index_at(wv[m].slot))[q];
                        assert(self.dep_resolved(pass_done, d));
                        self.lemma_resolved_iff(pass_done, old_gv, d);
                        lemma_in_first_groups_push(old_gv, wv, old_gv.len() as int, d);
                    }
                    // The first seven clauses of the invariant, one by one.
                    assert forall|s: int|
                        0 <= s < done@.len() && (#[trigger] done@[s]) implies self.slot_occupied(
                        s as usize,
                    ) by {
                        if !pass_done[s] {
                            let k2 = choose|k2: int|
                                0 <= k2 < wv.len() && (#[trigger] wv[k2]).slot == s;
                            assert(self.slot_occupied(wv[k2].slot));
                        }
                    }
                    assert forall|j: int, m: int|
                        0 <= j < gv.len() && 0 <= m < gv[j].len() implies (#[trigger] gv[j][m])
                        == self.index_at(gv[j][m].slot) && self.slot_occupied(gv[j][m].slot)
                        && done@[gv[j][m].slot as int] by {
                        if j < old_gv.len() {
                            assert(old_gv[j][m] == self.index_at(old_gv[j][m].slot));
                            assert(pass_done[old_gv[j][m].slot as int]);
                        } else {
                            assert(gv[j][m] == wv[m]);
                            assert(wv[m].slot == wv[m].slot && exists|k2: int|
                                0 <= k2 < wv.len() && (#[trigger] wv[k2]).slot == wv[m].slot);
                        }
                    }
                    assert forall|s: usize| s < done@.len() && done@[s as int]
                        implies in_first_groups(gv, gv.len() as int, #[trigger] self.index_at(s)) by {
                        if pass_done[s as int] {
                            assert(in_first_groups(old_gv, old_gv.len() as int, self.index_at(s)));
                            lemma_in_first_groups_push(
                                old_gv,
                                wv,
                                old_gv.len() as int,
                                self.index_at(s),
                            );
                            let (j, m) = choose|j: int, m: int|
                                0 <= j < old_gv.len() as int && j < gv.len() && 0 <= m
                                    < gv[j].len() && gv[j][m] == self.index_at(s);
                            assert(in_first_groups(gv, gv.len() as int, self.index_at(s)));
                        } else {
                            let k2 = choose|k2: int|
                                0 <= k2 < wv.len() && (#[trigger] wv[k2]).slot == s;
                            assert(wv[k2] == self.index_at(s));
                            assert(gv[gv.len() - 1][k2] == self.index_at(s));
                        }
                    }
                    assert forall|j1: int, m1: int, j2: int, m2: int|
                        #![trigger gv[j1][m1], gv[j2][m2]]
                        0 <= j1 < gv.len() && 0 <= m1 < gv[j1].len() && 0 <= j2 < gv.len() && 0
                            <= m2 < gv[j2].len() && (j1 != j2 || m1 != m2) implies gv[j1][m1].slot
                        != gv[j2][m2].slot by {
                        if j1 < old_gv.len() && j2 == old_gv.len() as int {
                            assert(pass_done[old_gv[j1][m1].slot as int]);
                            assert(!pass_done[wv[m2].slot as int]);
                        } else if j2 < old_gv.len() && j1 == old_gv.len() as int {
                            assert(pass_done[old_gv[j2][m2].slot as int]);
                            assert(!pass_done[wv[m1].slot as int]);
                        } else if j1 == old_gv.len() as int && j2 == old_gv.len() as int {
                            if m1 < m2 {
                                assert(wv[m1].slot < wv[m2].slot);
                            } else {
                                assert(wv[m2].slot < wv[m1].slot);
                            }
                        }
                    }
                    assert forall|j: int, m: int, q: int|
                        #![trigger self.deps_of(gv[j][m])[q]]
                        0 <= j < gv.len() && 0 <= m < gv[j].len() && 0 <= q < self.deps_of(
                            gv[j][m],
                        ).len() implies in_first_groups(gv, j, self.deps_of(gv[j][m])[q]) by {
                        if j < old_gv.len() {
                            assert(in_first_groups(old_gv, j, self.deps_of(old_gv[j][m])[q]));
                            lemma_in_first_groups_push(old_gv, wv, j, self.deps_of(gv[j][m])[q]);
                        } else {
                            assert(gv[j][m] == wv[m]);
                        }
                    }
                    assert forall|j: int, m: int|
                        1 <= j < gv.len() && 0 <= m < gv[j].len() implies self.some_dep_in(
                        gv[j - 1],
                        #[trigger] gv[j][m],
                    ) by {
                        if j < old_gv.len() {
                            assert(self.some_dep_in(old_gv[j - 1], old_gv[j][m]));
                            assert(gv[j - 1] == old_gv[j - 1]);
                            assert(gv[j][m] == old_gv[j][m]);
                        } else {
                            // A wave node of a later pass was stalled before:
                            // one of its dependencies lay outside the groups
                            // emitted before the previous one, yet all its
                            // dependencies now lie in the emitted groups, so
                            // that one lies exactly in the previous group.
                            let e = gv[j][m];
                            assert(e == wv[m]);
                            assert(self.slot_occupied(e.slot) && !pass_done[e.slot as int]);
                            assert(self.stalled_except_last(pass_done, old_gv));
                            assert(self.some_dep_outside(old_gv, old_gv.len() - 1, e));
                            let q = choose|q: int|
                                0 <= q < self.deps_of(e).len() && !in_first_groups(
                                    old_gv,
                                    old_gv.len() - 1,
                                    #[trigger] self.deps_of(e)[q],
                                );
                            let d = self.deps_of(e)[q];
                            assert(in_first_groups(gv, old_gv.len() as int, d));
                            let (j2, m2) = choose|j2: int, m2: int|
                                0 <= j2 < old_gv.len() as int && j2 < gv.len() && 0 <= m2
                                    < gv[j2].len() && gv[j2][m2] == d;
                            assert(j2 == old_gv.len() - 1);
                            assert(gv[j - 1][m2] == d);
                            assert(gv[j - 1].contains(d));
                            assert(0 <= q < self.deps_of(gv[j][m]).len() && gv[j - 1].contains(
                                self.deps_of(gv[j][m])[q],
                            ));
                            assert(self.some_dep_in(gv[j - 1], gv[j][m]));
                        }
                    }
                    // Still-pending nodes were scanned and skipped, so some
                    // dependency of theirs lies outside every emitted group
                    // but the newest.
                    assert forall|s: usize|
                        #![trigger self.slot_occupied(s)]
                        s < done@.len() && self.slot_occupied(s) && !done@[s as int]
                            implies self.some_dep_outside(gv, gv.len() - 1, self.index_at(s)) by {
                        assert(!pass_done[s as int]);
                        assert(!wave@.contains(self.index_at(s)));
                        assert(!self.node_ready(pass_done, s));
                        let q = choose|q: int|
                            0 <= q < self.deps_of(self.index_at(s)).len() && !self.dep_resolved(
                                pass_done,
                                self.deps_of(self.index_at(s))[q],
                            );
                        let d = self.deps_of(self.index_at(s))[q];
                        self.lemma_resolved_iff(pass_done, old_gv, d);
                        lemma_in_first_groups_push(old_gv, wv, old_gv.len() as int, d);
                        assert(!in_first_groups(gv, gv.len() - 1, d));
                        assert(0 <= q < self.deps_of(self.index_at(s)).len() && !in_first_groups(
                            gv,
                            gv.len() - 1,
                            self.deps_of(self.index_at(s))[q],
                        ));
                    }
                }
            }
        }
    }

    /// Stepping stone for flattening: the flattened first `t` groups contain
    /// exactly the entries of those groups, without duplicates, and every
    /// dependency of a flattened node appears at a strictly earlier position.
    proof fn lemma_flatten_take_props(self, groups: Seq<Seq<Index>>, t: int)
        requires
            self.valid_grouping(groups),
            0 <= t <= groups.len(),
        ensures
            forall|k: int|
                0 <= k < groups.take(t).flatten_alt().len() ==> in_first_groups(
                    groups,
                    t,
                    #[trigger] groups.take(t).flatten_alt()[k],
                ),
            forall|j: int, m: int|
                0 <= j < t && 0 <= m < groups[j].len() ==> appears_before(
                    groups.take(t).flatten_alt(),
                    groups.take(t).flatten_alt().len() as int,
                    #[trigger] groups[j][m],
                ),
            forall|k1: int, k2: int|
                0 <= k1 < k2 < groups.take(t).flatten_alt().len() ==> groups.take(
                    t,
                ).flatten_alt()[k1] != groups.take(t).flatten_alt()[k2],
            forall|k: int, q: int|
                #![trigger self.deps_of(groups.take(t).flatten_alt()[k])[q]]
                0 <= k < groups.take(t).flatten_alt().len() && 0 <= q < self.deps_of(
                    groups.take(t).flatten_alt()[k],
                ).len() ==> appears_before(
                    groups.take(t).flatten_alt(),
                    k,
                    self.deps_of(groups.take(t).flatten_alt()[k])[q],
                ),
        decreases t,
    {
        if t == 0 {
            assert(groups.take(0).flatten_alt() =~= Seq::<Index>::empty());
        } else {
            self.lemma_flatten_take_props(groups, t - 1);
            let fp = groups.take(t - 1).flatten_alt();
            let g = groups[t - 1];
            let ft = groups.take(t).flatten_alt();
            assert(groups.take(t).drop_last() =~= groups.take(t - 1));
            assert(groups.take(t).last() == groups[t - 1]);
            assert(ft == fp + g);
            assert forall|k: int| 0 <= k < ft.len() implies in_first_groups(
                groups,
                t,
                #[trigger] ft[k],
            ) by {
                if k < fp.len() {
                    assert(ft[k] == fp[k]);
                    lemma_in_first_groups_mono(groups, t - 1, t, fp[k]);
                } else {
                    assert(ft[k] == g[k - fp.len()]);
                    assert(groups[t - 1][k - fp.len()] == ft[k]);
                }
            }
            assert forall|j: int, m: int|
                0 <= j < t && 0 <= m < groups[j].len() implies appears_before(
                ft,
                ft.len() as int,
                #[trigger] groups[j][m],
            ) by {
                if j < t - 1 {
                    assert(appears_before(fp, fp.len() as int, groups[j][m]));
                    let p = choose|p: int|
                        0 <= p < fp.len() && p < fp.len() && (#[trigger] fp[p]) == groups[j][m];
                    assert(ft[p] == groups[j][m]);
                } else {
                    assert(ft[fp.len() + m] == groups[j][m]);
                }
            }
            assert forall|k1: int, k2: int|
                0 <= k1 < k2 < ft.len() implies ft[k1] != ft[k2] by {
                if k1 < fp.len() && k2 >= fp.len() {
                    assert(in_first_groups(groups, t - 1, fp[k1]));
                    let (j1, m1) = choose|j1: int, m1: int|
                        0 <= j1 < t - 1 && j1 < groups.len() && 0 <= m1 < groups[j1].len() && (
                        #[trigger] groups[j1][m1]) == fp[k1];
                    assert(ft[k2] == groups[t - 1][k2 - fp.len()]);
                    assert(groups[j1][m1] != groups[t - 1][k2 - fp.len()]);
                } else if k1 >= fp.len() {
                    assert(ft[k1] == groups[t - 1][k1 - fp.len()]);
                    assert(ft[k2] == groups[t - 1][k2 - fp.len()]);
                }
            }
            assert forall|k: int, q: int|
                0 <= k < ft.len() && 0 <= q < self.deps_of(ft[k]).len() implies appears_before(
                ft,
                k,
                #[trigger] self.deps_of(ft[k])[q],
            ) by {
                let d = self.deps_of(ft[k])[q];
                if k < fp.len() {
                    assert(ft[k] == fp[k]);
                    assert(appears_before(fp, k, d));
                    let p = choose|p: int| 0 <= p < k && p < fp.len() && (#[trigger] fp[p]) == d;
                    assert(ft[p] == d);
                } else {
                    let m = k - fp.len();
                    assert(ft[k] == groups[t - 1][m]);
                    assert(in_first_groups(groups, t - 1, d));
                    let (j2, m2) = choose|j2: int, m2: int|
                        0 <= j2 < t - 1 && j2 < groups.len() && 0 <= m2 < groups[j2].len() && (
                        #[trigger] groups[j2][m2]) == d;
                    assert(appears_before(fp, fp.len() as int, groups[j2][m2]));
                    let p = choose|p: int|
                        0 <= p < fp.len() && p < fp.len() && (#[trigger] fp[p]) == d;
                    assert(ft[p] == d);
                }
            }
        }
    }

    /// The groups of a valid grouping, flattened in group order, form a valid
    /// linearization of the graph: every stored edge points backwards in it.
    pub proof fn lemma_valid_grouping_linearizes(self, groups: Seq<Seq<Index>>)
        requires
            self.valid_grouping(groups),
        ensures
            self.valid_linear_order(groups.flatten()),
    {
        let t = groups.len() as int;
        self.lemma_flatten_take_props(groups, t);
        assert(groups.take(t) =~= groups);
        groups.lemma_flatten_and_flatten_alt_are_equivalent();
        let f = groups.flatten();
        assert(f == groups.take(t).flatten_alt());
        assert forall|k: int| 0 <= k < f.len() implies self.spec_contains(#[trigger] f[k]) by {
            assert(in_first_groups(groups, t, f[k]));
            let (j, m) = choose|j: int, m: int|
                0 <= j < t && j < groups.len() && 0 <= m < groups[j].len() && (
                #[trigger] groups[j][m]) == f[k];
            assert(self.spec_contains(groups[j][m]));
        }
        assert forall|i: Index| #[trigger] self.spec_contains(i) implies f.contains(i) by {
            assert(in_first_groups(groups, t, i));
            let (j, m) = choose|j: int, m: int|
                0 <= j < t && j < groups.len() && 0 <= m < groups[j].len() && (
                #[trigger] groups[j][m]) == i;
            assert(appears_before(f, f.len() as int, groups[j][m]));
            let p = choose|p: int| 0 <= p < f.len() && (#[trigger] f[p]) == i;
            assert(f[p] == i);
        }
    }

    /// When no node of the graph has any dependency, a valid grouping is a
    /// single wave holding every node (or no wave at all for an empty graph).
    pub proof fn lemma_no_deps_single_group(self, groups: Seq<Seq<Index>>, witness: Index)
        requires
            self.valid_grouping(groups),
            self.spec_contains(witness),
            forall|i: Index| #[trigger] self.spec_contains(i) ==> self.deps_of(i).len() == 0,
        ensures
            groups.len() == 1,
            forall|i: Index| #[trigger] self.spec_contains(i) <==> groups[0].contains(i),
    {
        assert(in_first_groups(groups, groups.len() as int, witness));
        assert(groups.len() >= 1);
        if groups.len() >= 2 {
            assert(groups[1].len() > 0);
            let e = groups[1][0];
            assert(self.some_dep_in(groups[0], e));
            let q = choose|q: int|
                0 <= q < self.deps_of(e).len() && groups[0].contains(#[trigger] self.deps_of(e)[q]);
            assert(self.spec_contains(e));
            assert(false);
        }
        assert forall|i: Index| #[trigger] self.spec_contains(i) implies groups[0].contains(i) by {
            assert(in_first_groups(groups, 1, i));
            let (j, m) = choose|j: int, m: int|
                0 <= j < 1 && j < groups.len() && 0 <= m < groups[j].len() && (
                #[trigger] groups[j][m]) == i;
            assert(groups[0][m] == i);
        }
        assert forall|i: Index| groups[0].contains(i) implies self.spec_contains(i) by {
            let m = choose|m: int| 0 <= m < groups[0].len() && (#[trigger] groups[0][m]) == i;
            assert(self.spec_contains(groups[0][m]));
        }
    }

    /// Resolve the graph into one total order: a flattening, in group order,
    /// of `grouped_resolve`'s waves.  Fails with the same structured error on
    /// a graph that holds a blocked collection.
    pub fn linear_resolve(&self) -> (r: Result<Vec<Index>, CycleError>)
        ensures
            match r {
                Ok(order) => self.valid_linear_order(order@) && !self.has_blocked_set(),
                Err(e) => self.is_blocked_seq(e.unresolved@) && self.has_blocked_set(),
            },
    {
        let groups = match self.grouped_resolve() {
            Ok(groups) => groups,
            Err(e) => {
                return Err(e);
            }
        };
        let ghost gv = seq_views(groups@);
        let mut order: Vec<Index> = Vec::new();
        let num_groups = groups.len();
        for j in 0..num_groups
            invariant
                num_groups == groups@.len(),
                gv == seq_views(groups@),
                self.valid_grouping(gv),
                order@ == gv.take(j as int).flatten_alt(),
        {
            let group = &groups[j];
            let group_len = group.len();
            let ghost base = order@;
            for m in 0..group_len
                invariant
                    num_groups == groups@.len(),
                    j < num_groups,
                    gv == seq_views(groups@),
                    group_len == group@.len(),
                    group@ == gv[j as int],
                    order@ == base + group@.take(m as int),
            {
                order.push(group[m]);
                proof {
                    assert(order@ =~= base + group@.take(m + 1));
                }
            }
            proof {
                assert(gv.take(j + 1).drop_last() =~= gv.take(j as int));
                assert(gv.take(j + 1).last() == gv[j as int]);
                assert(group@ =~= group@.take(group_len as int));
                assert(order@ == gv.take(j + 1).flatten_alt());
            }
        }
        proof {
            assert(gv.take(num_groups as int) =~= gv);
            gv.lemma_flatten_and_flatten_alt_are_equivalent();
            self.lemma_valid_grouping_linearizes(gv);
            assert(order@ == gv.flatten());
        }
        Ok(order)
    }

    /// A graph with a valid grouping holds no blocked collection at all.
    pub proof fn lemma_valid_grouping_no_blocked(self, groups: Seq<Seq<Index>>)
        requires
            self.valid_grouping(groups),
        ensures
            !self.has_blocked_set(),
    {
        if self.has_blocked_set() {
            let s = choose|s: Seq<Index>| self.is_blocked_seq(s);
            self.lemma_blocked_outside_groups(groups, s, groups.len() as int);
            assert(self.spec_contains(s[0]));
            assert(!in_first_groups(groups, groups.len() as int, s[0]));
        }
    }
}

/// Occurrence in the first `bound` groups is unaffected by appending another
/// group at the end.
/// Occurrence in the first `b1` groups implies occurrence in the first `b2`
/// groups for any larger bound.
proof fn lemma_in_first_groups_mono(gv: Seq<Seq<Index>>, b1: int, b2: int, d: Index)
    requires
        0 <= b1 <= b2,
        in_first_groups(gv, b1, d),
    ensures
        in_first_groups(gv, b2, d),
{
    let (j, m) = choose|j: int, m: int|
        0 <= j < b1 && j < gv.len() && 0 <= m < gv[j].len() && (#[trigger] gv[j][m]) == d;
    assert(0 <= j < b2 && j < gv.len() && 0 <= m < gv[j].len() && gv[j][m] == d);
}

proof fn lemma_in_first_groups_push(gv: Seq<Seq<Index>>, w: Seq<Index>, bound: int, d: Index)
    requires
        0 <= bound <= gv.len(),
    ensures
        in_first_groups(gv, bound, d) <==> in_first_groups(gv.push(w), bound, d),
{
    if in_first_groups(gv, bound, d) {
        let (j, m) = choose|j: int, m: int|
            0 <= j < bound && j < gv.len() && 0 <= m < gv[j].len() && gv[j][m] == d;
        assert(gv.push(w)[j] == gv[j]);
        assert(gv.push(w)[j][m] == d);
    }
    if in_first_groups(gv.push(w), bound, d) {
        let (j, m) = choose|j: int, m: int|
            0 <= j < bound && j < gv.push(w).len() && 0 <= m < gv.push(w)[j].len() && gv.push(
                w,
            )[j][m] == d;
        assert(gv.push(w)[j] == gv[j]);
        assert(gv[j][m] == d);
    }
}

} // verus!
