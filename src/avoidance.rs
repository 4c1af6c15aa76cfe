//! Per-tick avoidance orchestration: which neighbors an agent considers, when
//! its preferred velocity stands, and how every agent's velocity is solved from
//! one snapshot before any is written back.
//!
//! The geometry is supplied by the caller as two functions: `line_for(i, j)`,
//! the constraint that neighbor slot `j` puts on agent `i` (or none), and
//! `solve(i, lines)`, the velocity chosen for agent `i` under a non-empty set of
//! constraints. The orchestration is verified for every such pair.

use std::collections::HashMap;
use vstd::prelude::*;

use crate::spatial_hash::{agents_in_cell, SpatialHash};

verus! {

broadcast use vstd::std_specs::hash::group_hash_axioms;

/// The slot of each identifier in a snapshot: the last position at which it occurs.
pub open spec fn slot_map(ids: Seq<u64>) -> Map<u64, usize>
    decreases ids.len(),
{
    if ids.len() == 0 {
        Map::empty()
    } else {
        slot_map(ids.drop_last()).insert(ids.last(), (ids.len() - 1) as usize)
    }
}

/// The neighbor slots that `candidates` name for the agent `self_id`: every
/// candidate but the agent itself whose identifier has a slot, in order.
pub open spec fn eligible_slots(candidates: Seq<u64>, self_id: u64, slots: Map<u64, usize>) -> Seq<
    usize,
>
    decreases candidates.len(),
{
    if candidates.len() == 0 {
        Seq::empty()
    } else {
        let prev = eligible_slots(candidates.drop_last(), self_id, slots);
        let c = candidates.last();
        if c != self_id && slots.contains_key(c) {
            prev.push(slots[c])
        } else {
            prev
        }
    }
}

/// The constraints present among `outcomes`, in order.
pub open spec fn present<L>(outcomes: Seq<Option<L>>) -> Seq<L>
    decreases outcomes.len(),
{
    if outcomes.len() == 0 {
        Seq::empty()
    } else {
        let prev = present(outcomes.drop_last());
        match outcomes.last() {
            Some(l) => prev.push(l),
            None => prev,
        }
    }
}

/// `outcomes` are what `line_for(agent, _)` gave on the leading slots of
/// `slots`, taken one by one until `max` constraints were present or the
/// slots ran out.
pub open spec fn scanned<L, F: Fn(usize, usize) -> Option<L>>(
    outcomes: Seq<Option<L>>,
    slots: Seq<usize>,
    max: int,
    agent: usize,
    line_for: F,
) -> bool {
    &&& outcomes.len() <= slots.len()
    &&& forall|k: int|
        0 <= k < outcomes.len() ==> line_for.ensures((agent, slots[k]), #[trigger] outcomes[k])
    &&& forall|k: int|
        0 <= k < outcomes.len() ==> (#[trigger] present(outcomes.take(k))).len() < max
    &&& present(outcomes).len() <= max
    &&& outcomes.len() < slots.len() ==> present(outcomes).len() == max
}

/// `lines` are the constraints gathered for `agent` from `slots` with at most
/// `max` of them.
pub open spec fn gathered<L, F: Fn(usize, usize) -> Option<L>>(
    lines: Seq<L>,
    slots: Seq<usize>,
    max: int,
    agent: usize,
    line_for: F,
) -> bool {
    exists|outcomes: Seq<Option<L>>|
        #[trigger] scanned(outcomes, slots, max, agent, line_for) && lines == present(outcomes)
}

/// The velocity chosen for `agent` from its gathered constraints: the
/// preferred velocity when there are none, else what `solve` gives.
pub open spec fn chosen<L, V, F: Fn(usize, usize) -> Option<L>, G: Fn(usize, Vec<L>) -> V>(
    v: V,
    slots: Seq<usize>,
    max: int,
    agent: usize,
    preferred: V,
    line_for: F,
    solve: G,
) -> bool {
    exists|lines: Vec<L>|
        #[trigger] gathered(lines@, slots, max, agent, line_for) && if lines@.len() == 0 {
            v == preferred
        } else {
            solve.ensures((agent, lines), v)
        }
}

/// Identifier-to-slot lookup over one snapshot of agents.
pub struct SnapshotIndex {
    slots: HashMap<u64, usize>,
}

impl View for SnapshotIndex {
    type V = Map<u64, usize>;

    closed spec fn view(&self) -> Map<u64, usize> {
        self.slots@
    }
}

impl SnapshotIndex {
    /// Maps each identifier of `ids` to its slot; an identifier that occurs
    /// twice keeps the later slot.
    pub fn from_ids(ids: &Vec<u64>) -> (r: SnapshotIndex)
        ensures
            r@ == slot_map(ids@),
    {
        let mut slots: HashMap<u64, usize> = HashMap::new();
        let mut i: usize = 0;
        while i < ids.len()
            invariant
                0 <= i <= ids.len(),
                slots@ == slot_map(ids@.take(i as int)),
            decreases ids.len() - i,
        {
            slots.insert(ids[i], i);
            proof {
                assert(ids@.take(i + 1).drop_last() == ids@.take(i as int));
            }
            i = i + 1;
        }
        proof {
            assert(ids@.take(ids.len() as int) == ids@);
        }
        SnapshotIndex { slots }
    }

    /// The slot of `id`, if the snapshot holds it.
    pub fn slot_of(&self, id: u64) -> (r: Option<usize>)
        ensures
            r == (if self@.contains_key(id) {
                Some(self@[id])
            } else {
                None
            }),
    {
        match self.slots.get(&id) {
            Some(s) => Some(*s),
            None => None,
        }
    }
}

proof fn lemma_eligible_prefix(candidates: Seq<u64>, self_id: u64, slots: Map<u64, usize>, c: int)
    requires
        0 <= c <= candidates.len(),
    ensures
        eligible_slots(candidates.take(c), self_id, slots).len() <= eligible_slots(
            candidates,
            self_id,
            slots,
        ).len(),
        forall|k: int|
            0 <= k < eligible_slots(candidates.take(c), self_id, slots).len() ==> #[trigger]
            eligible_slots(candidates.take(c), self_id, slots)[k] == eligible_slots(
                candidates,
                self_id,
                slots,
            )[k],
    decreases candidates.len() - c,
{
    if c < candidates.len() {
        lemma_eligible_prefix(candidates, self_id, slots, c + 1);
        assert(candidates.take(c + 1).drop_last() == candidates.take(c));
        let a = eligible_slots(candidates.take(c), self_id, slots);
        let b = eligible_slots(candidates.take(c + 1), self_id, slots);
        assert forall|k: int| 0 <= k < a.len() implies b[k] == a[k] by {
            if b.len() != a.len() {
                assert(b == a.push(slots[candidates[c]]));
            }
        }
    } else {
        assert(candidates.take(c) == candidates);
    }
}

/// Gathers the constraints on `agent` from its `candidates`: the agent itself
/// and identifiers without a slot are skipped, absent constraints are not
/// counted, and the scan stops once `max_neighbors` constraints are present.
pub fn gather_lines<L, F: Fn(usize, usize) -> Option<L>>(
    agent: usize,
    candidates: &Vec<u64>,
    self_id: u64,
    index: &SnapshotIndex,
    max_neighbors: u32,
    line_for: &F,
) -> (r: Vec<L>)
    requires
        forall|i: usize, j: usize| line_for.requires((i, j)),
    ensures
        gathered(
            r@,
            eligible_slots(candidates@, self_id, index@),
            max_neighbors as int,
            agent,
            *line_for,
        ),
        r@.len() <= max_neighbors,
{
    let ghost all = eligible_slots(candidates@, self_id, index@);
    let ghost max = max_neighbors as int;
    let mut lines: Vec<L> = Vec::new();
    let ghost mut outcomes: Seq<Option<L>> = Seq::empty();
    let mut full = false;
    let mut c: usize = 0;
    while c < candidates.len() && !full
        invariant
            forall|i: usize, j: usize| line_for.requires((i, j)),
            max == max_neighbors as int,
            0 <= c <= candidates.len(),
            outcomes.len() == eligible_slots(candidates@.take(c as int), self_id, index@).len(),
            forall|k: int|
                0 <= k < outcomes.len() ==> line_for.ensures(
                    (agent, eligible_slots(candidates@.take(c as int), self_id, index@)[k]),
                    #[trigger] outcomes[k],
                ),
            forall|k: int|
                0 <= k < outcomes.len() ==> (#[trigger] present(outcomes.take(k))).len() < max,
            lines@ == present(outcomes),
            lines@.len() <= max,
            full ==> lines@.len() == max,
        decreases candidates.len() - c + (if full {
            0int
        } else {
            1int
        }),
    {
        let cand = candidates[c];
        let ghost before = outcomes;
        let ghost prefix = eligible_slots(candidates@.take(c as int), self_id, index@);
        proof {
            assert(candidates@.take(c + 1).drop_last() == candidates@.take(c as int));
            assert(candidates@.take(c + 1).last() == cand);
        }
        if cand == self_id {
            c = c + 1;
        } else if lines.len() as u64 >= max_neighbors as u64 {
            full = true;
        } else {
            match index.slot_of(cand) {
                Some(slot) => {
                    let out = line_for(agent, slot);
                    proof {
                        outcomes = outcomes.push(out);
                        assert(outcomes.drop_last() == before);
                        assert(outcomes.take(before.len() as int) == before);
                        assert forall|k: int| 0 <= k < outcomes.len() implies (#[trigger] present(
                            outcomes.take(k),
                        )).len() < max by {
                            if k < before.len() {
                                assert(outcomes.take(k) == before.take(k));
                            } else {
                                assert(outcomes.take(k) == before);
                            }
                        }
                    }
                    match out {
                        Some(l) => {
                            lines.push(l);
                        },
                        None => {},
                    }
                    proof {
                        assert(present(outcomes) == lines@);
                    }
                },
                None => {},
            }
            c = c + 1;
        }
    }
    proof {
        lemma_eligible_prefix(candidates@, self_id, index@, c as int);
        if !full {
            assert(candidates@.take(c as int) == candidates@);
        }
        assert(scanned(outcomes, all, max, agent, *line_for));
    }
    lines
}

/// The velocity of `agent` this tick: its preferred velocity when no
/// constraint was gathered from `candidates`, else what `solve` makes of the
/// gathered constraints.
pub fn avoid_agent<L, V, F: Fn(usize, usize) -> Option<L>, G: Fn(usize, Vec<L>) -> V>(
    agent: usize,
    candidates: &Vec<u64>,
    self_id: u64,
    index: &SnapshotIndex,
    max_neighbors: u32,
    preferred: V,
    line_for: &F,
    solve: &G,
) -> (r: V)
    requires
        forall|i: usize, j: usize| line_for.requires((i, j)),
        forall|i: usize, ls: Vec<L>| solve.requires((i, ls)),
    ensures
        chosen(
            r,
            eligible_slots(candidates@, self_id, index@),
            max_neighbors as int,
            agent,
            preferred,
            *line_for,
            *solve,
        ),
        eligible_slots(candidates@, self_id, index@).len() == 0 ==> r == preferred,
{
    let lines = gather_lines(agent, candidates, self_id, index, max_neighbors, line_for);
    let ghost gl = lines;
    if lines.len() == 0 {
        proof {
            assert(gathered(gl@, eligible_slots(candidates@, self_id, index@), max_neighbors as int, agent, *line_for));
        }
        preferred
    } else {
        let v = solve(agent, lines);
        proof {
            let slots = eligible_slots(candidates@, self_id, index@);
            if slots.len() == 0 {
                let outcomes = choose|o: Seq<Option<L>>|
                    #[trigger] scanned(o, slots, max_neighbors as int, agent, *line_for) && gl@
                        == present(o);
                assert(outcomes.len() == 0);
                assert(false);
            }
        }
        v
    }
}

/// Clears `hash` and inserts every agent of the snapshot, `ids[i]` at
/// `positions[i]`, in order.
pub fn rebuild_spatial_hash(hash: &mut SpatialHash, ids: &Vec<u64>, positions: &Vec<(i32, i32)>)
    requires
        old(hash).wf(),
        ids.len() == positions.len(),
    ensures
        final(hash).wf(),
        final(hash).size() == old(hash).size(),
        final(hash).holds_exactly(ids@, positions@),
{
    hash.clear();
    let mut i: usize = 0;
    while i < ids.len()
        invariant
            hash.wf(),
            hash.size() == old(hash).size(),
            ids.len() == positions.len(),
            0 <= i <= ids.len(),
            forall|cx: int, cy: int|
                #[trigger] hash.bucket(cx, cy) == agents_in_cell(
                    ids@,
                    positions@,
                    hash.size(),
                    cx,
                    cy,
                    i as int,
                ),
        decreases ids.len() - i,
    {
        let (x, y) = positions[i];
        hash.insert(ids[i], x, y);
        i = i + 1;
    }
}

/// The velocity that agent `i` of a snapshot receives this tick.
pub open spec fn solved_for<L, V, F: Fn(usize, usize) -> Option<L>, G: Fn(usize, Vec<L>) -> V>(
    v: V,
    i: int,
    ids: Seq<u64>,
    positions: Seq<(i32, i32)>,
    preferred: Seq<V>,
    hash: SpatialHash,
    neighbor_distance: int,
    max_neighbors: int,
    line_for: F,
    solve: G,
) -> bool {
    chosen(
        v,
        eligible_slots(
            hash.query_spec(positions[i].0 as int, positions[i].1 as int, neighbor_distance),
            ids[i],
            slot_map(ids),
        ),
        max_neighbors,
        i as usize,
        preferred[i],
        line_for,
        solve,
    )
}

/// Solves every agent of a snapshot against the neighbors that `hash` finds
/// within `neighbor_distance` of it, and returns the new velocities in
/// snapshot order. Each result depends on the snapshot alone, never on
/// another agent's result.
pub fn compute_avoidance<L, V: Copy, F: Fn(usize, usize) -> Option<L>, G: Fn(usize, Vec<L>) -> V>(
    ids: &Vec<u64>,
    positions: &Vec<(i32, i32)>,
    preferred: &Vec<V>,
    hash: &SpatialHash,
    neighbor_distance: i32,
    max_neighbors: u32,
    line_for: &F,
    solve: &G,
) -> (r: Vec<V>)
    requires
        ids.len() == positions.len(),
        ids.len() == preferred.len(),
        hash.wf(),
        forall|i: usize, j: usize| line_for.requires((i, j)),
        forall|i: usize, ls: Vec<L>| solve.requires((i, ls)),
    ensures
        r.len() == ids.len(),
        forall|i: int|
            0 <= i < r.len() ==> solved_for(
                #[trigger] r[i],
                i,
                ids@,
                positions@,
                preferred@,
                *hash,
                neighbor_distance as int,
                max_neighbors as int,
                *line_for,
                *solve,
            ),
{
    let index = SnapshotIndex::from_ids(ids);
    let mut result: Vec<V> = Vec::new();
    let mut i: usize = 0;
    while i < ids.len()
        invariant
            ids.len() == positions.len(),
            ids.len() == preferred.len(),
            hash.wf(),
            index@ == slot_map(ids@),
            forall|i: usize, j: usize| line_for.requires((i, j)),
            forall|i: usize, ls: Vec<L>| solve.requires((i, ls)),
            0 <= i <= ids.len(),
            result.len() == i,
            forall|k: int|
                0 <= k < i ==> solved_for(
                    #[trigger] result[k],
                    k,
                    ids@,
                    positions@,
                    preferred@,
                    *hash,
                    neighbor_distance as int,
                    max_neighbors as int,
                    *line_for,
                    *solve,
                ),
        decreases ids.len() - i,
    {
        let (x, y) = positions[i];
        let candidates = hash.query_neighbors(x, y, neighbor_distance);
        let v = avoid_agent(
            i,
            &candidates,
            ids[i],
            &index,
            max_neighbors,
            preferred[i],
            line_for,
            solve,
        );
        result.push(v);
        i = i + 1;
    }
    result
}

/// An agent for which no neighbor slot was found keeps exactly its preferred
/// velocity, whatever the constraint and solve functions are.
pub proof fn lemma_no_neighbor_keeps_preferred<
    L,
    V,
    F: Fn(usize, usize) -> Option<L>,
    G: Fn(usize, Vec<L>) -> V,
>(v: V, slots: Seq<usize>, max: int, agent: usize, preferred: V, line_for: F, solve: G)
    requires
        chosen(v, slots, max, agent, preferred, line_for, solve),
        slots.len() == 0,
    ensures
        v == preferred,
{
    let lines = choose|lines: Vec<L>|
        #[trigger] gathered(lines@, slots, max, agent, line_for) && if lines@.len() == 0 {
            v == preferred
        } else {
            solve.ensures((agent, lines), v)
        };
    let outcomes = choose|o: Seq<Option<L>>|
        #[trigger] scanned(o, slots, max, agent, line_for) && lines@ == present(o);
    assert(outcomes.len() == 0);
}

/// In a tick, an agent whose neighbor query finds no other agent of the
/// snapshot receives exactly its preferred velocity.
pub proof fn lemma_isolated_agent_keeps_preferred<
    L,
    V,
    F: Fn(usize, usize) -> Option<L>,
    G: Fn(usize, Vec<L>) -> V,
>(
    v: V,
    i: int,
    ids: Seq<u64>,
    positions: Seq<(i32, i32)>,
    preferred: Seq<V>,
    hash: SpatialHash,
    neighbor_distance: int,
    max_neighbors: int,
    line_for: F,
    solve: G,
)
    requires
        solved_for(
            v,
            i,
            ids,
            positions,
            preferred,
            hash,
            neighbor_distance,
            max_neighbors,
            line_for,
            solve,
        ),
        forall|k: int|
            0 <= k < hash.query_spec(
                positions[i].0 as int,
                positions[i].1 as int,
                neighbor_distance,
            ).len() ==> #[trigger] hash.query_spec(
                positions[i].0 as int,
                positions[i].1 as int,
                neighbor_distance,
            )[k] == ids[i],
    ensures
        v == preferred[i],
{
    let q = hash.query_spec(positions[i].0 as int, positions[i].1 as int, neighbor_distance);
    lemma_only_self_gives_no_slots(q, ids[i], slot_map(ids));
    lemma_no_neighbor_keeps_preferred(
        v,
        eligible_slots(q, ids[i], slot_map(ids)),
        max_neighbors,
        i as usize,
        preferred[i],
        line_for,
        solve,
    );
}

proof fn lemma_only_self_gives_no_slots(candidates: Seq<u64>, self_id: u64, slots: Map<u64, usize>)
    requires
        forall|k: int| 0 <= k < candidates.len() ==> #[trigger] candidates[k] == self_id,
    ensures
        eligible_slots(candidates, self_id, slots).len() == 0,
    decreases candidates.len(),
{
    if candidates.len() > 0 {
        let prev = candidates.drop_last();
        assert forall|k: int| 0 <= k < prev.len() implies #[trigger] prev[k] == self_id by {
            assert(prev[k] == candidates[k]);
        }
        lemma_only_self_gives_no_slots(prev, self_id, slots);
    }
}

} // verus!
