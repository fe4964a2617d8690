//! The traversal engine: a weighted best-first search that produces routes
//! and depth-bounded explorations, with reconstructable predecessor chains.
//!
//! Costs are in billionths of a cost unit times meters (see `cost`), so
//! every sum stays exact. A heuristic weight is in thousandths.
use vstd::prelude::*;
use std::collections::HashMap;
use crate::cost::{edge_cost, CostModel, MAX_FACTOR};
use crate::error::RoutingError;
use crate::graph::{
    has_edge, out_edges, Coord, Distance, Graph, Neighbor, Node, NodeId, WayId, END_NODE_ID,
    START_NODE_ID,
};
use crate::labels::{Cycleway, Road, WayLabels};
use crate::search::{
    already_relaxed, degree_at_most, first_visit_steps, lemma_first_visit_steps_expand, lemma_stored_costs_expand, relaxed_out, search_bound,
    stored_costs,
    chain_consistent, expand_partial, expand_post, is_walk, lemma_drop_stale,
    lemma_expand_step, lemma_optimal_at_target, lemma_reach_drop_stale, lemma_reach_settle,
    lemma_settle, lemma_walk_stays_closed, open_complete, popped_from, reach_inv, settled_inv,
    settled_step, walk_cost, walk_end,
};

verus! {

broadcast use vstd::std_specs::hash::group_hash_axioms;

/// Hops from the start of a traversal.
pub type Depth = u64;

/// An accumulated cost.
pub type Cost = u128;

/// A heuristic weight, in thousandths.
pub type Weight = u32;

/// The default heuristic weight (0.75).
pub const DEFAULT_HEURISTIC_WEIGHT: Weight = 750;

/// The largest cost of a single edge.
pub const MAX_EDGE_COST: u128 = 8589934590000000000000000000;

/// One expansion step: the edge taken and what the search knew on reaching its end.
#[derive(Debug, Clone, Copy)]
pub struct TraversalSegment {
    pub from: Node,
    pub to: Node,
    pub way: WayId,
    pub depth: Depth,
    pub length: Distance,
    pub distance_so_far: u64,
    pub labels: WayLabels,
    pub cost_factor: u64,
    /// The accumulated cost `g` up to and including this edge.
    pub cost: Cost,
    /// The weighted remaining-distance estimate `h` at `to`.
    pub heuristic: Cost,
}

/// An open-set entry: priority `g + h`, the node reached, and `g` at push time.
#[derive(Debug, Clone, Copy, PartialEq, Eq, Structural)]
pub struct QueueEntry {
    pub priority: Cost,
    pub node: NodeId,
    pub cost: Cost,
}

/// Per-query search state.
pub struct TraversalContext {
    /// The open set; stale entries stay until popped.
    pub queue: Vec<QueueEntry>,
    /// The best-known segment ending at each reached node.
    pub came_from: HashMap<NodeId, TraversalSegment>,
    /// The keys of `came_from`, in the order they were first reached.
    pub visit_order: Vec<NodeId>,
    pub cost_model: CostModel,
    pub heuristic_weight: Weight,
    /// The largest depth observed.
    pub max_depth: Depth,
    /// The least and greatest cost factor observed.
    pub cost_range: (u64, u64),
}

/// The running metadata of `post` only widens that of `pre`.
pub open spec fn metadata_widened(pre: TraversalContext, post: TraversalContext) -> bool {
    &&& post.max_depth >= pre.max_depth
    &&& post.cost_range.0 <= pre.cost_range.0
    &&& post.cost_range.1 >= pre.cost_range.1
}

/// The running metadata of `ctx` accounts for every stored segment that
/// follows an edge of the store.
pub open spec fn metered(ctx: TraversalContext) -> bool {
    forall|n: NodeId|
        #[trigger] ctx.came_from@.contains_key(n) && n != END_NODE_ID
            && ctx.came_from@[n].from.id != START_NODE_ID ==> covers(ctx, ctx.came_from@[n])
}

/// The running metadata of `ctx` accounts for segment `s`.
pub open spec fn covers(ctx: TraversalContext, s: TraversalSegment) -> bool {
    &&& s.depth <= ctx.max_depth
    &&& ctx.cost_range.0 <= s.cost_factor <= ctx.cost_range.1
}

/// Every stored segment that follows an edge lies at least one hop out, and
/// holds the weighted heuristic for the point it reaches.
pub open spec fn searched<H: Fn(Coord) -> Distance>(ctx: TraversalContext, dist_to_end: &H) -> bool {
    forall|n: NodeId|
        #[trigger] ctx.came_from@.contains_key(n) && n != END_NODE_ID
            && ctx.came_from@[n].from.id != START_NODE_ID ==> ctx.came_from@[n].depth >= 1
            && heuristic_fits(dist_to_end, ctx.heuristic_weight, ctx.came_from@[n])
}

/// The heuristic stored in `s` is the weight `w` applied to some distance that
/// `dist_to_end` can return for the point `s` reaches.
pub open spec fn heuristic_fits<H: Fn(Coord) -> Distance>(
    dist_to_end: &H,
    w: Weight,
    s: TraversalSegment,
) -> bool {
    exists|d: Distance| dist_to_end.ensures((s.to.geometry,), d) && s.heuristic == heuristic_of(w, d)
}

/// `a` strictly precedes `b` by cost, then by depth.
pub open spec fn lex_before(a: TraversalSegment, b: TraversalSegment) -> bool {
    a.cost < b.cost || (a.cost == b.cost && a.depth < b.depth)
}

/// The segment stored under `n` ends at `n`, and either leaves the synthetic
/// start at no cost, or follows a stored edge out of a reached node whose own
/// segment strictly precedes it.
pub open spec fn linked(g: Graph, m: Map<NodeId, TraversalSegment>, n: NodeId) -> bool {
    let s = m[n];
    &&& s.to.id == n
    &&& s.from.id == START_NODE_ID ==> s.cost == 0 && s.depth == 0
    &&& s.from.id != START_NODE_ID ==> {
        &&& m.contains_key(s.from.id)
        &&& s.from.id > 0
        &&& lex_before(m[s.from.id], s)
        &&& has_edge(g, s.from.id, n, s.way, s.length, s.labels)
    }
}

/// Every reached node but the synthetic end is a stored node with a linked segment.
pub open spec fn came_from_wf(g: Graph, m: Map<NodeId, TraversalSegment>) -> bool {
    forall|n: NodeId| #[trigger] m.contains_key(n) && n != END_NODE_ID ==> n > 0 && linked(g, m, n)
}

/// A segment whose numbers fit after `k` expansions.
pub open spec fn bounded(s: TraversalSegment, k: nat) -> bool {
    &&& s.cost <= k * MAX_EDGE_COST
    &&& s.depth <= k
    &&& s.distance_so_far <= (k + 1) * (u32::MAX as nat)
}

impl TraversalContext {
    /// The search state after `k` expansions over `g`.
    pub open spec fn inv(&self, g: Graph, k: nat) -> bool {
        &&& self.cost_model.wf()
        &&& came_from_wf(g, self.came_from@)
        &&& !self.came_from@.contains_key(END_NODE_ID)
        &&& forall|n: NodeId| #[trigger]
            self.came_from@.contains_key(n) ==> bounded(self.came_from@[n], k)
        &&& forall|i: int|
            0 <= i < self.queue@.len() ==> self.came_from@.contains_key(
                #[trigger] self.queue@[i].node,
            )
        &&& self.visit_order@.no_duplicates()
        &&& forall|n: NodeId| #[trigger]
            self.came_from@.contains_key(n) <==> self.visit_order@.contains(n)
    }

    /// A fresh context with the given model (default when absent) and heuristic
    /// weight (0.75 when absent).
    pub fn new(cost_model: Option<CostModel>, heuristic_weight: Option<Weight>) -> (r:
        TraversalContext)
        requires
            cost_model matches Some(m) ==> m.wf(),
        ensures
            r.queue@.len() == 0,
            r.came_from@ == Map::<NodeId, TraversalSegment>::empty(),
            r.visit_order@.len() == 0,
            r.cost_model == (match cost_model {
                Some(m) => m,
                None => crate::cost::default_model(),
            }),
            r.heuristic_weight == (match heuristic_weight {
                Some(w) => w,
                None => DEFAULT_HEURISTIC_WEIGHT,
            }),
            r.max_depth == 0,
            r.cost_range == (u64::MAX, 0u64),
            r.cost_model.wf(),
    {
        let model = match cost_model {
            Some(m) => m,
            None => CostModel::default(),
        };
        let weight = match heuristic_weight {
            Some(w) => w,
            None => DEFAULT_HEURISTIC_WEIGHT,
        };
        TraversalContext {
            queue: Vec::new(),
            came_from: HashMap::new(),
            visit_order: Vec::new(),
            cost_model: model,
            heuristic_weight: weight,
            max_depth: 0,
            cost_range: (u64::MAX, 0),
        }
    }

    /// Removes and returns an entry of least priority; `None` when the open set is empty.
    pub fn pop_min(&mut self) -> (r: Option<QueueEntry>)
        ensures
            old(self).queue@.len() == 0 ==> r is None && final(self).queue@ == old(self).queue@,
            old(self).queue@.len() > 0 ==> (r matches Some(e) && old(self).queue@.contains(e)
                && final(self).queue@.len() == old(self).queue@.len() - 1
                && (forall|i: int|
                0 <= i < old(self).queue@.len() ==> e.priority
                    <= #[trigger] old(self).queue@[i].priority) && (forall|i: int|
                0 <= i < final(self).queue@.len() ==> old(self).queue@.contains(
                    #[trigger] final(self).queue@[i],
                )) && (forall|i: int|
                0 <= i < old(self).queue@.len() && #[trigger] old(self).queue@[i] != e
                    ==> final(self).queue@.contains(old(self).queue@[i]))),
            final(self).came_from == old(self).came_from,
            final(self).visit_order == old(self).visit_order,
            final(self).cost_model == old(self).cost_model,
            final(self).heuristic_weight == old(self).heuristic_weight,
            final(self).max_depth == old(self).max_depth,
            final(self).cost_range == old(self).cost_range,
    {
        let n = self.queue.len();
        if n == 0 {
            return None;
        }
        let mut best: usize = 0;
        let mut i: usize = 1;
        while i < n
            invariant
                n == self.queue@.len(),
                best < i <= n,
                forall|j: int|
                    0 <= j < i ==> self.queue@[best as int].priority <= #[trigger] self.queue@[j].priority,
            decreases n - i,
        {
            if self.queue[i].priority < self.queue[best].priority {
                best = i;
            }
            i = i + 1;
        }
        let ghost q = self.queue@;
        let e = self.queue.swap_remove(best);
        proof {
            assert(q[best as int] == e);
            assert forall|j: int| 0 <= j < self.queue@.len() implies q.contains(
                #[trigger] self.queue@[j],
            ) by {
                if j == best {
                    assert(self.queue@[j] == q[q.len() - 1]);
                } else {
                    assert(self.queue@[j] == q[j]);
                }
            }
            assert forall|j: int| 0 <= j < q.len() && #[trigger] q[j] != e implies self.queue@.contains(
                q[j],
            ) by {
                if j == q.len() - 1 {
                    assert(self.queue@[best as int] == q[j]);
                } else {
                    assert(self.queue@[j] == q[j]);
                }
            }
        }
        Some(e)
    }
}

/// The largest weighted heuristic: the largest weight times the largest distance.
pub const MAX_HEURISTIC: u128 = 18446744065119617025000000;

/// `h` for a weight in thousandths and a distance in meters, in cost units.
pub open spec fn heuristic_of(w: Weight, d: Distance) -> nat {
    (w * d * 1000000) as nat
}

/// The weighted heuristic for a node `d` meters from the end point.
pub fn weighted_heuristic(w: Weight, d: Distance) -> (r: Cost)
    ensures
        r == heuristic_of(w, d),
        r <= MAX_HEURISTIC,
{
    proof {
        assert(w * d <= (u32::MAX as nat) * (u32::MAX as nat)) by (nonlinear_arith)
            requires
                w <= u32::MAX,
                d <= u32::MAX,
        ;
    }
    (w as u128) * (d as u128) * 1000000
}

/// Whether `id` occurs in `ids`.
pub fn contains_id(ids: &Vec<NodeId>, id: NodeId) -> (r: bool)
    ensures
        r == ids@.contains(id),
{
    let mut i: usize = 0;
    while i < ids.len()
        invariant
            i <= ids@.len(),
            forall|j: int| 0 <= j < i ==> ids@[j] != id,
        decreases ids@.len() - i,
    {
        if ids[i] == id {
            return true;
        }
        i = i + 1;
    }
    false
}

proof fn lemma_bounded_mono(s: TraversalSegment, k: nat)
    requires
        bounded(s, k),
    ensures
        bounded(s, k + 1),
{
    assert(k * MAX_EDGE_COST <= (k + 1) * MAX_EDGE_COST) by (nonlinear_arith);
    assert((k + 1) * (u32::MAX as nat) <= (k + 2) * (u32::MAX as nat)) by (nonlinear_arith);
}

/// The segment that extends `current` along an edge, given its cost factor,
/// its cost, and the weighted heuristic at its end.
pub open spec fn extend_segment(
    current: TraversalSegment,
    e: (Neighbor, WayLabels),
    factor: u64,
    cost: nat,
    h: Cost,
) -> TraversalSegment {
    TraversalSegment {
        from: current.to,
        to: e.0.node,
        way: e.0.way,
        depth: (current.depth + 1) as Depth,
        length: e.0.distance,
        distance_so_far: (current.distance_so_far + e.0.distance) as u64,
        labels: e.1,
        cost_factor: factor,
        cost: (current.cost + cost) as Cost,
        heuristic: h,
    }
}

impl TraversalContext {
    /// Stores `seg` as the best-known segment ending at `n`, and opens it with priority `g + h`.
    fn record(&mut self, n: NodeId, seg: TraversalSegment)
        requires
            old(self).visit_order@.no_duplicates(),
            forall|x: NodeId| #[trigger]
                old(self).came_from@.contains_key(x) <==> old(self).visit_order@.contains(x),
            seg.cost + seg.heuristic <= u128::MAX,
        ensures
            final(self).came_from@ == old(self).came_from@.insert(n, seg),
            final(self).queue@ == old(self).queue@.push(
                QueueEntry { priority: (seg.cost + seg.heuristic) as Cost, node: n, cost: seg.cost },
            ),
            final(self).visit_order@.no_duplicates(),
            forall|x: NodeId| #[trigger]
                final(self).came_from@.contains_key(x) <==> final(self).visit_order@.contains(x),
            final(self).cost_model == old(self).cost_model,
            final(self).heuristic_weight == old(self).heuristic_weight,
            final(self).max_depth == old(self).max_depth,
            final(self).cost_range == old(self).cost_range,
    {
        let fresh = !self.came_from.contains_key(&n);
        self.queue.push(QueueEntry { priority: seg.cost + seg.heuristic, node: n, cost: seg.cost });
        self.came_from.insert(n, seg);
        if fresh {
            self.visit_order.push(n);
            proof {
                assert forall|x: NodeId| #[trigger]
                    self.came_from@.contains_key(x) <==> self.visit_order@.contains(x) by {
                    if x != n {
                        if old(self).visit_order@.contains(x) {
                            let j = choose|j: int|
                                0 <= j < old(self).visit_order@.len()
                                    && old(self).visit_order@[j] == x;
                            assert(self.visit_order@[j] == x);
                        }
                        if self.visit_order@.contains(x) {
                            let j = choose|j: int|
                                0 <= j < self.visit_order@.len() && self.visit_order@[j] == x;
                            assert(old(self).visit_order@[j] == x);
                        }
                    } else {
                        assert(self.visit_order@[self.visit_order@.len() - 1] == n);
                    }
                }
            }
        }
    }

    /// Notes a relaxed segment's depth and cost factor in the running metadata.
    fn observe(&mut self, seg: &TraversalSegment)
        ensures
            final(self).came_from == old(self).came_from,
            final(self).queue == old(self).queue,
            final(self).visit_order == old(self).visit_order,
            final(self).cost_model == old(self).cost_model,
            final(self).heuristic_weight == old(self).heuristic_weight,
            final(self).max_depth == if seg.depth > old(self).max_depth {
                seg.depth
            } else {
                old(self).max_depth
            },
            final(self).cost_range.0 == if seg.cost_factor < old(self).cost_range.0 {
                seg.cost_factor
            } else {
                old(self).cost_range.0
            },
            final(self).cost_range.1 == if seg.cost_factor > old(self).cost_range.1 {
                seg.cost_factor
            } else {
                old(self).cost_range.1
            },
    {
        if seg.depth > self.max_depth {
            self.max_depth = seg.depth;
        }
        if seg.cost_factor < self.cost_range.0 {
            self.cost_range.0 = seg.cost_factor;
        }
        if seg.cost_factor > self.cost_range.1 {
            self.cost_range.1 = seg.cost_factor;
        }
    }

    /// Relaxes one outgoing edge of `current`: the extended segment replaces the
    /// one stored at the edge's end when that node is new or the new cost is lower.
    fn relax_edge(
        &mut self,
        graph: &Graph,
        current: &TraversalSegment,
        e: &(Neighbor, WayLabels),
        h: Cost,
        first_visit_only: bool,
        Ghost(k): Ghost<nat>,
    )
        requires
            graph.wf(),
            old(self).inv(*graph, k + 1),
            k < 4294967296,
            old(self).came_from@.contains_key(current.to.id),
            old(self).came_from@[current.to.id] == *current,
            bounded(*current, k),
            has_edge(*graph, current.to.id, e.0.node.id, e.0.way, e.0.distance, e.1),
            graph.edge_wf(current.to.id, *e),
            h <= MAX_HEURISTIC,
        ensures
            metadata_widened(*old(self), *final(self)),
            covers(
                *final(self),
                extend_segment(
                    *current,
                    *e,
                    crate::cost::cost_factor(old(self).cost_model, e.1) as u64,
                    edge_cost(old(self).cost_model, e.1, e.0.distance as nat),
                    h,
                ),
            ),
            final(self).inv(*graph, k + 1),
            final(self).came_from@.contains_key(current.to.id),
            final(self).came_from@[current.to.id] == *current,
            final(self).cost_model == old(self).cost_model,
            final(self).heuristic_weight == old(self).heuristic_weight,
            ({
                let x = extend_segment(
                    *current,
                    *e,
                    crate::cost::cost_factor(old(self).cost_model, e.1) as u64,
                    edge_cost(old(self).cost_model, e.1, e.0.distance as nat),
                    h,
                );
                let n = e.0.node.id;
                let m = old(self).came_from@;
                if !m.contains_key(n) || (!first_visit_only && x.cost < m[n].cost) {
                    &&& final(self).came_from@ == m.insert(n, x)
                    &&& final(self).queue@ == old(self).queue@.push(
                        QueueEntry { priority: (x.cost + h) as Cost, node: n, cost: x.cost },
                    )
                } else {
                    &&& final(self).came_from@ == m
                    &&& final(self).queue@ == old(self).queue@
                }
            }),
    {
        let ghost m = self.came_from@;
        let factor = self.cost_model.calculate_cost(&e.1);
        let ec = self.cost_model.calculate_edge_cost(&e.1, e.0.distance);
        proof {
            assert(current.cost + ec <= (k + 1) * MAX_EDGE_COST) by (nonlinear_arith)
                requires
                    current.cost <= k * MAX_EDGE_COST,
                    ec <= MAX_EDGE_COST,
            ;
            assert((k + 1) * MAX_EDGE_COST <= 4294967296 * MAX_EDGE_COST) by (nonlinear_arith)
                requires
                    k + 1 <= 4294967296,
            ;
            assert(current.distance_so_far + e.0.distance <= (k + 2) * (u32::MAX as nat))
                by (nonlinear_arith)
                requires
                    current.distance_so_far <= (k + 1) * (u32::MAX as nat),
                    e.0.distance <= u32::MAX,
            ;
            assert((k + 2) * (u32::MAX as nat) <= 4294967297 * (u32::MAX as nat))
                by (nonlinear_arith)
                requires
                    k + 2 <= 4294967297,
            ;
        }
        let seg = TraversalSegment {
            from: current.to,
            to: e.0.node,
            way: e.0.way,
            depth: current.depth + 1,
            length: e.0.distance,
            distance_so_far: current.distance_so_far + e.0.distance as u64,
            labels: e.1,
            cost_factor: factor,
            cost: current.cost + ec,
            heuristic: h,
        };
        self.observe(&seg);
        let n = e.0.node.id;
        let better = match self.came_from.get(&n) {
            Some(existing) => !first_visit_only && seg.cost < existing.cost,
            None => true,
        };
        if better {
            self.record(n, seg);
            proof {
                let cid = current.to.id;
                let m2 = self.came_from@;
                assert(n != cid) by {
                    if n == cid {
                        assert(m.contains_key(n));
                        assert(seg.cost >= current.cost);
                    }
                }
                assert forall|x: NodeId| #[trigger] m2.contains_key(x) && x != END_NODE_ID implies x
                    > 0 && linked(*graph, m2, x) by {
                    if x == n {
                        assert(m2[cid] == *current);
                    } else {
                        assert(m.contains_key(x));
                        assert(linked(*graph, m, x));
                        let sx = m[x];
                        if sx.from.id != START_NODE_ID && sx.from.id == n {
                            assert(lex_before(m[n], sx));
                        }
                    }
                }
                assert forall|x: NodeId| #[trigger] m2.contains_key(x) implies bounded(
                    m2[x],
                    k + 1,
                ) by {
                    if x != n {
                        assert(m.contains_key(x));
                    }
                }
                assert forall|i: int| 0 <= i < self.queue@.len() implies m2.contains_key(
                    #[trigger] self.queue@[i].node,
                ) by {
                    if i < old(self).queue@.len() {
                        assert(old(self).queue@[i] == self.queue@[i]);
                        assert(m.contains_key(old(self).queue@[i].node));
                    }
                }
            }
        }
    }
}

/// A route found by the search.
pub type Route = Vec<TraversalSegment>;

/// Every segment a search stored, in the order their nodes were first reached.
pub type Traversal = Vec<TraversalSegment>;

/// What a route query observed along the way.
#[derive(Debug, Clone, Copy)]
pub struct RouteMetadata {
    pub max_depth: Depth,
    pub cost_range: (u64, u64),
}

/// The search reached the synthetic end: its segment leaves a reached node
/// whose own segment strictly precedes it.
pub open spec fn reached_end(g: Graph, m: Map<NodeId, TraversalSegment>) -> bool {
    &&& came_from_wf(g, m)
    &&& m.contains_key(END_NODE_ID)
    &&& m[END_NODE_ID].to.id == END_NODE_ID
    &&& m[END_NODE_ID].from.id > 0
    &&& m.contains_key(m[END_NODE_ID].from.id)
    &&& lex_before(m[m[END_NODE_ID].from.id], m[END_NODE_ID])
}

/// The segment to the synthetic end continues its predecessor's segment: same
/// way and labels, one more hop, its own length added to the distance, no cost
/// added.
pub open spec fn end_linked(m: Map<NodeId, TraversalSegment>) -> bool {
    &&& m.contains_key(END_NODE_ID)
    &&& m.contains_key(m[END_NODE_ID].from.id)
    &&& ({
        let e = m[END_NODE_ID];
        let p = m[e.from.id];
        &&& e.from == p.to
        &&& e.way == p.way
        &&& e.labels == p.labels
        &&& e.depth == p.depth + 1
        &&& e.distance_so_far == p.distance_so_far + e.length
        &&& e.cost == p.cost
        &&& e.cost_factor == 0
        &&& e.heuristic == 0
    })
}

/// A route over `g`: it leaves the synthetic start, arrives at the synthetic
/// end, each segment begins where the previous one ended, accumulated cost
/// never falls, and every segment between two stored nodes is an edge of `g`.
pub open spec fn is_route(g: Graph, r: Seq<TraversalSegment>) -> bool {
    &&& r.len() >= 2
    &&& r[0].from.id == START_NODE_ID
    &&& r[r.len() - 1].to.id == END_NODE_ID
    &&& forall|i: int|
        #![trigger r[i].to.id, r[i + 1].from.id]
        0 <= i < r.len() - 1 ==> r[i].to.id == r[i + 1].from.id
    &&& forall|i: int|
        #![trigger r[i].cost, r[i + 1].cost]
        0 <= i < r.len() - 1 ==> r[i].cost <= r[i + 1].cost
    &&& forall|i: int|
        0 <= i < r.len() && r[i].from.id != START_NODE_ID && r[i].to.id != END_NODE_ID
            ==> has_edge(g, #[trigger] r[i].from.id, r[i].to.id, r[i].way, r[i].length, r[i].labels)
    &&& forall|i: int| 0 < i < r.len() ==> #[trigger] r[i].from.id != START_NODE_ID
    &&& forall|i: int| 0 <= i < r.len() - 1 ==> #[trigger] r[i].to.id != END_NODE_ID
    &&& forall|i: int| 0 <= i < r.len() ==> #[trigger] r[i].to.id != START_NODE_ID
    &&& forall|i: int, j: int| 0 <= i < j < r.len() ==> #[trigger] r[i].to.id != #[trigger] r[j].to.id
}

/// Along a route, `distance_so_far` is the running sum of segment lengths
/// (held at the largest value should it ever overflow): the first is its own
/// length, and it never falls.
pub open spec fn distances_accumulate(r: Seq<TraversalSegment>) -> bool {
    &&& r[0].distance_so_far == r[0].length
    &&& forall|i: int|
        #![trigger r[i].distance_so_far, r[i - 1].distance_so_far]
        0 < i < r.len() ==> r[i].distance_so_far == if r[i - 1].distance_so_far
            + r[i].length > u64::MAX {
            u64::MAX
        } else {
            (r[i - 1].distance_so_far + r[i].length) as u64
        }
    &&& forall|i: int|
        #![trigger r[i].distance_so_far, r[i + 1].distance_so_far]
        0 <= i < r.len() - 1 ==> r[i].distance_so_far <= r[i + 1].distance_so_far
}

/// `a` is `b` but for `distance_so_far`.
pub open spec fn same_but_distance(a: TraversalSegment, b: TraversalSegment) -> bool {
    a == (TraversalSegment { distance_so_far: a.distance_so_far, ..b })
}

/// `a` strictly precedes `b` whenever `i < j`, for a chain of segments that
/// strictly descends link by link.
proof fn lemma_lex_chain(rv: Seq<TraversalSegment>, i: int, j: int)
    requires
        forall|k: int| 0 <= k < rv.len() - 1 ==> #[trigger] lex_before(rv[k + 1], rv[k]),
        0 <= i < j < rv.len(),
    ensures
        lex_before(rv[j], rv[i]),
    decreases j - i,
{
    let k = j - 1;
    assert(lex_before(rv[k + 1], rv[k]));
    if j > i + 1 {
        lemma_lex_chain(rv, i, j - 1);
    }
}

/// Every stored segment is at most `d` hops from the start.
pub open spec fn depths_within(m: Map<NodeId, TraversalSegment>, d: nat) -> bool {
    forall|n: NodeId| #[trigger] m.contains_key(n) ==> m[n].depth <= d
}

/// Along a route, distance never falls, the first segment costs nothing,
/// each later segment costs its predecessor's cost plus its own edge's, and the
/// link to the synthetic end adds nothing.
pub open spec fn costs_add_up(r: Seq<TraversalSegment>, model: CostModel) -> bool {
    &&& r[0].cost == 0
    &&& forall|i: int|
        #![trigger r[i].cost, r[i - 1].cost]
        1 <= i < r.len() - 1 ==> r[i].cost == r[i - 1].cost + edge_cost(
            model,
            r[i].labels,
            r[i].length as nat,
        )
    &&& r[r.len() - 1].cost == r[r.len() - 2].cost
}

/// A route keeps its route properties when only its distances change.
proof fn lemma_route_transfer(
    g: Graph,
    model: CostModel,
    c: Seq<TraversalSegment>,
    r: Seq<TraversalSegment>,
)
    requires
        is_route(g, c),
        r.len() == c.len(),
        forall|k: int| 0 <= k < r.len() ==> #[trigger] same_but_distance(r[k], c[k]),
    ensures
        is_route(g, r),
        costs_add_up(c, model) ==> costs_add_up(r, model),
{
    let n = r.len() as int;
    assert(same_but_distance(r[0], c[0]));
    assert(same_but_distance(r[n - 1], c[n - 1]));
    assert forall|k: int| 0 < k < n implies #[trigger] r[k].from.id != START_NODE_ID by {
        assert(same_but_distance(r[k], c[k]));
    }
    assert forall|k: int| 0 <= k < n - 1 implies #[trigger] r[k].to.id != END_NODE_ID by {
        assert(same_but_distance(r[k], c[k]));
    }
    assert forall|k: int| 0 <= k < n implies #[trigger] r[k].to.id != START_NODE_ID by {
        assert(same_but_distance(r[k], c[k]));
    }
    assert forall|k: int| 0 <= k < n implies #[trigger] r[k].to.id == c[k].to.id && r[k].from.id
        == c[k].from.id && r[k].cost == c[k].cost && r[k].way == c[k].way && r[k].length
        == c[k].length && r[k].labels == c[k].labels by {
        assert(same_but_distance(r[k], c[k]));
    }
    assert forall|k: int| 0 <= k < n - 1 implies #[trigger] r[k].to.id == r[k + 1].from.id by {
        assert(same_but_distance(r[k], c[k]));
        assert(same_but_distance(r[k + 1], c[k + 1]));
        assert(c[k].to.id == c[k + 1].from.id);
    }
    assert forall|k: int| 0 <= k < n - 1 implies #[trigger] r[k].cost <= r[k + 1].cost by {
        assert(same_but_distance(r[k], c[k]));
        assert(same_but_distance(r[k + 1], c[k + 1]));
        assert(c[k].cost <= c[k + 1].cost);
    }
    assert forall|k: int|
        0 <= k < n && r[k].from.id != START_NODE_ID && r[k].to.id != END_NODE_ID implies has_edge(
        g,
        #[trigger] r[k].from.id,
        r[k].to.id,
        r[k].way,
        r[k].length,
        r[k].labels,
    ) by {
        assert(same_but_distance(r[k], c[k]));
    }
    assert forall|k: int, j: int| 0 <= k < j < n implies #[trigger] r[k].to.id
        != #[trigger] r[j].to.id by {
        assert(same_but_distance(r[k], c[k]));
        assert(same_but_distance(r[j], c[j]));
        assert(c[k].to.id != c[j].to.id);
    }
    if costs_add_up(c, model) {
        assert forall|k: int| 1 <= k < n - 1 implies #[trigger] r[k].cost == r[k - 1].cost
            + edge_cost(model, r[k].labels, r[k].length as nat) by {
            assert(same_but_distance(r[k], c[k]));
            assert(same_but_distance(r[k - 1], c[k - 1]));
            assert(c[k].cost == c[k - 1].cost + edge_cost(model, c[k].labels, c[k].length as nat));
        }
        assert(same_but_distance(r[n - 2], c[n - 2]));
        assert(same_but_distance(r[n - 1], c[n - 1]));
        assert(same_but_distance(r[0], c[0]));
    }
}

/// Reversing a strictly descending chain of stored segments, whose first
/// element is the only one ending at the synthetic end, gives segments that end
/// at pairwise distinct nodes.
proof fn lemma_reversed_distinct(
    m: Map<NodeId, TraversalSegment>,
    rv: Seq<TraversalSegment>,
    out: Seq<TraversalSegment>,
)
    requires
        out.len() == rv.len(),
        rv.len() >= 1,
        rv[0].to.id == END_NODE_ID,
        forall|q: int| 0 <= q < out.len() ==> #[trigger] out[q] == rv[rv.len() - 1 - q],
        forall|k: int| 0 <= k < rv.len() - 1 ==> #[trigger] lex_before(rv[k + 1], rv[k]),
        forall|k: int|
            1 <= k < rv.len() ==> #[trigger] rv[k].to.id != END_NODE_ID && m.contains_key(
                rv[k].to.id,
            ) && m[rv[k].to.id] == rv[k],
    ensures
        forall|i: int, j: int|
            0 <= i < j < out.len() ==> #[trigger] out[i].to.id != #[trigger] out[j].to.id,
{
    let n = out.len() as int;
    assert forall|i: int, j: int| 0 <= i < j < n implies #[trigger] out[i].to.id
        != #[trigger] out[j].to.id by {
        let qi = n - 1 - i;
        let qj = n - 1 - j;
        assert(out[i] == rv[qi]);
        assert(out[j] == rv[qj]);
        lemma_lex_chain(rv, qj, qi);
        if qj == 0 {
            assert(rv[qi].to.id != END_NODE_ID);
        } else if rv[qi].to.id == rv[qj].to.id {
            assert(m[rv[qi].to.id] == rv[qi]);
            assert(m[rv[qj].to.id] == rv[qj]);
        }
    }
}

impl TraversalContext {
    /// The stored segments in the order their nodes were first reached.
    pub fn collect_traversal(&self) -> (r: Traversal)
        requires
            forall|n: NodeId| #[trigger]
                self.came_from@.contains_key(n) <==> self.visit_order@.contains(n),
        ensures
            r@.len() == self.visit_order@.len(),
            forall|i: int|
                0 <= i < r@.len() ==> #[trigger] r@[i] == self.came_from@[self.visit_order@[i]],
    {
        let mut out: Vec<TraversalSegment> = Vec::new();
        let mut i: usize = 0;
        while i < self.visit_order.len()
            invariant
                i <= self.visit_order@.len(),
                out@.len() == i,
                forall|n: NodeId| #[trigger]
                    self.came_from@.contains_key(n) <==> self.visit_order@.contains(n),
                forall|j: int|
                    0 <= j < i ==> #[trigger] out@[j] == self.came_from@[self.visit_order@[j]],
            decreases self.visit_order@.len() - i,
        {
            let id = self.visit_order[i];
            assert(self.visit_order@.contains(id));
            match self.came_from.get(&id) {
                Some(seg) => {
                    out.push(*seg);
                },
                None => {
                    assert(false);
                },
            }
            i = i + 1;
        }
        out
    }

    /// The stored segments linked back from the synthetic end to the
    /// synthetic start, in travel order.
    #[verifier::rlimit(100)]
    #[verifier::spinoff_prover]
    fn predecessor_chain(&self, graph: &Graph) -> (r: Route)
        requires
            reached_end(*graph, self.came_from@),
        ensures
            is_route(*graph, r@),
            r@[r@.len() - 1] == self.came_from@[END_NODE_ID],
            forall|i: int|
                0 <= i < r@.len() - 1 ==> self.came_from@.contains_key(#[trigger] r@[i].to.id)
                    && r@[i] == self.came_from@[r@[i].to.id],
            chain_consistent(self.came_from@, self.cost_model) ==> costs_add_up(
                r@,
                self.cost_model,
            ),
    {
        let ghost m = self.came_from@;
        let mut rev: Vec<TraversalSegment> = Vec::new();
        let mut cur = match self.came_from.get(&END_NODE_ID) {
            Some(s) => *s,
            None => {
                assert(false);
                return Vec::new();
            },
        };
        rev.push(cur);
        while cur.from.id != START_NODE_ID
            invariant
                m == self.came_from@,
                reached_end(*graph, m),
                rev@.len() >= 1,
                rev@[0] == m[END_NODE_ID],
                rev@[rev@.len() - 1] == cur,
                m.contains_key(cur.to.id),
                m[cur.to.id] == cur,
                cur.to.id == END_NODE_ID ==> rev@.len() == 1,
                forall|i: int|
                    0 <= i < rev@.len() - 1 ==> #[trigger] rev@[i].from.id == rev@[i + 1].to.id,
                forall|i: int|
                    0 <= i < rev@.len() - 1 ==> #[trigger] rev@[i + 1].cost <= rev@[i].cost,
                forall|i: int|
                    1 <= i < rev@.len() ==> #[trigger] rev@[i].to.id != END_NODE_ID && m.contains_key(
                        rev@[i].to.id,
                    ) && m[rev@[i].to.id] == rev@[i],
                forall|i: int|
                    0 <= i < rev@.len() - 1 ==> #[trigger] rev@[i + 1] == m[rev@[i].from.id]
                        && rev@[i].from.id != START_NODE_ID,
                forall|i: int| 0 <= i < rev@.len() - 1 ==> #[trigger] lex_before(rev@[i + 1], rev@[i]),
            decreases cur.cost, cur.depth,
        {
            let pid = cur.from.id;
            proof {
                if cur.to.id != END_NODE_ID {
                    assert(linked(*graph, m, cur.to.id));
                }
            }
            let next = match self.came_from.get(&pid) {
                Some(s) => *s,
                None => {
                    assert(false);
                    return Vec::new();
                },
            };
            proof {
                assert(pid > 0);
                assert(linked(*graph, m, pid));
                assert(next.to.id == pid);
            }
            let ghost rev_old = rev@;
            rev.push(next);
            proof {
                assert forall|i: int| 0 <= i < rev@.len() - 1 implies #[trigger] rev@[i + 1]
                    == m[rev@[i].from.id] && rev@[i].from.id != START_NODE_ID by {
                    if i < rev_old.len() - 1 {
                        assert(rev@[i] == rev_old[i]);
                        assert(rev@[i + 1] == rev_old[i + 1]);
                    } else {
                        assert(rev@[i] == cur);
                    }
                }
                assert forall|i: int| 0 <= i < rev@.len() - 1 implies #[trigger] lex_before(
                    rev@[i + 1],
                    rev@[i],
                ) by {
                    if i < rev_old.len() - 1 {
                        assert(rev@[i] == rev_old[i]);
                        assert(rev@[i + 1] == rev_old[i + 1]);
                    } else {
                        assert(rev@[i] == cur);
                        if cur.to.id != END_NODE_ID {
                            assert(linked(*graph, m, cur.to.id));
                        }
                    }
                }
            }
            proof {
                assert forall|i: int| 1 <= i < rev@.len() implies #[trigger] rev@[i].to.id
                    != END_NODE_ID && m.contains_key(rev@[i].to.id) && m[rev@[i].to.id]
                    == rev@[i] by {
                    if i < rev_old.len() {
                        assert(rev@[i] == rev_old[i]);
                    }
                }
            }
            cur = next;
        }
        proof {
            assert(rev@.len() >= 2) by {
                if rev@.len() == 1 {
                    assert(cur.to.id == END_NODE_ID);
                }
            }
        }
        let ghost rv = rev@;
        let mut out: Vec<TraversalSegment> = Vec::new();
        let mut j: usize = rev.len();
        while j > 0
            invariant
                rv == rev@,
                j <= rv.len(),
                out@.len() == rv.len() - j,
                forall|q: int| 0 <= q < out@.len() ==> #[trigger] out@[q] == rv[rv.len() - 1 - q],
            decreases j,
        {
            out.push(rev[j - 1]);
            j = j - 1;
        }
        proof {
            let n = out@.len() as int;
            assert forall|i: int| 0 <= i < n - 1 implies #[trigger] out@[i].to.id == out@[i
                + 1].from.id by {
                assert(out@[i] == rv[n - 1 - i]);
                assert(out@[i + 1] == rv[n - 1 - (i + 1)]);
                assert(rv[n - 2 - i].from.id == rv[n - 2 - i + 1].to.id);
            }
            assert forall|i: int| 0 <= i < n - 1 implies #[trigger] out@[i].cost <= out@[i
                + 1].cost by {
                assert(out@[i] == rv[n - 1 - i]);
                assert(out@[i + 1] == rv[n - 1 - (i + 1)]);
                assert(rv[n - 2 - i + 1].cost <= rv[n - 2 - i].cost);
            }
            assert forall|i: int|
                0 <= i < n && out@[i].from.id != START_NODE_ID && out@[i].to.id
                    != END_NODE_ID implies has_edge(
                *graph,
                #[trigger] out@[i].from.id,
                out@[i].to.id,
                out@[i].way,
                out@[i].length,
                out@[i].labels,
            ) by {
                let q = n - 1 - i;
                assert(out@[i] == rv[q]);
                if q == 0 {
                    assert(rv[0].to.id == END_NODE_ID);
                } else {
                    assert(linked(*graph, m, rv[q].to.id));
                }
            }
            assert(out@[0] == rv[n - 1]);
            assert(out@[n - 1] == rv[0]);
            assert forall|i: int| 0 <= i < n - 1 implies m.contains_key(#[trigger] out@[i].to.id)
                && out@[i] == m[out@[i].to.id] by {
                assert(out@[i] == rv[n - 1 - i]);
            }
            assert forall|i: int| 0 < i < n implies #[trigger] out@[i].from.id != START_NODE_ID by {
                assert(out@[i] == rv[n - 1 - i]);
            }
            assert forall|i: int| 0 <= i < n - 1 implies #[trigger] out@[i].to.id != END_NODE_ID by {
                assert(out@[i] == rv[n - 1 - i]);
            }
            assert forall|i: int| 0 <= i < n implies #[trigger] out@[i].to.id != START_NODE_ID by {
                let q = n - 1 - i;
                assert(out@[i] == rv[q]);
                if q > 0 {
                    assert(came_from_wf(*graph, m));
                    assert(m.contains_key(rv[q].to.id));
                }
            }
            lemma_reversed_distinct(m, rv, out@);
            if chain_consistent(m, self.cost_model) {
                assert forall|i: int| 1 <= i < n - 1 implies #[trigger] out@[i].cost == out@[i
                    - 1].cost + edge_cost(self.cost_model, out@[i].labels, out@[i].length as nat) by {
                    let q = n - 1 - i;
                    assert(out@[i] == rv[q]);
                    assert(out@[i - 1] == rv[q + 1]);
                    assert(rv[q + 1] == m[rv[q].from.id]);
                    assert(m.contains_key(rv[q].to.id));
                    assert(m[rv[q].to.id] == rv[q]);
                }
                assert(out@[n - 2] == rv[1]);
                assert(rv[1] == m[rv[0].from.id]);
                assert(m.contains_key(END_NODE_ID));
                assert(linked(*graph, m, out@[0].to.id));
            }
        }
        out
    }

    /// Walks predecessor links back from the synthetic end to the synthetic
    /// start, and returns the chain in travel order, with `distance_so_far`
    /// counted along the route itself.
    pub fn reconstruct_route(&self, graph: &Graph) -> (r: Route)
        requires
            reached_end(*graph, self.came_from@),
        ensures
            is_route(*graph, r@),
            distances_accumulate(r@),
            same_but_distance(r@[r@.len() - 1], self.came_from@[END_NODE_ID]),
            forall|i: int|
                0 <= i < r@.len() - 1 ==> self.came_from@.contains_key(#[trigger] r@[i].to.id)
                    && same_but_distance(r@[i], self.came_from@[r@[i].to.id]),
            chain_consistent(self.came_from@, self.cost_model) ==> costs_add_up(
                r@,
                self.cost_model,
            ),
    {
        let chain = self.predecessor_chain(graph);
        let ghost c = chain@;
        let mut out: Vec<TraversalSegment> = Vec::new();
        let mut i: usize = 0;
        let mut dist: u64 = 0;
        while i < chain.len()
            invariant
                c == chain@,
                c.len() >= 2,
                i <= c.len(),
                out@.len() == i,
                i > 0 ==> dist == out@[i - 1].distance_so_far,
                forall|k: int| 0 <= k < i ==> #[trigger] same_but_distance(out@[k], c[k]),
                i > 0 ==> out@[0].distance_so_far == out@[0].length,
                forall|k: int|
                    0 < k < i ==> #[trigger] out@[k].distance_so_far == if out@[k
                        - 1].distance_so_far + out@[k].length > u64::MAX {
                        u64::MAX
                    } else {
                        (out@[k - 1].distance_so_far + out@[k].length) as u64
                    },
            decreases c.len() - i,
        {
            let seg = chain[i];
            let d = if i == 0 {
                seg.length as u64
            } else {
                dist.saturating_add(seg.length as u64)
            };
            out.push(TraversalSegment { distance_so_far: d, ..seg });
            dist = d;
            i = i + 1;
        }
        proof {
            lemma_route_transfer(*graph, self.cost_model, c, out@);
            let n = c.len() as int;
            assert forall|i: int| 0 <= i < n - 1 implies self.came_from@.contains_key(
                #[trigger] out@[i].to.id,
            ) && same_but_distance(out@[i], self.came_from@[out@[i].to.id]) by {
                assert(same_but_distance(out@[i], c[i]));
                assert(self.came_from@.contains_key(c[i].to.id));
            }
            assert(same_but_distance(out@[n - 1], c[n - 1]));
            assert forall|k: int| 0 <= k < n - 1 implies #[trigger] out@[k].distance_so_far
                <= out@[k + 1].distance_so_far by {
                assert(out@[k + 1].distance_so_far == if out@[k].distance_so_far
                    + out@[k + 1].length > u64::MAX {
                    u64::MAX
                } else {
                    (out@[k].distance_so_far + out@[k + 1].length) as u64
                });
            }
        }
        out
    }
}

/// Labels for a segment leaving the synthetic start when its way has none recorded.
pub open spec fn fallback_labels() -> WayLabels {
    (Cycleway::Shared, Road::Collector, false)
}

/// `s` is the segment from the synthetic start to the snapped neighbor `nb`.
pub open spec fn seed_of(s: TraversalSegment, nb: Neighbor) -> bool {
    &&& s.from.id == START_NODE_ID
    &&& s.to == nb.node
    &&& s.way == nb.way
    &&& s.length == nb.distance
    &&& s.distance_so_far == nb.distance
    &&& s.depth == 0
    &&& s.cost == 0
    &&& s.cost_factor == 0
}

/// A freshly seeded context: every stored segment costs nothing and has an
/// open entry at cost 0; entries have priority 0 when there is no heuristic.
pub open spec fn seeded(ctx: TraversalContext) -> bool {
    let m = ctx.came_from@;
    let q = ctx.queue@;
    &&& forall|j: int|
        #![trigger q[j]]
        0 <= j < q.len() ==> q[j].cost == 0 && (ctx.heuristic_weight == 0 ==> q[j].priority == 0)
    &&& forall|n: NodeId| #[trigger]
        m.contains_key(n) ==> exists|j: int| 0 <= j < q.len() && q[j].node == n && q[j].cost == 0
}

/// A seeded context whose segments all leave the synthetic start has every
/// reached node open at its cost.
proof fn lemma_seeded_open_complete(g: Graph, ctx: TraversalContext)
    requires
        seeded(ctx),
        ctx.inv(g, 0),
    ensures
        open_complete(ctx, Set::empty()),
{
    let m = ctx.came_from@;
    let q = ctx.queue@;
    assert forall|n: NodeId| #[trigger] m.contains_key(n) && !Set::<NodeId>::empty().contains(n)
        implies exists|j: int| 0 <= j < q.len() && q[j].node == n && q[j].cost == m[n].cost by {
        let j = choose|j: int| 0 <= j < q.len() && q[j].node == n && q[j].cost == 0;
        assert(linked(g, m, n));
        assert(bounded(m[n], 0));
    }
}

impl Graph {
    /// Seeds a context with one segment from the synthetic start at `start` to
    /// each snapped neighbor, at no cost and depth 0.
    pub fn initialize_traversal<H: Fn(Coord) -> Distance>(
        &self,
        start: &Coord,
        starting_neighbors: &Vec<Neighbor>,
        cost_model: Option<CostModel>,
        heuristic_weight: Option<Weight>,
        dist_to_end: &H,
    ) -> (r: TraversalContext)
        requires
            self.wf(),
            cost_model matches Some(m) ==> m.wf(),
            forall|i: int|
                0 <= i < starting_neighbors@.len() ==> #[trigger] starting_neighbors@[i].node.id > 0,
            forall|c: Coord| dist_to_end.requires((c,)),
        ensures
            r.inv(*self, 0),
            r.cost_model == (match cost_model {
                Some(m) => m,
                None => crate::cost::default_model(),
            }),
            r.heuristic_weight == (match heuristic_weight {
                Some(w) => w,
                None => DEFAULT_HEURISTIC_WEIGHT,
            }),
            r.queue@.len() == starting_neighbors@.len(),
            forall|i: int|
                0 <= i < starting_neighbors@.len() ==> r.came_from@.contains_key(
                    #[trigger] starting_neighbors@[i].node.id,
                ),
            forall|n: NodeId| #[trigger]
                r.came_from@.contains_key(n) ==> r.came_from@[n].from.id == START_NODE_ID
                    && r.came_from@[n].from.geometry == *start && r.came_from@[n].depth == 0,
            seeded(r),
            forall|n: NodeId| #[trigger]
                r.came_from@.contains_key(n) ==> exists|i: int|
                    0 <= i < starting_neighbors@.len() && seed_of(
                        r.came_from@[n],
                        starting_neighbors@[i],
                    ),
    {
        let start_node = Node::new(START_NODE_ID, start);
        let mut context = TraversalContext::new(cost_model, heuristic_weight);
        let mut i: usize = 0;
        while i < starting_neighbors.len()
            invariant
                self.wf(),
                i <= starting_neighbors@.len(),
                context.inv(*self, 0),
                start_node.id == START_NODE_ID,
                start_node.geometry == *start,
                context.cost_model == (match cost_model {
                    Some(m) => m,
                    None => crate::cost::default_model(),
                }),
                context.heuristic_weight == (match heuristic_weight {
                    Some(w) => w,
                    None => DEFAULT_HEURISTIC_WEIGHT,
                }),
                context.queue@.len() == i,
                forall|j: int|
                    0 <= j < starting_neighbors@.len() ==> #[trigger] starting_neighbors@[j].node.id
                        > 0,
                forall|j: int|
                    0 <= j < i ==> context.came_from@.contains_key(
                        #[trigger] starting_neighbors@[j].node.id,
                    ),
                forall|n: NodeId| #[trigger]
                    context.came_from@.contains_key(n) ==> context.came_from@[n].from.id
                        == START_NODE_ID && context.came_from@[n].from.geometry == *start
                        && context.came_from@[n].depth == 0,
                forall|c: Coord| dist_to_end.requires((c,)),
                seeded(context),
                forall|n: NodeId| #[trigger]
                    context.came_from@.contains_key(n) ==> exists|k: int|
                        0 <= k < i && seed_of(context.came_from@[n], starting_neighbors@[k]),
            decreases starting_neighbors@.len() - i,
        {
            let neighbor = starting_neighbors[i];
            let labels = match self.get_way_labels(neighbor.way) {
                Some(l) => l,
                None => (Cycleway::Shared, Road::Collector, false),
            };
            let d = dist_to_end(neighbor.node.geometry);
            let h = weighted_heuristic(context.heuristic_weight, d);
            let seg = TraversalSegment {
                from: start_node,
                to: neighbor.node,
                way: neighbor.way,
                depth: 0,
                length: neighbor.distance,
                distance_so_far: neighbor.distance as u64,
                labels,
                cost_factor: 0,
                cost: 0,
                heuristic: h,
            };
            let ghost m = context.came_from@;
            let ghost q = context.queue@;
            context.record(neighbor.node.id, seg);
            proof {
                let m2 = context.came_from@;
                assert forall|x: NodeId| #[trigger] m2.contains_key(x) && x != END_NODE_ID implies x
                    > 0 && linked(*self, m2, x) by {
                    if x != neighbor.node.id {
                        assert(m.contains_key(x));
                    }
                }
                assert forall|x: NodeId| #[trigger] m2.contains_key(x) implies bounded(m2[x], 0) by {
                    if x != neighbor.node.id {
                        assert(m.contains_key(x));
                    }
                }
                assert forall|j: int| 0 <= j < context.queue@.len() implies m2.contains_key(
                    #[trigger] context.queue@[j].node,
                ) by {
                    if j < q.len() {
                        assert(q[j] == context.queue@[j]);
                        assert(m.contains_key(q[j].node));
                    }
                }
                assert forall|j: int| 0 <= j < i + 1 implies m2.contains_key(
                    #[trigger] starting_neighbors@[j].node.id,
                ) by {
                    if j < i {
                        assert(m.contains_key(starting_neighbors@[j].node.id));
                    }
                }
                assert forall|x: NodeId| #[trigger] m2.contains_key(x) implies m2[x].from.id
                    == START_NODE_ID && m2[x].from.geometry == *start && m2[x].depth == 0 by {
                    if x != neighbor.node.id {
                        assert(m.contains_key(x));
                    }
                }
                assert forall|x: NodeId| #[trigger] m2.contains_key(x) implies exists|k: int|
                    0 <= k < i + 1 && seed_of(m2[x], starting_neighbors@[k]) by {
                    if x == neighbor.node.id {
                        assert(seed_of(m2[x], starting_neighbors@[i as int]));
                    } else {
                        assert(m.contains_key(x));
                    }
                }
                let q2 = context.queue@;
                assert(context.heuristic_weight == 0 ==> h == 0) by (nonlinear_arith)
                    requires
                        h == context.heuristic_weight * d * 1000000,
                ;
                assert forall|j: int|
                    #![trigger q2[j]]
                    0 <= j < q2.len() implies q2[j].cost == 0 && (context.heuristic_weight == 0
                        ==> q2[j].priority == 0) by {
                    if j < q.len() {
                        assert(q2[j] == q[j]);
                    } else {
                        assert(q2[j].cost == 0);
                        assert(q2[j].priority == h);
                    }
                }
                assert forall|x: NodeId| #[trigger] m2.contains_key(x) implies exists|j: int|
                    0 <= j < q2.len() && q2[j].node == x && q2[j].cost == 0 by {
                    if x == neighbor.node.id {
                        assert(q2[q.len() as int].node == x);
                    } else {
                        assert(m.contains_key(x));
                        let j = choose|j: int| 0 <= j < q.len() && q[j].node == x && q[j].cost == 0;
                        assert(q2[j] == q[j]);
                    }
                }
            }
            i = i + 1;
        }
        context
    }
}

impl TraversalContext {
    /// Removes an entry of least priority, keeping the search state valid.
    fn pop_entry(&mut self, Ghost(g): Ghost<Graph>, Ghost(k): Ghost<nat>) -> (r: Option<QueueEntry>)
        requires
            old(self).inv(g, k),
        ensures
            final(self).inv(g, k + 1),
            final(self).came_from == old(self).came_from,
            final(self).cost_model == old(self).cost_model,
            final(self).heuristic_weight == old(self).heuristic_weight,
            r is None ==> old(self).queue@.len() == 0,
            r matches Some(e) ==> final(self).came_from@.contains_key(e.node),
            r matches Some(e) ==> popped_from(*old(self), *final(self), e),
            r is Some ==> final(self).queue@.len() == old(self).queue@.len() - 1,
            final(self).max_depth == old(self).max_depth,
            final(self).cost_range == old(self).cost_range,
            r is None ==> final(self).queue@.len() == 0,
    {
        let ghost q = self.queue@;
        let r = self.pop_min();
        proof {
            assert forall|n: NodeId| #[trigger] self.came_from@.contains_key(n) implies bounded(
                self.came_from@[n],
                k + 1,
            ) by {
                lemma_bounded_mono(self.came_from@[n], k);
            }
            assert forall|i: int| 0 <= i < self.queue@.len() implies self.came_from@.contains_key(
                #[trigger] self.queue@[i].node,
            ) by {
                let e = self.queue@[i];
                assert(q.contains(e));
                let j = choose|j: int| 0 <= j < q.len() && q[j] == e;
                assert(self.came_from@.contains_key(q[j].node));
            }
            if let Some(e) = r {
                let j = choose|j: int| 0 <= j < q.len() && q[j] == e;
                assert(self.came_from@.contains_key(q[j].node));
            }
        }
        r
    }

    /// Relaxes every outgoing edge of the reached node `current`.
    fn expand<H: Fn(Coord) -> Distance>(
        &mut self,
        graph: &Graph,
        current: &TraversalSegment,
        dist_to_end: &H,
        first_visit_only: bool,
        Ghost(k): Ghost<nat>,
    )
        requires
            graph.wf(),
            old(self).inv(*graph, k + 1),
            k < 4294967296,
            old(self).came_from@.contains_key(current.to.id),
            old(self).came_from@[current.to.id] == *current,
            bounded(*current, k),
            forall|c: Coord| dist_to_end.requires((c,)),
        ensures
            final(self).inv(*graph, k + 1),
            final(self).cost_model == old(self).cost_model,
            final(self).heuristic_weight == old(self).heuristic_weight,
            forall|n: NodeId| #[trigger]
                final(self).came_from@.contains_key(n) ==> old(self).came_from@.contains_key(n)
                    && final(self).came_from@[n] == old(self).came_from@[n] || (
                final(self).came_from@[n].depth == current.depth + 1 && heuristic_fits(
                    dist_to_end,
                    old(self).heuristic_weight,
                    final(self).came_from@[n],
                )),
            expand_post(*graph, *old(self), *final(self), *current, first_visit_only),
    {
        let cid = current.to.id;
        match graph.adjacency.get(&cid) {
            Some(edges) => {
                let ghost m0 = self.came_from@;
                let mut i: usize = 0;
                while i < edges.len()
                    invariant
                        graph.wf(),
                        k < 4294967296,
                        self.inv(*graph, k + 1),
                        self.came_from@.contains_key(cid),
                        self.came_from@[cid] == *current,
                        cid == current.to.id,
                        bounded(*current, k),
                        graph.adjacency@.contains_key(cid),
                        edges@ == graph.adjacency@[cid]@,
                        i <= edges@.len(),
                        self.cost_model == old(self).cost_model,
                        self.heuristic_weight == old(self).heuristic_weight,
                        m0 == old(self).came_from@,
                        forall|c: Coord| dist_to_end.requires((c,)),
                        forall|n: NodeId| #[trigger]
                            self.came_from@.contains_key(n) ==> m0.contains_key(n)
                                && self.came_from@[n] == m0[n] || (self.came_from@[n].depth
                                == current.depth + 1 && heuristic_fits(
                                dist_to_end,
                                old(self).heuristic_weight,
                                self.came_from@[n],
                            )),
                        expand_partial(*graph, *old(self), *self, *current, first_visit_only, i as int),
                    decreases edges@.len() - i,
                {
                    let e = edges[i];
                    let d = dist_to_end(e.0.node.geometry);
                    let h = weighted_heuristic(self.heuristic_weight, d);
                    proof {
                        assert(graph.edge_wf(cid, graph.adjacency@[cid]@[i as int]));
                        assert(has_edge(*graph, cid, e.0.node.id, e.0.way, e.0.distance, e.1));
                    }
                    let ghost m1 = self.came_from@;
                    let ghost before = *self;
                    proof {
                        crate::cost::lemma_cost_bounds(self.cost_model, e.1, e.0.distance as nat);
                        assert(current.cost + MAX_EDGE_COST + MAX_HEURISTIC <= u128::MAX)
                            by (nonlinear_arith)
                            requires
                                current.cost <= k * MAX_EDGE_COST,
                                k < 4294967296,
                        ;
                        assert(self.heuristic_weight == 0 ==> h == 0) by (nonlinear_arith)
                            requires
                                h == self.heuristic_weight * d * 1000000,
                        ;
                        assert(current.distance_so_far + e.0.distance <= u64::MAX)
                            by (nonlinear_arith)
                            requires
                                current.distance_so_far <= (k + 1) * (u32::MAX as nat),
                                e.0.distance <= u32::MAX,
                                k < 4294967296,
                        ;
                    }
                    self.relax_edge(graph, current, &e, h, first_visit_only, Ghost(k));
                    proof {
                        lemma_expand_step(*graph, *old(self), before, *self, *current, first_visit_only, i as int, e, h);
                        assert forall|n: NodeId| #[trigger]
                            self.came_from@.contains_key(n) implies m0.contains_key(n)
                            && self.came_from@[n] == m0[n] || (self.came_from@[n].depth
                            == current.depth + 1 && heuristic_fits(
                            dist_to_end,
                            old(self).heuristic_weight,
                            self.came_from@[n],
                        )) by {
                            if n != e.0.node.id {
                                assert(m1.contains_key(n));
                            } else if !(m0.contains_key(n) && self.came_from@[n] == m0[n]) {
                                if m1.contains_key(n) && self.came_from@[n] == m1[n] {
                                    assert(m1.contains_key(n));
                                } else {
                                    assert(self.came_from@[n].heuristic == h);
                                    assert(self.came_from@[n].to.geometry == e.0.node.geometry);
                                    assert(dist_to_end.ensures((e.0.node.geometry,), d));
                                }
                            }
                        }
                    }
                    i = i + 1;
                }
                proof {
                    assert(out_edges(*graph, cid) == edges@);
                }
            },
            None => {
                proof {
                    assert(expand_partial(*graph, *old(self), *self, *current, first_visit_only, 0));
                }
            },
        }
    }
}

impl Graph {
    /// Runs the search until an entry whose node is a target neighbor is
    /// popped, then links that node to the synthetic `end_node`. Fails with
    /// `NoRouteFound` when the open set runs dry, and with `Cancelled` after
    /// `budget` expansions.
    #[verifier::rlimit(100)]
    #[verifier::spinoff_prover]
    pub fn traverse_between<H: Fn(Coord) -> Distance>(
        &self,
        context: &mut TraversalContext,
        target_neighbor_node_ids: &Vec<NodeId>,
        end_node: &Node,
        dist_to_end: &H,
        budget: u32,
    ) -> (r: Result<(), RoutingError>)
        requires
            self.wf(),
            old(context).inv(*self, 0),
            end_node.id == END_NODE_ID,
            forall|c: Coord| dist_to_end.requires((c,)),
        ensures
            r is Ok ==> reached_end(*self, final(context).came_from@)
                && target_neighbor_node_ids@.contains(
                final(context).came_from@[END_NODE_ID].from.id,
            ) && final(context).came_from@[END_NODE_ID].to == *end_node,
            r is Ok ==> forall|n: NodeId| #[trigger]
                final(context).came_from@.contains_key(n)
                    <==> final(context).visit_order@.contains(n),
            r is Ok && settled_inv(
                *self,
                *old(context),
                Set::empty(),
                old(context).came_from@.dom(),
                target_neighbor_node_ids@,
            ) ==> chain_consistent(final(context).came_from@, old(context).cost_model),
            r == Err::<(), RoutingError>(RoutingError::NoRouteFound) && open_complete(
                *old(context),
                Set::empty(),
            ) ==> forall|s: NodeId, steps: Seq<int>|
                old(context).came_from@.contains_key(s) && #[trigger] is_walk(*self, s, steps)
                    ==> !target_neighbor_node_ids@.contains(walk_end(*self, s, steps)),
            final(context).cost_model == old(context).cost_model,
            final(context).heuristic_weight == old(context).heuristic_weight,
            forall|k: NodeId| #[trigger]
                old(context).came_from@.contains_key(k) ==> final(context).came_from@.contains_key(k)
                    && final(context).came_from@[k].cost <= old(context).came_from@[k].cost,
            r is Ok ==> end_linked(final(context).came_from@),
            r is Ok ==> final(context).visit_order@.no_duplicates(),
            metered(*old(context)) ==> metered(*final(context)),
            searched(*old(context), dist_to_end) ==> searched(*final(context), dist_to_end),
            forall|n: NodeId| #[trigger]
                final(context).came_from@.contains_key(n) && final(context).came_from@[n].from.id
                    == START_NODE_ID ==> old(context).came_from@.contains_key(n)
                    && final(context).came_from@[n] == old(context).came_from@[n],
            stored_costs(old(context).came_from@, old(context).cost_model) ==> stored_costs(
                final(context).came_from@,
                old(context).cost_model,
            ),
            r == Err::<(), RoutingError>(RoutingError::NoRouteFound)
                ==> final(context).queue@.len() == 0,
            settled_inv(
                *self,
                *old(context),
                Set::empty(),
                old(context).came_from@.dom(),
                target_neighbor_node_ids@,
            ) && (exists|d: nat|
                degree_at_most(*self, d) && budget >= search_bound(
                    *self,
                    old(context).queue@.len(),
                    d,
                )) ==> r != Err::<(), RoutingError>(RoutingError::Cancelled),
            r is Ok && settled_inv(
                *self,
                *old(context),
                Set::empty(),
                old(context).came_from@.dom(),
                target_neighbor_node_ids@,
            ) ==> forall|s: NodeId, steps: Seq<int>|
                old(context).came_from@.contains_key(s) && is_walk(*self, s, steps)
                    && target_neighbor_node_ids@.contains(walk_end(*self, s, steps))
                    ==> final(context).came_from@[END_NODE_ID].cost <= #[trigger] walk_cost(
                    *self,
                    old(context).cost_model,
                    s,
                    steps,
                ),
            r is Err ==> r == Err::<(), RoutingError>(RoutingError::NoRouteFound) || r == Err::<
                (),
                RoutingError,
            >(RoutingError::Cancelled),
    {
        let ghost seeds = context.came_from@.dom();
        let ghost exact = settled_inv(*self, *context, Set::empty(), seeds, target_neighbor_node_ids@);
        let ghost complete = open_complete(*context, Set::empty());
        let ghost mut closed: Set<NodeId> = Set::empty();
        let ghost costed = stored_costs(context.came_from@, context.cost_model);
        let ghost meter = metered(*context);
        let ghost fitted = searched(*context, dist_to_end);
        let ghost q0 = context.queue@.len();
        let ghost d: nat = choose|d: nat|
            degree_at_most(*self, d) && budget >= search_bound(*self, q0, d);
        let ghost limited = exact && degree_at_most(*self, d) && budget >= search_bound(
            *self,
            q0,
            d,
        );
        let ghost mut pushed: nat = 0;
        let ghost mut expanded: Set<NodeId> = Set::empty();
        let mut done: u64 = 0;
        while done < budget as u64
            invariant
                self.wf(),
                context.inv(*self, done as nat),
                done <= budget,
                end_node.id == END_NODE_ID,
                forall|c: Coord| dist_to_end.requires((c,)),
                context.cost_model == old(context).cost_model,
                seeds == old(context).came_from@.dom(),
                exact == settled_inv(
                    *self,
                    *old(context),
                    Set::empty(),
                    seeds,
                    target_neighbor_node_ids@,
                ),
                exact ==> settled_inv(*self, *context, closed, seeds, target_neighbor_node_ids@),
                complete == open_complete(*old(context), Set::empty()),
                complete ==> reach_inv(*self, *context, closed, seeds, target_neighbor_node_ids@),
                context.heuristic_weight == old(context).heuristic_weight,
                forall|k: NodeId| #[trigger]
                    old(context).came_from@.contains_key(k) ==> context.came_from@.contains_key(k)
                        && context.came_from@[k].cost <= old(context).came_from@[k].cost,
                forall|n: NodeId| #[trigger]
                    context.came_from@.contains_key(n) && context.came_from@[n].from.id
                        == START_NODE_ID ==> old(context).came_from@.contains_key(n)
                        && context.came_from@[n] == old(context).came_from@[n],
                costed == stored_costs(old(context).came_from@, old(context).cost_model),
                meter == metered(*old(context)),
                meter ==> metered(*context),
                fitted == searched(*old(context), dist_to_end),
                fitted ==> searched(*context, dist_to_end),
                costed ==> stored_costs(context.came_from@, context.cost_model),
                q0 == old(context).queue@.len(),
                limited == (exact && degree_at_most(*self, d) && budget >= search_bound(
                    *self,
                    q0,
                    d,
                )),
                limited ==> done + context.queue@.len() == q0 + pushed,
                limited ==> pushed <= d * expanded.len(),
                limited ==> expanded.subset_of(closed) && expanded.subset_of(
                    self.adjacency@.dom(),
                ) && expanded.finite(),
            decreases budget as u64 - done,
        {
            let ghost pre = *context;
            let entry = match context.pop_entry(Ghost(*self), Ghost(done as nat)) {
                Some(e) => e,
                None => {
                    proof {
                        if complete {
                            assert forall|s: NodeId, steps: Seq<int>|
                                seeds.contains(s) && #[trigger] is_walk(
                                    *self,
                                    s,
                                    steps,
                                ) implies !target_neighbor_node_ids@.contains(
                                walk_end(*self, s, steps),
                            ) by {
                                lemma_walk_stays_closed(
                                    *self,
                                    pre,
                                    closed,
                                    seeds,
                                    target_neighbor_node_ids@,
                                    s,
                                    steps,
                                );
                            }
                        }
                    }
                    return Err(RoutingError::NoRouteFound);
                },
            };
            let current = match context.came_from.get(&entry.node) {
                Some(s) => *s,
                None => {
                    proof {
                        assert(false);
                    }
                    return Err(RoutingError::NoRouteFound);
                },
            };
            let ghost popped = *context;
            proof {
                assert(linked(*self, context.came_from@, entry.node));
                assert(bounded(current, done as nat));
            }
            if entry.cost <= current.cost {
                if contains_id(target_neighbor_node_ids, current.to.id) {
                    proof {
                        if exact {
                            assert forall|s: NodeId, steps: Seq<int>|
                                seeds.contains(s) && is_walk(*self, s, steps)
                                    && target_neighbor_node_ids@.contains(
                                    walk_end(*self, s, steps),
                                ) implies current.cost <= #[trigger] walk_cost(
                                *self,
                                old(context).cost_model,
                                s,
                                steps,
                            ) by {
                                lemma_optimal_at_target(
                                    *self,
                                    pre,
                                    popped,
                                    entry,
                                    current,
                                    closed,
                                    seeds,
                                    target_neighbor_node_ids@,
                                    s,
                                    steps,
                                );
                            }
                        }
                    }
                    let d = dist_to_end(current.to.geometry);
                    proof {
                        assert(current.distance_so_far + d <= (done + 2) * (u32::MAX as nat))
                            by (nonlinear_arith)
                            requires
                                current.distance_so_far <= (done + 1) * (u32::MAX as nat),
                                d <= u32::MAX,
                        ;
                        assert((done + 2) * (u32::MAX as nat) <= 4294967297 * (u32::MAX as nat))
                            by (nonlinear_arith)
                            requires
                                done + 2 <= 4294967297,
                        ;
                    }
                    let seg = TraversalSegment {
                        from: current.to,
                        to: *end_node,
                        way: current.way,
                        depth: current.depth + 1,
                        length: d,
                        distance_so_far: current.distance_so_far + d as u64,
                        labels: current.labels,
                        cost_factor: 0,
                        cost: current.cost,
                        heuristic: 0,
                    };
                    let ghost m = context.came_from@;
                    let ghost order = context.visit_order@;
                    context.came_from.insert(END_NODE_ID, seg);
                    context.visit_order.push(END_NODE_ID);
                    proof {
                        let m2 = context.came_from@;
                        assert forall|x: NodeId| #[trigger]
                            m2.contains_key(x) && x != END_NODE_ID implies x > 0 && linked(
                            *self,
                            m2,
                            x,
                        ) by {
                            assert(m.contains_key(x));
                            assert(linked(*self, m, x));
                        }
                        if exact {
                            assert forall|x: NodeId| #[trigger]
                                m2.contains_key(x) && m2[x].from.id != START_NODE_ID implies {
                                let p = m2[x].from.id;
                                &&& m2.contains_key(p)
                                &&& m2[p].distance_so_far <= m2[x].distance_so_far
                                &&& x != END_NODE_ID ==> m2[x].cost == m2[p].cost + edge_cost(
                                    context.cost_model,
                                    m2[x].labels,
                                    m2[x].length as nat,
                                )
                                &&& x == END_NODE_ID ==> m2[x].cost == m2[p].cost
                            } by {
                                if x != END_NODE_ID {
                                    assert(m.contains_key(x));
                                    assert(settled_step(m, context.cost_model, x));
                                    assert(m[x].from.id != END_NODE_ID);
                                } else {
                                    assert(m2[x].from.id == current.to.id);
                                    assert(m.contains_key(current.to.id));
                                }
                            }
                        }
                        assert forall|x: NodeId| #[trigger]
                            m2.contains_key(x) <==> context.visit_order@.contains(x) by {
                            if x != END_NODE_ID {
                                if order.contains(x) {
                                    let j = choose|j: int| 0 <= j < order.len() && order[j] == x;
                                    assert(context.visit_order@[j] == x);
                                }
                                if context.visit_order@.contains(x) {
                                    let j = choose|j: int|
                                        0 <= j < context.visit_order@.len()
                                            && context.visit_order@[j] == x;
                                    assert(order[j] == x);
                                }
                            } else {
                                assert(context.visit_order@[order.len() as int] == x);
                            }
                        }
                    }
                    return Ok(());
                }
                let ghost qb = context.queue@.len();
                context.expand(self, &current, dist_to_end, false, Ghost(done as nat));
                proof {
                    if costed {
                        lemma_stored_costs_expand(*self, popped, *context, current, false);
                    }
                    if fitted {
                        assert forall|n: NodeId|
                            #[trigger] context.came_from@.contains_key(n) && n != END_NODE_ID
                                && context.came_from@[n].from.id != START_NODE_ID implies context.came_from@[n].depth
                            >= 1 && heuristic_fits(
                            dist_to_end,
                            context.heuristic_weight,
                            context.came_from@[n],
                        ) by {
                            if popped.came_from@.contains_key(n) && context.came_from@[n]
                                == popped.came_from@[n] {
                                assert(popped.came_from@.contains_key(n));
                            }
                        }
                    }
                    if meter {
                        assert forall|n: NodeId|
                            #[trigger] context.came_from@.contains_key(n) && n != END_NODE_ID
                                && context.came_from@[n].from.id != START_NODE_ID implies covers(
                            *context,
                            context.came_from@[n],
                        ) by {
                            if popped.came_from@.contains_key(n) && context.came_from@[n]
                                == popped.came_from@[n] {
                                assert(covers(popped, popped.came_from@[n]));
                            }
                        }
                    }
                    if limited {
                        let c = entry.node;
                        let grew = (context.queue@.len() - qb) as nat;
                        if closed.contains(c) {
                            assert(relaxed_out(*self, pre, c));
                            assert forall|k: int|
                                0 <= k < out_edges(*self, current.to.id).len() implies popped.came_from@.contains_key(
                                #[trigger] out_edges(*self, current.to.id)[k].0.node.id,
                            ) && (false || popped.came_from@[out_edges(
                                *self,
                                current.to.id,
                            )[k].0.node.id].cost <= current.cost + edge_cost(
                                popped.cost_model,
                                out_edges(*self, current.to.id)[k].1,
                                out_edges(*self, current.to.id)[k].0.distance as nat,
                            )) by {
                                assert(out_edges(*self, c)[k] == out_edges(*self, current.to.id)[k]);
                            }
                            assert(already_relaxed(*self, popped, current, false));
                            assert(grew == 0);
                        } else if self.adjacency@.contains_key(c) {
                            assert(!expanded.contains(c));
                            assert(out_edges(*self, c).len() <= d);
                            assert(grew <= d);
                            assert(pushed + grew <= d * (expanded.len() + 1)) by (nonlinear_arith)
                                requires
                                    pushed <= d * expanded.len(),
                                    grew <= d,
                            ;
                            expanded = expanded.insert(c);
                        } else {
                            assert(out_edges(*self, c).len() == 0);
                            assert(grew == 0);
                        }
                        pushed = pushed + grew;
                    }
                    if exact {
                        let cid = current.to.id;
                        assert(popped.came_from@.contains_key(cid));
                        assert(context.came_from@[cid] == current);
                        lemma_settle(
                            *self,
                            pre,
                            popped,
                            *context,
                            entry,
                            current,
                            closed,
                            seeds,
                            target_neighbor_node_ids@,
                        );
                    }
                    if complete {
                        lemma_reach_settle(
                            *self,
                            pre,
                            popped,
                            *context,
                            entry,
                            current,
                            closed,
                            seeds,
                            target_neighbor_node_ids@,
                            false,
                        );
                    }
                    closed = closed.insert(entry.node);
                }
            } else {
                proof {
                    if exact {
                        lemma_drop_stale(
                            *self,
                            pre,
                            popped,
                            entry,
                            closed,
                            seeds,
                            target_neighbor_node_ids@,
                        );
                    }
                    if complete {
                        lemma_reach_drop_stale(
                            *self,
                            pre,
                            popped,
                            entry,
                            closed,
                            seeds,
                            target_neighbor_node_ids@,
                        );
                    }
                }
            }
            done = done + 1;
        }
        proof {
            if limited {
                vstd::set_lib::lemma_len_subset(expanded, self.adjacency@.dom());
                assert(d * expanded.len() <= self.adjacency@.dom().len() * d) by (nonlinear_arith)
                    requires
                        expanded.len() <= self.adjacency@.dom().len(),
                ;
            }
        }
        Err(RoutingError::Cancelled)
    }

    /// Expands the search without a heuristic, first visit wins, until a
    /// popped segment lies `max_depth` hops from the start. Fails with
    /// `NoRouteFound` when the open set runs dry first, and with `Cancelled`
    /// after `budget` expansions.
    pub fn traverse_from(&self, context: &mut TraversalContext, max_depth: Depth, budget: u32) -> (r:
        Result<(), RoutingError>)
        requires
            self.wf(),
            old(context).inv(*self, 0),
            depths_within(old(context).came_from@, max_depth as nat),
        ensures
            exists|k: nat| final(context).inv(*self, k),
            depths_within(final(context).came_from@, max_depth as nat),
            final(context).cost_model == old(context).cost_model,
            final(context).heuristic_weight == old(context).heuristic_weight,
            forall|n: NodeId| #[trigger]
                old(context).came_from@.contains_key(n) ==> final(context).came_from@.contains_key(n)
                    && final(context).came_from@[n] == old(context).came_from@[n],
            first_visit_steps(old(context).came_from@, old(context).cost_model) ==> first_visit_steps(
                final(context).came_from@,
                old(context).cost_model,
            ),
            r is Ok ==> final(context).max_depth == max_depth && exists|n: NodeId|
                final(context).came_from@.contains_key(n) && final(context).came_from@[n].depth
                    == max_depth,
            r == Err::<(), RoutingError>(RoutingError::NoRouteFound)
                ==> final(context).queue@.len() == 0,
            r == Err::<(), RoutingError>(RoutingError::NoRouteFound) && open_complete(
                *old(context),
                Set::empty(),
            ) ==> forall|n: NodeId, k: int|
                final(context).came_from@.contains_key(n) && 0 <= k < out_edges(*self, n).len()
                    ==> final(context).came_from@.contains_key(
                    #[trigger] out_edges(*self, n)[k].0.node.id,
                ),
            open_complete(*old(context), Set::empty()) && (exists|d: nat|
                degree_at_most(*self, d) && budget >= search_bound(
                    *self,
                    old(context).queue@.len(),
                    d,
                )) ==> r != Err::<(), RoutingError>(RoutingError::Cancelled),
            r is Err ==> r == Err::<(), RoutingError>(RoutingError::NoRouteFound) || r == Err::<
                (),
                RoutingError,
            >(RoutingError::Cancelled),
    {
        let ghost seeds = context.came_from@.dom();
        let ghost no_targets = Seq::<NodeId>::empty();
        let ghost complete = open_complete(*context, Set::empty());
        let ghost stepped = first_visit_steps(context.came_from@, context.cost_model);
        let ghost mut closed: Set<NodeId> = Set::empty();
        let ghost q0 = context.queue@.len();
        let ghost d: nat = choose|d: nat|
            degree_at_most(*self, d) && budget >= search_bound(*self, q0, d);
        let ghost limited = complete && degree_at_most(*self, d) && budget >= search_bound(
            *self,
            q0,
            d,
        );
        let ghost mut pushed: nat = 0;
        let ghost mut expanded: Set<NodeId> = Set::empty();
        let mut done: u64 = 0;
        while done < budget as u64
            invariant
                self.wf(),
                context.inv(*self, done as nat),
                depths_within(context.came_from@, max_depth as nat),
                done <= budget,
                context.cost_model == old(context).cost_model,
                context.heuristic_weight == old(context).heuristic_weight,
                seeds == old(context).came_from@.dom(),
                forall|n: NodeId| #[trigger]
                    old(context).came_from@.contains_key(n) ==> context.came_from@.contains_key(n)
                        && context.came_from@[n] == old(context).came_from@[n],
                stepped == first_visit_steps(old(context).came_from@, old(context).cost_model),
                stepped ==> first_visit_steps(context.came_from@, context.cost_model),
                complete == open_complete(*old(context), Set::empty()),
                complete ==> reach_inv(*self, *context, closed, seeds, no_targets),
                no_targets == Seq::<NodeId>::empty(),
                q0 == old(context).queue@.len(),
                limited == (complete && degree_at_most(*self, d) && budget >= search_bound(
                    *self,
                    q0,
                    d,
                )),
                limited ==> done + context.queue@.len() == q0 + pushed,
                limited ==> pushed <= d * expanded.len(),
                limited ==> expanded.subset_of(closed) && expanded.subset_of(
                    self.adjacency@.dom(),
                ) && expanded.finite(),
            decreases budget as u64 - done,
        {
            let ghost pre = *context;
            let entry = match context.pop_entry(Ghost(*self), Ghost(done as nat)) {
                Some(e) => e,
                None => {
                    proof {
                        if complete {
                            assert forall|n: NodeId, k: int|
                                context.came_from@.contains_key(n) && 0 <= k < out_edges(
                                    *self,
                                    n,
                                ).len() implies context.came_from@.contains_key(
                                #[trigger] out_edges(*self, n)[k].0.node.id,
                            ) by {
                                assert(closed.contains(n));
                            }
                        }
                    }
                    return Err(RoutingError::NoRouteFound);
                },
            };
            let ghost popped = *context;
            let current = match context.came_from.get(&entry.node) {
                Some(s) => *s,
                None => {
                    proof {
                        assert(false);
                    }
                    return Err(RoutingError::NoRouteFound);
                },
            };
            proof {
                assert(linked(*self, context.came_from@, entry.node));
                assert(bounded(current, done as nat));
            }
            if current.depth >= max_depth {
                context.max_depth = max_depth;
                assert(context.inv(*self, done as nat + 1));
                assert(context.came_from@[entry.node].depth == max_depth);
                return Ok(());
            }
            let no_heuristic = |c: Coord| -> (d: Distance) { 0 };
            let ghost qb = context.queue@.len();
            context.expand(self, &current, &no_heuristic, true, Ghost(done as nat));
            proof {
                let c = entry.node;
                if stepped {
                    lemma_first_visit_steps_expand(*self, popped, *context, current);
                }
                if complete {
                    assert(pre.came_from@.contains_key(c));
                    lemma_reach_settle(
                        *self,
                        pre,
                        popped,
                        *context,
                        entry,
                        current,
                        closed,
                        seeds,
                        no_targets,
                        true,
                    );
                }
                if limited {
                    let grew = (context.queue@.len() - qb) as nat;
                    if closed.contains(c) {
                        assert forall|k: int|
                            0 <= k < out_edges(*self, current.to.id).len() implies popped.came_from@.contains_key(
                            #[trigger] out_edges(*self, current.to.id)[k].0.node.id,
                        ) && (true || popped.came_from@[out_edges(
                            *self,
                            current.to.id,
                        )[k].0.node.id].cost <= current.cost) by {
                            assert(out_edges(*self, c)[k] == out_edges(*self, current.to.id)[k]);
                        }
                        assert(already_relaxed(*self, popped, current, true));
                        assert(grew == 0);
                    } else if self.adjacency@.contains_key(c) {
                        assert(!expanded.contains(c));
                        assert(out_edges(*self, c).len() <= d);
                        assert(grew <= d);
                        assert(pushed + grew <= d * (expanded.len() + 1)) by (nonlinear_arith)
                            requires
                                pushed <= d * expanded.len(),
                                grew <= d,
                        ;
                        expanded = expanded.insert(c);
                    } else {
                        assert(out_edges(*self, c).len() == 0);
                        assert(grew == 0);
                    }
                    pushed = pushed + grew;
                }
                closed = closed.insert(c);
            }
            done = done + 1;
        }
        proof {
            if limited {
                vstd::set_lib::lemma_len_subset(expanded, self.adjacency@.dom());
                assert(d * expanded.len() <= self.adjacency@.dom().len() * d) by (nonlinear_arith)
                    requires
                        expanded.len() <= self.adjacency@.dom().len(),
                ;
            }
        }
        Err(RoutingError::Cancelled)
    }
}

/// The model a query runs with: the caller's, else the default.
pub open spec fn model_or_default(cost_model: Option<CostModel>) -> CostModel {
    match cost_model {
        Some(m) => m,
        None => crate::cost::default_model(),
    }
}

/// When no walk from a seeded node reaches a target id, no walk joins a start
/// neighbor to a target neighbor.
proof fn lemma_no_walk_between(
    g: Graph,
    m0: Map<NodeId, TraversalSegment>,
    starts: Seq<Neighbor>,
    targets: Seq<Neighbor>,
    target_ids: Seq<NodeId>,
)
    requires
        forall|i: int| 0 <= i < starts.len() ==> m0.contains_key(#[trigger] starts[i].node.id),
        target_ids.len() == targets.len(),
        forall|j: int| 0 <= j < targets.len() ==> target_ids[j] == (#[trigger] targets[j]).node.id,
        forall|s: NodeId, steps: Seq<int>|
            m0.contains_key(s) && #[trigger] is_walk(g, s, steps) ==> !target_ids.contains(
                walk_end(g, s, steps),
            ),
    ensures
        forall|i: int, steps: Seq<int>|
            0 <= i < starts.len() && #[trigger] is_walk(g, starts[i].node.id, steps) ==> forall|j: int|
                0 <= j < targets.len() ==> targets[j].node.id != walk_end(
                    g,
                    starts[i].node.id,
                    steps,
                ),
        !(exists|i: int, j: int, steps: Seq<int>|
            0 <= i < starts.len() && 0 <= j < targets.len() && is_walk(g, starts[i].node.id, steps)
                && #[trigger] walk_end(g, starts[i].node.id, steps) == #[trigger] targets[j].node.id),
{
    assert forall|i: int, steps: Seq<int>|
        0 <= i < starts.len() && #[trigger] is_walk(g, starts[i].node.id, steps) implies forall|j: int|
        0 <= j < targets.len() ==> targets[j].node.id != walk_end(g, starts[i].node.id, steps) by {
        let s = starts[i].node.id;
        assert(m0.contains_key(s));
        assert forall|j: int| 0 <= j < targets.len() implies targets[j].node.id != walk_end(
            g,
            s,
            steps,
        ) by {
            assert(target_ids[j] == targets[j].node.id);
        }
    }
    if exists|i: int, j: int, steps: Seq<int>|
        0 <= i < starts.len() && 0 <= j < targets.len() && is_walk(g, starts[i].node.id, steps)
            && #[trigger] walk_end(g, starts[i].node.id, steps) == #[trigger] targets[j].node.id {
        let (i, j, steps) = choose|i: int, j: int, steps: Seq<int>|
            0 <= i < starts.len() && 0 <= j < targets.len() && is_walk(g, starts[i].node.id, steps)
                && #[trigger] walk_end(g, starts[i].node.id, steps) == #[trigger] targets[j].node.id;
        assert(is_walk(g, starts[i].node.id, steps));
    }
}

/// When no walk from a seeded node to a target id costs less than `cost`, no
/// walk from a start neighbor to a target neighbor does.
proof fn lemma_no_cheaper_walk(
    g: Graph,
    m0: Map<NodeId, TraversalSegment>,
    model: CostModel,
    starts: Seq<Neighbor>,
    targets: Seq<Neighbor>,
    target_ids: Seq<NodeId>,
    cost: Cost,
)
    requires
        forall|i: int| 0 <= i < starts.len() ==> m0.contains_key(#[trigger] starts[i].node.id),
        target_ids.len() == targets.len(),
        forall|j: int| 0 <= j < targets.len() ==> target_ids[j] == (#[trigger] targets[j]).node.id,
        forall|s: NodeId, steps: Seq<int>|
            m0.contains_key(s) && is_walk(g, s, steps) && target_ids.contains(walk_end(g, s, steps))
                ==> cost <= #[trigger] walk_cost(g, model, s, steps),
    ensures
        forall|i: int, steps: Seq<int>|
            0 <= i < starts.len() && is_walk(g, starts[i].node.id, steps) && (exists|j: int|
                0 <= j < targets.len() && targets[j].node.id == walk_end(
                    g,
                    starts[i].node.id,
                    steps,
                )) ==> cost <= #[trigger] walk_cost(g, model, starts[i].node.id, steps),
{
    assert forall|i: int, steps: Seq<int>|
        0 <= i < starts.len() && is_walk(g, starts[i].node.id, steps) && (exists|j: int|
            0 <= j < targets.len() && targets[j].node.id == walk_end(g, starts[i].node.id, steps))
        implies cost <= #[trigger] walk_cost(g, model, starts[i].node.id, steps) by {
        let s = starts[i].node.id;
        assert(m0.contains_key(s));
        let j = choose|j: int| 0 <= j < targets.len() && targets[j].node.id == walk_end(g, s, steps);
        assert(target_ids[j] == walk_end(g, s, steps));
        assert(target_ids.contains(walk_end(g, s, steps)));
    }
}

/// A seeded context with no heuristic starts a search with nothing settled.
proof fn lemma_seeded_settled(g: Graph, ctx: TraversalContext, targets: Seq<NodeId>)
    requires
        seeded(ctx),
        ctx.inv(g, 0),
        ctx.heuristic_weight == 0,
    ensures
        settled_inv(g, ctx, Set::empty(), ctx.came_from@.dom(), targets),
{
    let m = ctx.came_from@;
    let q = ctx.queue@;
    assert forall|n: NodeId| #[trigger] m.contains_key(n) implies m[n].cost == 0 by {
        assert(linked(g, m, n));
    }
    assert forall|j: int| 0 <= j < q.len() implies m.contains_key(#[trigger] q[j].node)
        && q[j].cost >= m[q[j].node].cost by {
        assert(m.contains_key(q[j].node));
        assert(m[q[j].node].cost == 0);
    }
    assert forall|n: NodeId| #[trigger] m.contains_key(n) && !Set::<NodeId>::empty().contains(n)
        implies exists|j: int| 0 <= j < q.len() && q[j].node == n && q[j].cost == m[n].cost by {
        let j = choose|j: int| 0 <= j < q.len() && q[j].node == n && q[j].cost == 0;
        assert(m[n].cost == 0);
    }
    assert forall|n: NodeId| #[trigger] m.contains_key(n) && m[n].from.id != START_NODE_ID implies false by {
        assert(linked(g, m, n));
    }
}

/// A budget that covers a bound for `open` entries covers it for an equal count.
proof fn lemma_bound_for_queue(g: Graph, budget: nat, open: nat, queue_len: nat)
    requires
        open == queue_len,
    ensures
        (exists|d: nat| degree_at_most(g, d) && budget >= search_bound(g, open, d)) ==> (exists|
            d: nat,
        | degree_at_most(g, d) && budget >= search_bound(g, queue_len, d)),
{
}

/// The stored segments of a finished route search hold one segment per node,
/// and hold every segment of the route (up to its recounted distance).
proof fn lemma_traversal_holds_route(
    g: Graph,
    ctx: TraversalContext,
    t: Seq<TraversalSegment>,
    route: Seq<TraversalSegment>,
)
    requires
        reached_end(g, ctx.came_from@),
        ctx.visit_order@.no_duplicates(),
        forall|n: NodeId| #[trigger] ctx.came_from@.contains_key(n) <==> ctx.visit_order@.contains(n),
        t.len() == ctx.visit_order@.len(),
        forall|i: int| 0 <= i < t.len() ==> #[trigger] t[i] == ctx.came_from@[ctx.visit_order@[i]],
        route.len() >= 1,
        same_but_distance(route[route.len() - 1], ctx.came_from@[END_NODE_ID]),
        forall|i: int|
            0 <= i < route.len() - 1 ==> ctx.came_from@.contains_key(#[trigger] route[i].to.id)
                && same_but_distance(route[i], ctx.came_from@[route[i].to.id]),
    ensures
        forall|a: int, b: int| 0 <= a < b < t.len() ==> #[trigger] t[a].to.id != #[trigger] t[b].to.id,
        forall|k: int|
            0 <= k < route.len() ==> exists|j: int|
                0 <= j < t.len() && same_but_distance(#[trigger] route[k], t[j]),
{
    let m = ctx.came_from@;
    let order = ctx.visit_order@;
    assert forall|i: int| 0 <= i < t.len() implies #[trigger] t[i].to.id == order[i] by {
        assert(order.contains(order[i]));
        assert(m.contains_key(order[i]));
        if order[i] != END_NODE_ID {
            assert(linked(g, m, order[i]));
        }
    }
    assert forall|a: int, b: int| 0 <= a < b < t.len() implies #[trigger] t[a].to.id
        != #[trigger] t[b].to.id by {
        assert(t[a].to.id == order[a]);
        assert(t[b].to.id == order[b]);
    }
    assert forall|k: int| 0 <= k < route.len() implies exists|j: int|
        0 <= j < t.len() && same_but_distance(#[trigger] route[k], t[j]) by {
        let id = if k == route.len() - 1 {
            END_NODE_ID
        } else {
            route[k].to.id
        };
        assert(m.contains_key(id));
        assert(order.contains(id));
        let j = choose|j: int| 0 <= j < order.len() && order[j] == id;
        assert(t[j] == m[id]);
    }
}

/// The node ids of a list of neighbors.
fn neighbor_ids(neighbors: &Vec<Neighbor>) -> (r: Vec<NodeId>)
    ensures
        r@.len() == neighbors@.len(),
        forall|i: int| 0 <= i < r@.len() ==> r@[i] == (#[trigger] neighbors@[i]).node.id,
{
    let mut out: Vec<NodeId> = Vec::new();
    let mut i: usize = 0;
    while i < neighbors.len()
        invariant
            i <= neighbors@.len(),
            out@.len() == i,
            forall|j: int| 0 <= j < i ==> out@[j] == (#[trigger] neighbors@[j]).node.id,
        decreases neighbors@.len() - i,
    {
        out.push(neighbors[i].node.id);
        i = i + 1;
    }
    out
}

impl Graph {
    /// A least-cost route from `start` to `end`, entering the graph at
    /// `start_neighbors` and leaving it at `target_neighbors` (both as snapping
    /// returned them). `dist_to_end` gives a point's distance to `end` in
    /// meters; the search expands at most `budget` nodes.
    ///
    /// A route leaves the synthetic start, reaches the synthetic end through a
    /// target neighbor, follows stored edges, and never lowers its accumulated
    /// cost, visiting each node once; its `distance_so_far` is counted along
    /// the route itself. `NoRouteFound` means no walk joins a start neighbor
    /// to a target neighbor. With heuristic weight 0 the route is optimal (its
    /// cost is the sum of its edges' costs and no such walk costs less), and a
    /// budget of at least `search_bound` never runs out, so the call succeeds
    /// whenever such a walk exists.
    #[verifier::rlimit(60)]
    pub fn calculate_route<H: Fn(Coord) -> Distance>(
        &self,
        start: &Coord,
        end: &Coord,
        start_neighbors: &Vec<Neighbor>,
        target_neighbors: &Vec<Neighbor>,
        with_traversal: bool,
        cost_model: Option<CostModel>,
        heuristic_weight: Option<Weight>,
        dist_to_end: &H,
        budget: u32,
    ) -> (r: Result<(Route, Option<Traversal>, RouteMetadata), RoutingError>)
        requires
            self.wf(),
            cost_model matches Some(m) ==> m.wf(),
            forall|i: int|
                0 <= i < start_neighbors@.len() ==> #[trigger] start_neighbors@[i].node.id > 0,
            forall|c: Coord| dist_to_end.requires((c,)),
        ensures
            r matches Ok((route, traversal, meta)) ==> {
                &&& is_route(*self, route@)
                &&& distances_accumulate(route@)
                &&& exists|i: int|
                    0 <= i < start_neighbors@.len() && route@[0].to == start_neighbors@[i].node
                        && route@[0].way == start_neighbors@[i].way && route@[0].length
                        == start_neighbors@[i].distance
                &&& route@[route@.len() - 1].to.geometry == *end
                &&& forall|i: int|
                    0 < i < route@.len() - 1 ==> meta.cost_range.0 <= #[trigger] route@[i].cost_factor
                        <= meta.cost_range.1 && route@[i].depth <= meta.max_depth
                &&& traversal matches Some(t) ==> {
                    &&& forall|a: int, b: int|
                        0 <= a < b < t@.len() ==> #[trigger] t@[a].to.id != #[trigger] t@[b].to.id
                    &&& forall|k: int|
                        0 <= k < route@.len() ==> exists|j: int|
                            0 <= j < t@.len() && same_but_distance(#[trigger] route@[k], t@[j])
                }
                &&& exists|j: int|
                    0 <= j < target_neighbors@.len() && target_neighbors@[j].node.id
                        == route@[route@.len() - 1].from.id
                &&& traversal is Some <==> with_traversal
            },
            r == Err::<(Route, Option<Traversal>, RouteMetadata), RoutingError>(
                RoutingError::NoRouteFound,
            ) ==> forall|i: int, steps: Seq<int>|
                0 <= i < start_neighbors@.len() && #[trigger] is_walk(
                    *self,
                    start_neighbors@[i].node.id,
                    steps,
                ) ==> forall|j: int|
                    0 <= j < target_neighbors@.len() ==> target_neighbors@[j].node.id != walk_end(
                        *self,
                        start_neighbors@[i].node.id,
                        steps,
                    ),
            heuristic_weight == Some(0u32) && (exists|d: nat|
                degree_at_most(*self, d) && budget >= search_bound(
                    *self,
                    start_neighbors@.len(),
                    d,
                )) ==> r != Err::<(Route, Option<Traversal>, RouteMetadata), RoutingError>(
                RoutingError::Cancelled,
            ),
            heuristic_weight == Some(0u32) && (exists|d: nat|
                degree_at_most(*self, d) && budget >= search_bound(
                    *self,
                    start_neighbors@.len(),
                    d,
                )) && (exists|i: int, j: int, steps: Seq<int>|
                0 <= i < start_neighbors@.len() && 0 <= j < target_neighbors@.len() && is_walk(
                    *self,
                    start_neighbors@[i].node.id,
                    steps,
                ) && #[trigger] walk_end(*self, start_neighbors@[i].node.id, steps)
                    == #[trigger] target_neighbors@[j].node.id) ==> r is Ok,
            heuristic_weight == Some(0u32) ==> (r matches Ok((route, _, _)) ==> costs_add_up(
                route@,
                model_or_default(cost_model),
            )),
            heuristic_weight == Some(0u32) ==> (r matches Ok((route, _, _)) ==> forall|
                i: int,
                steps: Seq<int>,
            |
                0 <= i < start_neighbors@.len() && is_walk(
                    *self,
                    start_neighbors@[i].node.id,
                    steps,
                ) && (exists|j: int|
                    0 <= j < target_neighbors@.len() && target_neighbors@[j].node.id == walk_end(
                        *self,
                        start_neighbors@[i].node.id,
                        steps,
                    )) ==> route@[route@.len() - 1].cost <= #[trigger] walk_cost(
                    *self,
                    model_or_default(cost_model),
                    start_neighbors@[i].node.id,
                    steps,
                )),
            r is Err ==> r == Err::<(Route, Option<Traversal>, RouteMetadata), RoutingError>(
                RoutingError::NoRouteFound,
            ) || r == Err::<(Route, Option<Traversal>, RouteMetadata), RoutingError>(
                RoutingError::Cancelled,
            ),
    {
        let context = match self.search_route(
            start,
            end,
            start_neighbors,
            target_neighbors,
            cost_model,
            heuristic_weight,
            dist_to_end,
            budget,
        ) {
            Ok(c) => c,
            Err(e) => {
                return Err(e);
            },
        };
        let route = context.reconstruct_route(self);
        proof {
            let m = context.came_from@;
            assert(same_but_distance(route@[route@.len() - 1], m[END_NODE_ID]));
            let first = route@[0];
            assert(m.contains_key(first.to.id));
            assert(same_but_distance(first, m[first.to.id]));
            assert(m[first.to.id].from.id == START_NODE_ID);
            let i = choose|i: int|
                0 <= i < start_neighbors@.len() && seed_of(m[first.to.id], start_neighbors@[i]);
            assert(first.to == start_neighbors@[i].node);
            assert forall|k: int| 0 < k < route@.len() - 1 implies context.cost_range.0
                <= #[trigger] route@[k].cost_factor <= context.cost_range.1 && route@[k].depth
                <= context.max_depth by {
                assert(m.contains_key(route@[k].to.id));
                assert(same_but_distance(route@[k], m[route@[k].to.id]));
                assert(route@[k].from.id != START_NODE_ID);
                assert(route@[k].to.id != END_NODE_ID);
            }
        }
        let ghost mut tv: Seq<TraversalSegment> = Seq::empty();
        let traversal = if with_traversal {
            let t = context.collect_traversal();
            proof {
                lemma_traversal_holds_route(*self, context, t@, route@);
                tv = t@;
            }
            Some(t)
        } else {
            None
        };
        proof {
            if with_traversal {
                assert(traversal->Some_0@ == tv);
            }
        }
        let meta = RouteMetadata { max_depth: context.max_depth, cost_range: context.cost_range };
        Ok((route, traversal, meta))
    }

    /// Seeds a context and searches it until the synthetic end is linked.
    fn search_route<H: Fn(Coord) -> Distance>(
        &self,
        start: &Coord,
        end: &Coord,
        start_neighbors: &Vec<Neighbor>,
        target_neighbors: &Vec<Neighbor>,
        cost_model: Option<CostModel>,
        heuristic_weight: Option<Weight>,
        dist_to_end: &H,
        budget: u32,
    ) -> (r: Result<TraversalContext, RoutingError>)
        requires
            self.wf(),
            cost_model matches Some(m) ==> m.wf(),
            forall|i: int|
                0 <= i < start_neighbors@.len() ==> #[trigger] start_neighbors@[i].node.id > 0,
            forall|c: Coord| dist_to_end.requires((c,)),
        ensures
            r matches Ok(ctx) ==> {
                &&& reached_end(*self, ctx.came_from@)
                &&& ctx.came_from@[END_NODE_ID].to.geometry == *end
                &&& exists|j: int|
                    0 <= j < target_neighbors@.len() && target_neighbors@[j].node.id
                        == ctx.came_from@[END_NODE_ID].from.id
                &&& ctx.cost_model == model_or_default(cost_model)
                &&& forall|n: NodeId| #[trigger]
                    ctx.came_from@.contains_key(n) && ctx.came_from@[n].from.id == START_NODE_ID
                        ==> exists|i: int|
                        0 <= i < start_neighbors@.len() && seed_of(
                            ctx.came_from@[n],
                            start_neighbors@[i],
                        )
                &&& forall|n: NodeId| #[trigger]
                    ctx.came_from@.contains_key(n) <==> ctx.visit_order@.contains(n)
                &&& ctx.visit_order@.no_duplicates()
                &&& metered(ctx)
            },
            heuristic_weight == Some(0u32) ==> (r matches Ok(ctx) ==> chain_consistent(
                ctx.came_from@,
                ctx.cost_model,
            )),
            heuristic_weight == Some(0u32) ==> (r matches Ok(ctx) ==> forall|
                i: int,
                steps: Seq<int>,
            |
                0 <= i < start_neighbors@.len() && is_walk(
                    *self,
                    start_neighbors@[i].node.id,
                    steps,
                ) && (exists|j: int|
                    0 <= j < target_neighbors@.len() && target_neighbors@[j].node.id == walk_end(
                        *self,
                        start_neighbors@[i].node.id,
                        steps,
                    )) ==> ctx.came_from@[END_NODE_ID].cost <= #[trigger] walk_cost(
                    *self,
                    model_or_default(cost_model),
                    start_neighbors@[i].node.id,
                    steps,
                )),
            r == Err::<TraversalContext, RoutingError>(RoutingError::NoRouteFound) ==> forall|
                i: int,
                steps: Seq<int>,
            |
                0 <= i < start_neighbors@.len() && #[trigger] is_walk(
                    *self,
                    start_neighbors@[i].node.id,
                    steps,
                ) ==> forall|j: int|
                    0 <= j < target_neighbors@.len() ==> target_neighbors@[j].node.id != walk_end(
                        *self,
                        start_neighbors@[i].node.id,
                        steps,
                    ),
            r == Err::<TraversalContext, RoutingError>(RoutingError::NoRouteFound) ==> !(exists|
                i: int,
                j: int,
                steps: Seq<int>,
            |
                0 <= i < start_neighbors@.len() && 0 <= j < target_neighbors@.len() && is_walk(
                    *self,
                    start_neighbors@[i].node.id,
                    steps,
                ) && #[trigger] walk_end(*self, start_neighbors@[i].node.id, steps)
                    == #[trigger] target_neighbors@[j].node.id),
            heuristic_weight == Some(0u32) && (exists|d: nat|
                degree_at_most(*self, d) && budget >= search_bound(
                    *self,
                    start_neighbors@.len(),
                    d,
                )) ==> r != Err::<TraversalContext, RoutingError>(RoutingError::Cancelled),
            r is Err ==> r == Err::<TraversalContext, RoutingError>(RoutingError::NoRouteFound)
                || r == Err::<TraversalContext, RoutingError>(RoutingError::Cancelled),
    {
        let end_node = Node::new(END_NODE_ID, end);
        let target_ids = neighbor_ids(target_neighbors);
        let mut context = self.initialize_traversal(
            start,
            start_neighbors,
            cost_model,
            heuristic_weight,
            dist_to_end,
        );
        let ghost ctx0 = context;
        proof {
            lemma_seeded_open_complete(*self, context);
            if heuristic_weight == Some(0u32) {
                lemma_seeded_settled(*self, context, target_ids@);
            }
            lemma_bound_for_queue(*self, budget as nat, start_neighbors@.len(), ctx0.queue@.len());
            assert forall|n: NodeId|
                #[trigger] ctx0.came_from@.contains_key(n) && n != END_NODE_ID
                    && ctx0.came_from@[n].from.id != START_NODE_ID implies covers(
                ctx0,
                ctx0.came_from@[n],
            ) by {
            }
        }
        match self.traverse_between(&mut context, &target_ids, &end_node, dist_to_end, budget) {
            Ok(()) => {},
            Err(e) => {
                proof {
                    if e == RoutingError::NoRouteFound {
                        lemma_no_walk_between(
                            *self,
                            ctx0.came_from@,
                            start_neighbors@,
                            target_neighbors@,
                            target_ids@,
                        );
                    }
                }
                return Err(e);
            },
        }
        proof {
            if heuristic_weight == Some(0u32) {
                lemma_no_cheaper_walk(
                    *self,
                    ctx0.came_from@,
                    ctx0.cost_model,
                    start_neighbors@,
                    target_neighbors@,
                    target_ids@,
                    context.came_from@[END_NODE_ID].cost,
                );
            }
            let m = context.came_from@;
            let last = m[END_NODE_ID].from.id;
            assert(target_ids@.contains(last));
            let j = choose|j: int| 0 <= j < target_ids@.len() && target_ids@[j] == last;
            assert(target_neighbors@[j].node.id == last);
        }
        Ok(context)
    }

    /// The segments reached by expanding from `start` (entering the graph at
    /// `start_neighbors`) until a segment `max_depth` hops out is popped, at
    /// most `budget` expansions.
    #[verifier::rlimit(50)]
    pub fn calculate_traversal(
        &self,
        start: &Coord,
        start_neighbors: &Vec<Neighbor>,
        max_depth: Depth,
        cost_model: Option<CostModel>,
        heuristic_weight: Option<Weight>,
        budget: u32,
    ) -> (r: Result<Traversal, RoutingError>)
        requires
            self.wf(),
            cost_model matches Some(m) ==> m.wf(),
            forall|i: int|
                0 <= i < start_neighbors@.len() ==> #[trigger] start_neighbors@[i].node.id > 0,
        ensures
            r matches Ok(t) ==> forall|i: int| 0 <= i < t@.len() ==> #[trigger] t@[i].depth <= max_depth,
            r matches Ok(t) ==> forall|i: int, j: int|
                0 <= i < j < t@.len() ==> #[trigger] t@[i].to.id != #[trigger] t@[j].to.id,
            r matches Ok(t) ==> forall|i: int|
                0 <= i < t@.len() && #[trigger] t@[i].from.id != START_NODE_ID ==> has_edge(
                    *self,
                    t@[i].from.id,
                    t@[i].to.id,
                    t@[i].way,
                    t@[i].length,
                    t@[i].labels,
                ),
            r matches Ok(t) ==> forall|i: int|
                0 <= i < start_neighbors@.len() ==> exists|j: int|
                    0 <= j < t@.len() && t@[j].to.id == (#[trigger] start_neighbors@[i]).node.id,
            r matches Ok(t) ==> exists|j: int| 0 <= j < t@.len() && t@[j].depth == max_depth,
            (exists|d: nat|
                degree_at_most(*self, d) && budget >= search_bound(
                    *self,
                    start_neighbors@.len(),
                    d,
                )) ==> r != Err::<Traversal, RoutingError>(RoutingError::Cancelled),
            r is Err ==> r == Err::<Traversal, RoutingError>(RoutingError::NoRouteFound) || r == Err::<
                Traversal,
                RoutingError,
            >(RoutingError::Cancelled),
    {
        let no_heuristic = |c: Coord| -> (d: Distance) { 0 };
        let mut context = self.initialize_traversal(
            start,
            start_neighbors,
            cost_model,
            heuristic_weight,
            &no_heuristic,
        );
        let ghost ctx0 = context;
        proof {
            lemma_seeded_open_complete(*self, context);
        }
        match self.traverse_from(&mut context, max_depth, budget) {
            Ok(()) => {},
            Err(e) => {
                return Err(e);
            },
        }
        let t = context.collect_traversal();
        proof {
            let k = choose|k: nat| context.inv(*self, k);
            let m = context.came_from@;
            let order = context.visit_order@;
            assert forall|i: int| 0 <= i < start_neighbors@.len() implies exists|j: int|
                0 <= j < t@.len() && t@[j].to.id == (#[trigger] start_neighbors@[i]).node.id by {
                let id = start_neighbors@[i].node.id;
                assert(ctx0.came_from@.contains_key(id));
                assert(m.contains_key(id));
                assert(order.contains(id));
                let j = choose|j: int| 0 <= j < order.len() && order[j] == id;
                assert(linked(*self, m, id));
                assert(t@[j] == m[order[j]]);
                assert(t@[j].to.id == id);
            }
            let n = choose|n: NodeId| m.contains_key(n) && m[n].depth == max_depth;
            assert(order.contains(n));
            let j = choose|j: int| 0 <= j < order.len() && order[j] == n;
            assert(t@[j] == m[order[j]]);
            assert(t@[j].depth == max_depth);
            assert(0 <= j < t@.len());
            assert(exists|j: int| 0 <= j < t@.len() && t@[j].depth == max_depth);
        }
        proof {
            let k = choose|k: nat| context.inv(*self, k);
            let m = context.came_from@;
            let order = context.visit_order@;
            assert forall|i: int| 0 <= i < t@.len() implies #[trigger] t@[i].to.id == order[i]
                && m.contains_key(order[i]) && order[i] != END_NODE_ID by {
                assert(order.contains(order[i]));
                assert(m.contains_key(order[i]));
                assert(linked(*self, m, order[i]));
            }
            assert forall|i: int, j: int| 0 <= i < j < t@.len() implies #[trigger] t@[i].to.id
                != #[trigger] t@[j].to.id by {
                assert(t@[i].to.id == order[i]);
                assert(t@[j].to.id == order[j]);
            }
            assert forall|i: int|
                0 <= i < t@.len() && #[trigger] t@[i].from.id != START_NODE_ID implies has_edge(
                *self,
                t@[i].from.id,
                t@[i].to.id,
                t@[i].way,
                t@[i].length,
                t@[i].labels,
            ) by {
                assert(t@[i].to.id == order[i]);
                assert(linked(*self, m, order[i]));
            }
        }
        proof {
            assert forall|i: int| 0 <= i < t@.len() implies #[trigger] t@[i].depth <= max_depth by {
                let n = context.visit_order@[i];
                assert(context.visit_order@.contains(n));
                let k = choose|k: nat| context.inv(*self, k);
                assert(context.came_from@.contains_key(n));
            }
        }
        let ghost tv = t@;
        proof {
            let j = choose|j: int| 0 <= j < tv.len() && tv[j].depth == max_depth;
            assert(tv[j].depth == max_depth);
        }
        let r: Result<Traversal, RoutingError> = Ok(t);
        assert(r->Ok_0@ == tv);
        r
    }
}

/// Assembles a `TraversalSegment` step by step; unset parts stay zero.
#[derive(Debug, Clone, Copy)]
pub struct TraversalSegmentBuilder {
    pub from: Node,
    pub to: Node,
    pub way: WayId,
    pub depth: Depth,
    pub length: Distance,
    pub distance_so_far: u64,
    pub labels: WayLabels,
    pub cost_factor: u64,
    pub cost_so_far: Cost,
    pub heuristic: Cost,
}

impl TraversalSegmentBuilder {
    /// A builder for the edge from `from` to a neighbor.
    pub fn new_from_neighbor(from: &Node, to: &Neighbor) -> (r: TraversalSegmentBuilder)
        ensures
            r == (TraversalSegmentBuilder {
                from: *from,
                to: to.node,
                way: to.way,
                depth: 0,
                length: to.distance,
                distance_so_far: to.distance as u64,
                labels: fallback_labels(),
                cost_factor: 0,
                cost_so_far: 0,
                heuristic: 0,
            }),
    {
        TraversalSegmentBuilder {
            from: *from,
            to: to.node,
            way: to.way,
            depth: 0,
            length: to.distance,
            distance_so_far: to.distance as u64,
            labels: (Cycleway::Shared, Road::Collector, false),
            cost_factor: 0,
            cost_so_far: 0,
            heuristic: 0,
        }
    }

    /// A builder for a link of `length` meters from `from` to `to` along `way`.
    pub fn new_from_node(from: &Node, to: &Node, way: WayId, length: Distance) -> (r:
        TraversalSegmentBuilder)
        ensures
            r == (TraversalSegmentBuilder {
                from: *from,
                to: *to,
                way,
                depth: 0,
                length,
                distance_so_far: length as u64,
                labels: fallback_labels(),
                cost_factor: 0,
                cost_so_far: 0,
                heuristic: 0,
            }),
    {
        TraversalSegmentBuilder {
            from: *from,
            to: *to,
            way,
            depth: 0,
            length,
            distance_so_far: length as u64,
            labels: (Cycleway::Shared, Road::Collector, false),
            cost_factor: 0,
            cost_so_far: 0,
            heuristic: 0,
        }
    }

    /// Sets the depth.
    pub fn with_depth(self, depth: Depth) -> (r: TraversalSegmentBuilder)
        ensures
            r == (TraversalSegmentBuilder { depth, ..self }),
    {
        TraversalSegmentBuilder { depth, ..self }
    }

    /// Adds the distance travelled before this edge.
    pub fn with_prev_distance(self, distance: u64) -> (r: TraversalSegmentBuilder)
        requires
            self.distance_so_far + distance <= u64::MAX,
        ensures
            r == (TraversalSegmentBuilder {
                distance_so_far: (self.distance_so_far + distance) as u64,
                ..self
            }),
    {
        TraversalSegmentBuilder { distance_so_far: self.distance_so_far + distance, ..self }
    }

    /// Sets the labels, their cost factor under `cost_model`, and the cost
    /// accumulated before this edge.
    pub fn with_cost(self, cost_model: &CostModel, way_labels: &WayLabels, cost_so_far: Cost) -> (r:
        TraversalSegmentBuilder)
        requires
            cost_model.wf(),
        ensures
            r == (TraversalSegmentBuilder {
                labels: *way_labels,
                cost_factor: crate::cost::cost_factor(*cost_model, *way_labels) as u64,
                cost_so_far,
                ..self
            }),
    {
        let cost_factor = cost_model.calculate_cost(way_labels);
        TraversalSegmentBuilder { labels: *way_labels, cost_factor, cost_so_far, ..self }
    }

    /// Sets the weighted heuristic for a `to` node `distance` meters from the end.
    pub fn with_heuristic(self, heuristic_weight: Weight, distance: Distance) -> (r:
        TraversalSegmentBuilder)
        ensures
            r == (TraversalSegmentBuilder {
                heuristic: heuristic_of(heuristic_weight, distance) as Cost,
                ..self
            }),
    {
        let heuristic = weighted_heuristic(heuristic_weight, distance);
        TraversalSegmentBuilder { heuristic, ..self }
    }

    /// The segment, whose cost is its cost factor times its length plus the
    /// cost accumulated before it.
    pub fn build(self) -> (r: TraversalSegment)
        requires
            self.cost_factor <= MAX_FACTOR,
            self.cost_so_far + MAX_EDGE_COST <= u128::MAX,
        ensures
            r == (TraversalSegment {
                from: self.from,
                to: self.to,
                way: self.way,
                depth: self.depth,
                length: self.length,
                distance_so_far: self.distance_so_far,
                labels: self.labels,
                cost_factor: self.cost_factor,
                cost: (self.cost_factor * self.length + self.cost_so_far) as Cost,
                heuristic: self.heuristic,
            }),
    {
        proof {
            assert(self.cost_factor * self.length <= MAX_EDGE_COST) by (nonlinear_arith)
                requires
                    self.cost_factor <= MAX_FACTOR,
                    self.length <= u32::MAX,
            ;
        }
        let cost = (self.cost_factor as u128) * (self.length as u128) + self.cost_so_far;
        TraversalSegment {
            from: self.from,
            to: self.to,
            way: self.way,
            depth: self.depth,
            length: self.length,
            distance_so_far: self.distance_so_far,
            labels: self.labels,
            cost_factor: self.cost_factor,
            cost,
            heuristic: self.heuristic,
        }
    }
}

impl TraversalSegment {
    /// A builder for the edge from `from` to a neighbor.
    pub fn build_to_neighbor(from: &Node, to: &Neighbor) -> (r: TraversalSegmentBuilder)
        ensures
            r == TraversalSegmentBuilder::spec_new_from_neighbor(*from, *to),
    {
        TraversalSegmentBuilder::new_from_neighbor(from, to)
    }

    /// A builder for a link of `length` meters from `from` to `to` along `way`.
    pub fn build_to_node(from: &Node, to: &Node, way: WayId, length: Distance) -> (r:
        TraversalSegmentBuilder)
        ensures
            r == TraversalSegmentBuilder::spec_new_from_node(*from, *to, way, length),
    {
        TraversalSegmentBuilder::new_from_node(from, to, way, length)
    }
}

impl TraversalSegmentBuilder {
    /// What `new_from_neighbor` returns.
    pub open spec fn spec_new_from_neighbor(from: Node, to: Neighbor) -> TraversalSegmentBuilder {
        TraversalSegmentBuilder {
            from,
            to: to.node,
            way: to.way,
            depth: 0,
            length: to.distance,
            distance_so_far: to.distance as u64,
            labels: fallback_labels(),
            cost_factor: 0,
            cost_so_far: 0,
            heuristic: 0,
        }
    }

    /// What `new_from_node` returns.
    pub open spec fn spec_new_from_node(
        from: Node,
        to: Node,
        way: WayId,
        length: Distance,
    ) -> TraversalSegmentBuilder {
        TraversalSegmentBuilder {
            from,
            to,
            way,
            depth: 0,
            length,
            distance_so_far: length as u64,
            labels: fallback_labels(),
            cost_factor: 0,
            cost_so_far: 0,
            heuristic: 0,
        }
    }
}

} // verus!
