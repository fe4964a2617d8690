//! What the search maintains, stated over walks in the edge store: the
//! bookkeeping of one expansion, the invariants of a search (reachability for
//! any heuristic; settled costs when there is none), and the lemmas that carry
//! them from one expansion to the next.
use vstd::prelude::*;
use crate::cost::{cost_factor, edge_cost, CostModel};
use crate::graph::{out_edges, Graph, Neighbor, NodeId, END_NODE_ID, START_NODE_ID};
use crate::labels::WayLabels;
use crate::traversal::{
    covers, metadata_widened, extend_segment, Cost, QueueEntry, TraversalContext, TraversalSegment, MAX_HEURISTIC,
};

verus! {

/// What relaxing the first `i` edges out of `current` did to the search state:
/// the open set only grew, costs only fell (and not below `current`'s for
/// nodes that already cost no more), every node that changed got an open
/// entry at its new cost, and each relaxed edge's end costs at most
/// `current`'s cost plus the edge's.
pub open spec fn expand_partial(
    g: Graph,
    pre: TraversalContext,
    post: TraversalContext,
    current: TraversalSegment,
    first_visit_only: bool,
    i: int,
) -> bool {
    let m0 = pre.came_from@;
    let m = post.came_from@;
    let q0 = pre.queue@;
    let q = post.queue@;
    &&& q0.len() <= q.len()
    &&& forall|j: int| 0 <= j < q0.len() ==> #[trigger] q[j] == q0[j]
    &&& forall|j: int|
        q0.len() <= j < q.len() ==> m.contains_key(#[trigger] q[j].node) && q[j].cost
            >= m[q[j].node].cost && q[j].cost >= current.cost && q[j].priority >= q[j].cost && (
        post.heuristic_weight == 0 ==> q[j].priority == q[j].cost)
    &&& forall|n: NodeId| #[trigger]
        m.contains_key(n) ==> (m0.contains_key(n) && m[n] == m0[n]) || exists|j: int|
            q0.len() <= j < q.len() && q[j].node == n && q[j].cost == m[n].cost
    &&& forall|n: NodeId| #[trigger]
        m0.contains_key(n) ==> m.contains_key(n) && m[n].cost <= m0[n].cost && (m0[n].cost
            <= current.cost ==> m[n] == m0[n])
    &&& forall|n: NodeId| #[trigger]
        m.contains_key(n) ==> (m0.contains_key(n) && m[n] == m0[n]) || (m[n].from == current.to
            && m[n].distance_so_far == current.distance_so_far + m[n].length && m[n].cost
            == current.cost + edge_cost(pre.cost_model, m[n].labels, m[n].length as nat))
    &&& !first_visit_only ==> forall|k: int|
        0 <= k < i ==> m.contains_key(#[trigger] out_edges(g, current.to.id)[k].0.node.id)
            && m[out_edges(g, current.to.id)[k].0.node.id].cost <= current.cost + edge_cost(
            pre.cost_model,
            out_edges(g, current.to.id)[k].1,
            out_edges(g, current.to.id)[k].0.distance as nat,
        )
    &&& forall|k: int|
        0 <= k < i ==> m.contains_key(#[trigger] out_edges(g, current.to.id)[k].0.node.id)
    &&& q.len() <= q0.len() + i
    &&& already_relaxed(g, pre, current, first_visit_only) ==> q.len() == q0.len()
    &&& first_visit_only ==> forall|n: NodeId| #[trigger] m0.contains_key(n) ==> m[n] == m0[n]
    &&& metadata_widened(pre, post)
    &&& forall|n: NodeId| #[trigger]
        m.contains_key(n) ==> (m0.contains_key(n) && m[n] == m0[n]) || covers(post, m[n])
    &&& forall|n: NodeId| #[trigger]
        m.contains_key(n) ==> (m0.contains_key(n) && m[n] == m0[n]) || (m[n].cost_factor
            == cost_factor(pre.cost_model, m[n].labels) && m[n].depth == current.depth + 1
            && m[n].way == m[n].way)
}

/// Every edge out of `current` already ends at a reached node, at no more
/// than `current`'s cost plus the edge's unless only first visits count: an
/// expansion then opens nothing.
pub open spec fn already_relaxed(
    g: Graph,
    pre: TraversalContext,
    current: TraversalSegment,
    first_visit_only: bool,
) -> bool {
    let m0 = pre.came_from@;
    forall|k: int|
        0 <= k < out_edges(g, current.to.id).len() ==> m0.contains_key(
            #[trigger] out_edges(g, current.to.id)[k].0.node.id,
        ) && (first_visit_only || m0[out_edges(g, current.to.id)[k].0.node.id].cost
            <= current.cost + edge_cost(
            pre.cost_model,
            out_edges(g, current.to.id)[k].1,
            out_edges(g, current.to.id)[k].0.distance as nat,
        ))
}

/// What relaxing every edge out of `current` did to the search state.
pub open spec fn expand_post(
    g: Graph,
    pre: TraversalContext,
    post: TraversalContext,
    current: TraversalSegment,
    first_visit_only: bool,
) -> bool {
    expand_partial(g, pre, post, current, first_visit_only, out_edges(g, current.to.id).len() as int)
}

pub(crate) proof fn lemma_expand_step(
    g: Graph,
    pre: TraversalContext,
    before: TraversalContext,
    after: TraversalContext,
    current: TraversalSegment,
    first_visit_only: bool,
    i: int,
    e: (Neighbor, WayLabels),
    h: Cost,
)
    requires
        expand_partial(g, pre, before, current, first_visit_only, i),
        0 <= i < out_edges(g, current.to.id).len(),
        e == out_edges(g, current.to.id)[i],
        before.cost_model == pre.cost_model,
        after.cost_model == pre.cost_model,
        after.heuristic_weight == before.heuristic_weight,
        before.came_from@.contains_key(current.to.id),
        before.came_from@[current.to.id] == current,
        h <= MAX_HEURISTIC,
        before.heuristic_weight == 0 ==> h == 0,
        current.cost + edge_cost(pre.cost_model, e.1, e.0.distance as nat) + h <= u128::MAX,
        current.distance_so_far + e.0.distance <= u64::MAX,
        pre.cost_model.wf(),
        current.depth < u64::MAX,
        metadata_widened(before, after),
        covers(
            after,
            extend_segment(
                current,
                e,
                crate::cost::cost_factor(pre.cost_model, e.1) as u64,
                edge_cost(pre.cost_model, e.1, e.0.distance as nat),
                h,
            ),
        ),
        ({
            let x = extend_segment(
                current,
                e,
                crate::cost::cost_factor(pre.cost_model, e.1) as u64,
                edge_cost(pre.cost_model, e.1, e.0.distance as nat),
                h,
            );
            let n = e.0.node.id;
            let m = before.came_from@;
            if !m.contains_key(n) || (!first_visit_only && x.cost < m[n].cost) {
                &&& after.came_from@ == m.insert(n, x)
                &&& after.queue@ == before.queue@.push(
                    QueueEntry { priority: (x.cost + h) as Cost, node: n, cost: x.cost },
                )
            } else {
                &&& after.came_from@ == m
                &&& after.queue@ == before.queue@
            }
        }),
    ensures
        expand_partial(g, pre, after, current, first_visit_only, i + 1),
{
    let m0 = pre.came_from@;
    let mb = before.came_from@;
    let ma = after.came_from@;
    let q0 = pre.queue@;
    let qb = before.queue@;
    let qa = after.queue@;
    let n = e.0.node.id;
    let ec = edge_cost(pre.cost_model, e.1, e.0.distance as nat);
    let xc = (current.cost + ec) as Cost;
    let updated = !mb.contains_key(n) || (!first_visit_only && xc < mb[n].cost);
    crate::cost::lemma_cost_bounds(pre.cost_model, e.1, e.0.distance as nat);
    assert forall|x: NodeId| #[trigger] mb.contains_key(x) implies ma.contains_key(x) && ma[x].cost
        <= mb[x].cost by {
    }
    assert forall|j: int| 0 <= j < q0.len() implies #[trigger] qa[j] == q0[j] by {
        assert(qb[j] == q0[j]);
        if updated {
            assert(qa[j] == qb[j]);
        }
    }
    assert forall|j: int| q0.len() <= j < qa.len() implies ma.contains_key(#[trigger] qa[j].node)
        && qa[j].cost >= ma[qa[j].node].cost && qa[j].cost >= current.cost && qa[j].priority
        >= qa[j].cost && (after.heuristic_weight == 0 ==> qa[j].priority == qa[j].cost) by {
        if j < qb.len() {
            assert(qa[j] == qb[j]);
            assert(mb.contains_key(qb[j].node));
        } else {
            assert(updated);
            assert(qa[j].node == n);
            assert(ma[n].cost == xc);
        }
    }
    assert forall|x: NodeId| #[trigger] ma.contains_key(x) implies (m0.contains_key(x) && ma[x]
        == m0[x]) || exists|j: int| q0.len() <= j < qa.len() && qa[j].node == x && qa[j].cost
        == ma[x].cost by {
        if updated && x == n {
            assert(qa[qb.len() as int].node == x);
        } else {
            assert(mb.contains_key(x));
            if !(m0.contains_key(x) && mb[x] == m0[x]) {
                let j = choose|j: int|
                    q0.len() <= j < qb.len() && qb[j].node == x && qb[j].cost == mb[x].cost;
                assert(qa[j] == qb[j]);
            }
        }
    }
    assert forall|x: NodeId| #[trigger] m0.contains_key(x) implies ma.contains_key(x) && ma[x].cost
        <= m0[x].cost && (m0[x].cost <= current.cost ==> ma[x] == m0[x]) by {
        assert(mb.contains_key(x));
    }
    assert forall|x: NodeId| #[trigger] ma.contains_key(x) implies (m0.contains_key(x) && ma[x]
        == m0[x]) || (ma[x].from == current.to && ma[x].distance_so_far == current.distance_so_far
        + ma[x].length && ma[x].cost == current.cost + edge_cost(
        pre.cost_model,
        ma[x].labels,
        ma[x].length as nat,
    )) by {
        if !(updated && x == n) {
            assert(mb.contains_key(x));
        }
    }
    assert forall|k: int| 0 <= k < i + 1 implies ma.contains_key(
        #[trigger] out_edges(g, current.to.id)[k].0.node.id,
    ) by {
        let v = out_edges(g, current.to.id)[k].0.node.id;
        if k < i {
            assert(mb.contains_key(v));
        }
    }
    if already_relaxed(g, pre, current, first_visit_only) {
        assert(m0.contains_key(n));
        assert(mb.contains_key(n));
        assert(!updated);
    }
    assert forall|x: NodeId| #[trigger] ma.contains_key(x) implies (m0.contains_key(x) && ma[x]
        == m0[x]) || covers(after, ma[x]) by {
        if !(updated && x == n) {
            assert(mb.contains_key(x));
        }
    }
    if first_visit_only {
        assert forall|x: NodeId| #[trigger] m0.contains_key(x) implies ma[x] == m0[x] by {
            assert(mb.contains_key(x));
        }
    }
    assert forall|x: NodeId| #[trigger] ma.contains_key(x) implies (m0.contains_key(x) && ma[x]
        == m0[x]) || (ma[x].cost_factor == cost_factor(pre.cost_model, ma[x].labels)
        && ma[x].depth == current.depth + 1 && ma[x].way == ma[x].way) by {
        if !(updated && x == n) {
            assert(mb.contains_key(x));
        }
    }
    if !first_visit_only {
        assert forall|k: int| 0 <= k < i + 1 implies ma.contains_key(
            #[trigger] out_edges(g, current.to.id)[k].0.node.id,
        ) && ma[out_edges(g, current.to.id)[k].0.node.id].cost <= current.cost + edge_cost(
            pre.cost_model,
            out_edges(g, current.to.id)[k].1,
            out_edges(g, current.to.id)[k].0.distance as nat,
        ) by {
            let v = out_edges(g, current.to.id)[k].0.node.id;
            if k < i {
                assert(mb.contains_key(v));
            }
        }
    }
}

/// `post` is `pre` with `e`, an entry of least priority, taken out of the open set.
pub open spec fn popped_from(pre: TraversalContext, post: TraversalContext, e: QueueEntry) -> bool {
    &&& post.came_from == pre.came_from
    &&& post.cost_model == pre.cost_model
    &&& post.heuristic_weight == pre.heuristic_weight
    &&& pre.queue@.contains(e)
    &&& forall|i: int| 0 <= i < pre.queue@.len() ==> e.priority <= #[trigger] pre.queue@[i].priority
    &&& forall|i: int|
        0 <= i < post.queue@.len() ==> pre.queue@.contains(#[trigger] post.queue@[i])
    &&& forall|i: int|
        0 <= i < pre.queue@.len() && #[trigger] pre.queue@[i] != e ==> post.queue@.contains(
            pre.queue@[i],
        )
}

/// The node a walk from `s` reaches, where each step names an outgoing edge
/// (by its position among the edges out of the node reached so far).
pub open spec fn walk_end(g: Graph, s: NodeId, steps: Seq<int>) -> NodeId
    decreases steps.len(),
{
    if steps.len() == 0 {
        s
    } else {
        out_edges(g, walk_end(g, s, steps.drop_last()))[steps.last()].0.node.id
    }
}

/// Every step of the walk names an existing outgoing edge.
pub open spec fn is_walk(g: Graph, s: NodeId, steps: Seq<int>) -> bool
    decreases steps.len(),
{
    if steps.len() == 0 {
        true
    } else {
        is_walk(g, s, steps.drop_last()) && 0 <= steps.last() < out_edges(
            g,
            walk_end(g, s, steps.drop_last()),
        ).len()
    }
}

/// The summed edge costs of a walk under a model.
pub open spec fn walk_cost(g: Graph, m: CostModel, s: NodeId, steps: Seq<int>) -> nat
    decreases steps.len(),
{
    if steps.len() == 0 {
        0
    } else {
        let e = out_edges(g, walk_end(g, s, steps.drop_last()))[steps.last()];
        walk_cost(g, m, s, steps.drop_last()) + edge_cost(m, e.1, e.0.distance as nat)
    }
}

/// The edges out of `u` are relaxed: each end is reached at no more than
/// `u`'s cost plus the edge's.
pub open spec fn relaxed_out(g: Graph, ctx: TraversalContext, u: NodeId) -> bool {
    let m = ctx.came_from@;
    forall|i: int|
        0 <= i < out_edges(g, u).len() ==> m.contains_key(#[trigger] out_edges(g, u)[i].0.node.id)
            && m[out_edges(g, u)[i].0.node.id].cost <= m[u].cost + edge_cost(
            ctx.cost_model,
            out_edges(g, u)[i].1,
            out_edges(g, u)[i].0.distance as nat,
        )
}

/// The search state of a search without heuristic, with `closed` the nodes
/// already expanded: every open entry's priority is its cost, which is no
/// less than its node's; every reached node that is not closed has an open
/// entry at its cost; closed nodes are no targets, have relaxed edges, and
/// cost no more than any open entry; the seeds cost nothing.
pub open spec fn settled_inv(
    g: Graph,
    ctx: TraversalContext,
    closed: Set<NodeId>,
    seeds: Set<NodeId>,
    targets: Seq<NodeId>,
) -> bool {
    let m = ctx.came_from@;
    let q = ctx.queue@;
    &&& ctx.heuristic_weight == 0
    &&& forall|j: int| 0 <= j < q.len() ==> #[trigger] q[j].priority == q[j].cost
    &&& forall|j: int|
        0 <= j < q.len() ==> m.contains_key(#[trigger] q[j].node) && q[j].cost >= m[q[j].node].cost
    &&& forall|n: NodeId|
        #[trigger] m.contains_key(n) && !closed.contains(n) ==> exists|j: int|
            0 <= j < q.len() && q[j].node == n && q[j].cost == m[n].cost
    &&& forall|u: NodeId|
        #[trigger] closed.contains(u) ==> m.contains_key(u) && !targets.contains(u) && relaxed_out(
            g,
            ctx,
            u,
        )
    &&& forall|u: NodeId, j: int|
        #![trigger closed.contains(u), q[j]]
        closed.contains(u) && 0 <= j < q.len() ==> m[u].cost <= q[j].priority
    &&& forall|s: NodeId| #[trigger] seeds.contains(s) ==> m.contains_key(s) && m[s].cost == 0
    &&& forall|n: NodeId| #[trigger]
        m.contains_key(n) && m[n].from.id != START_NODE_ID ==> closed.contains(m[n].from.id)
            && settled_step(m, ctx.cost_model, n)
}

/// The segment at `n` extends its predecessor's segment by exactly its own
/// edge, in distance and in cost.
pub open spec fn settled_step(m: Map<NodeId, TraversalSegment>, model: CostModel, n: NodeId) -> bool {
    let p = m[n].from.id;
    &&& m.contains_key(p)
    &&& m[n].distance_so_far == m[p].distance_so_far + m[n].length
    &&& m[n].cost == m[p].cost + edge_cost(model, m[n].labels, m[n].length as nat)
}

/// Along predecessor links, distance never falls, and each segment's cost
/// is its predecessor's plus its own edge's (the link to the synthetic end
/// adds nothing).
pub open spec fn chain_consistent(m: Map<NodeId, TraversalSegment>, model: CostModel) -> bool {
    forall|n: NodeId| #[trigger]
        m.contains_key(n) && m[n].from.id != START_NODE_ID ==> {
            let p = m[n].from.id;
            &&& m.contains_key(p)
            &&& m[p].distance_so_far <= m[n].distance_so_far
            &&& n != END_NODE_ID ==> m[n].cost == m[p].cost + edge_cost(
                model,
                m[n].labels,
                m[n].length as nat,
            )
            &&& n == END_NODE_ID ==> m[n].cost == m[p].cost
        }
}

/// Every reached node that is not in `closed` has an open entry at its cost.
pub open spec fn open_complete(ctx: TraversalContext, closed: Set<NodeId>) -> bool {
    let m = ctx.came_from@;
    let q = ctx.queue@;
    forall|n: NodeId|
        #[trigger] m.contains_key(n) && !closed.contains(n) ==> exists|j: int|
            0 <= j < q.len() && q[j].node == n && q[j].cost == m[n].cost
}

/// The search state as far as reachability goes: unexpanded reached nodes
/// are open, expanded nodes are no targets and every edge out of them ends
/// at a reached node, and the seeds are reached.
pub open spec fn reach_inv(
    g: Graph,
    ctx: TraversalContext,
    closed: Set<NodeId>,
    seeds: Set<NodeId>,
    targets: Seq<NodeId>,
) -> bool {
    let m = ctx.came_from@;
    &&& open_complete(ctx, closed)
    &&& forall|u: NodeId|
        #[trigger] closed.contains(u) ==> m.contains_key(u) && !targets.contains(u) && forall|i: int|
            0 <= i < out_edges(g, u).len() ==> m.contains_key(
                #[trigger] out_edges(g, u)[i].0.node.id,
            )
    &&& forall|s: NodeId| #[trigger] seeds.contains(s) ==> m.contains_key(s)
}

/// With the open set empty, every walk from a seed ends at an expanded node.
pub(crate) proof fn lemma_walk_stays_closed(
    g: Graph,
    ctx: TraversalContext,
    closed: Set<NodeId>,
    seeds: Set<NodeId>,
    targets: Seq<NodeId>,
    s: NodeId,
    steps: Seq<int>,
)
    requires
        reach_inv(g, ctx, closed, seeds, targets),
        ctx.queue@.len() == 0,
        seeds.contains(s),
        is_walk(g, s, steps),
    ensures
        closed.contains(walk_end(g, s, steps)),
    decreases steps.len(),
{
    let m = ctx.came_from@;
    if steps.len() == 0 {
        assert(m.contains_key(s));
    } else {
        let pre = steps.drop_last();
        lemma_walk_stays_closed(g, ctx, closed, seeds, targets, s, pre);
        let u = walk_end(g, s, pre);
        let v = out_edges(g, u)[steps.last()].0.node.id;
        assert(m.contains_key(v));
    }
}

/// Dropping a stale entry keeps the reachability invariant.
pub(crate) proof fn lemma_reach_drop_stale(
    g: Graph,
    pre: TraversalContext,
    post: TraversalContext,
    e: QueueEntry,
    closed: Set<NodeId>,
    seeds: Set<NodeId>,
    targets: Seq<NodeId>,
)
    requires
        reach_inv(g, pre, closed, seeds, targets),
        popped_from(pre, post, e),
        pre.came_from@.contains_key(e.node),
        e.cost > pre.came_from@[e.node].cost,
    ensures
        reach_inv(g, post, closed, seeds, targets),
{
    let m = pre.came_from@;
    let q0 = pre.queue@;
    let q = post.queue@;
    assert forall|n: NodeId| #[trigger] m.contains_key(n) && !closed.contains(n) implies exists|j: int|
        0 <= j < q.len() && q[j].node == n && q[j].cost == m[n].cost by {
        let k = choose|k: int| 0 <= k < q0.len() && q0[k].node == n && q0[k].cost == m[n].cost;
        assert(q0[k] != e);
        assert(q.contains(q0[k]));
    }
}

/// Expanding a popped node that is no target keeps the reachability
/// invariant, with that node expanded.
pub(crate) proof fn lemma_reach_settle(
    g: Graph,
    pre: TraversalContext,
    popped: TraversalContext,
    post: TraversalContext,
    e: QueueEntry,
    current: TraversalSegment,
    closed: Set<NodeId>,
    seeds: Set<NodeId>,
    targets: Seq<NodeId>,
    first_visit_only: bool,
)
    requires
        reach_inv(g, pre, closed, seeds, targets),
        popped_from(pre, popped, e),
        pre.came_from@.contains_key(e.node),
        current.to.id == e.node,
        !targets.contains(e.node),
        expand_post(g, popped, post, current, first_visit_only),
    ensures
        reach_inv(g, post, closed.insert(e.node), seeds, targets),
{
    let c = e.node;
    let m0 = pre.came_from@;
    let m = post.came_from@;
    let q0 = pre.queue@;
    let q1 = popped.queue@;
    let q = post.queue@;
    let closed2 = closed.insert(c);
    assert forall|n: NodeId| #[trigger] m.contains_key(n) && !closed2.contains(n) implies exists|j: int|
        0 <= j < q.len() && q[j].node == n && q[j].cost == m[n].cost by {
        if m0.contains_key(n) && m[n] == m0[n] {
            let k = choose|k: int| 0 <= k < q0.len() && q0[k].node == n && q0[k].cost == m0[n].cost;
            assert(q0[k] != e);
            assert(q1.contains(q0[k]));
            let j = choose|j: int| 0 <= j < q1.len() && q1[j] == q0[k];
            assert(q[j] == q1[j]);
        }
    }
    assert forall|u: NodeId| #[trigger] closed2.contains(u) implies m.contains_key(u)
        && !targets.contains(u) && forall|i: int|
        0 <= i < out_edges(g, u).len() ==> m.contains_key(#[trigger] out_edges(g, u)[i].0.node.id) by {
        if u == c {
            assert forall|i: int| 0 <= i < out_edges(g, u).len() implies m.contains_key(
                #[trigger] out_edges(g, u)[i].0.node.id,
            ) by {
                assert(out_edges(g, current.to.id)[i] == out_edges(g, u)[i]);
            }
            assert(popped.came_from@.contains_key(c));
        } else {
            assert(m0.contains_key(u));
            assert forall|i: int| 0 <= i < out_edges(g, u).len() implies m.contains_key(
                #[trigger] out_edges(g, u)[i].0.node.id,
            ) by {
                assert(m0.contains_key(out_edges(g, u)[i].0.node.id));
            }
        }
    }
    assert forall|s: NodeId| #[trigger] seeds.contains(s) implies m.contains_key(s) by {
        assert(m0.contains_key(s));
    }
}

/// Along any walk from a seed, either some reached, unexpanded node costs no
/// more than the walk, or the walk ends at a closed node that costs no more.
pub(crate) proof fn lemma_frontier(
    g: Graph,
    ctx: TraversalContext,
    closed: Set<NodeId>,
    seeds: Set<NodeId>,
    targets: Seq<NodeId>,
    s: NodeId,
    steps: Seq<int>,
)
    requires
        settled_inv(g, ctx, closed, seeds, targets),
        seeds.contains(s),
        is_walk(g, s, steps),
    ensures
        (exists|v: NodeId|
            ctx.came_from@.contains_key(v) && !closed.contains(v) && ctx.came_from@[v].cost
                <= walk_cost(g, ctx.cost_model, s, steps)) || (closed.contains(walk_end(g, s, steps))
            && ctx.came_from@[walk_end(g, s, steps)].cost <= walk_cost(
            g,
            ctx.cost_model,
            s,
            steps,
        )),
    decreases steps.len(),
{
    let m = ctx.came_from@;
    if steps.len() == 0 {
        if !closed.contains(s) {
            assert(m.contains_key(s) && !closed.contains(s) && m[s].cost <= walk_cost(
                g,
                ctx.cost_model,
                s,
                steps,
            ));
        }
    } else {
        let pre = steps.drop_last();
        lemma_frontier(g, ctx, closed, seeds, targets, s, pre);
        let u = walk_end(g, s, pre);
        let e = out_edges(g, u)[steps.last()];
        let v = e.0.node.id;
        assert(walk_cost(g, ctx.cost_model, s, steps) == walk_cost(g, ctx.cost_model, s, pre)
            + edge_cost(ctx.cost_model, e.1, e.0.distance as nat));
        if closed.contains(u) && m[u].cost <= walk_cost(g, ctx.cost_model, s, pre) {
            assert(relaxed_out(g, ctx, u));
            assert(m.contains_key(out_edges(g, u)[steps.last()].0.node.id));
            if !closed.contains(v) {
                assert(m.contains_key(v) && !closed.contains(v) && m[v].cost <= walk_cost(
                    g,
                    ctx.cost_model,
                    s,
                    steps,
                ));
            }
        } else {
            let w = choose|w: NodeId|
                m.contains_key(w) && !closed.contains(w) && m[w].cost <= walk_cost(
                    g,
                    ctx.cost_model,
                    s,
                    pre,
                );
            assert(m.contains_key(w) && !closed.contains(w) && m[w].cost <= walk_cost(
                g,
                ctx.cost_model,
                s,
                steps,
            ));
        }
    }
}

/// A stale entry leaves the invariant intact when dropped.
pub(crate) proof fn lemma_drop_stale(
    g: Graph,
    pre: TraversalContext,
    post: TraversalContext,
    e: QueueEntry,
    closed: Set<NodeId>,
    seeds: Set<NodeId>,
    targets: Seq<NodeId>,
)
    requires
        settled_inv(g, pre, closed, seeds, targets),
        popped_from(pre, post, e),
        pre.came_from@.contains_key(e.node),
        e.cost > pre.came_from@[e.node].cost,
    ensures
        settled_inv(g, post, closed, seeds, targets),
{
    let m = pre.came_from@;
    let q0 = pre.queue@;
    let q = post.queue@;
    assert forall|j: int| 0 <= j < q.len() implies #[trigger] q[j].priority == q[j].cost
        && m.contains_key(q[j].node) && q[j].cost >= m[q[j].node].cost by {
        let k = choose|k: int| 0 <= k < q0.len() && q0[k] == q[j];
    }
    assert forall|n: NodeId| #[trigger] m.contains_key(n) && !closed.contains(n) implies exists|j: int|
        0 <= j < q.len() && q[j].node == n && q[j].cost == m[n].cost by {
        let k = choose|k: int| 0 <= k < q0.len() && q0[k].node == n && q0[k].cost == m[n].cost;
        assert(q0[k] != e);
        assert(q.contains(q0[k]));
    }
    assert forall|u: NodeId, j: int|
        #![trigger closed.contains(u), q[j]]
        closed.contains(u) && 0 <= j < q.len() implies m[u].cost <= q[j].priority by {
        let k = choose|k: int| 0 <= k < q0.len() && q0[k] == q[j];
        assert(m[u].cost <= q0[k].priority);
    }
    assert forall|u: NodeId| #[trigger] closed.contains(u) implies m.contains_key(u)
        && !targets.contains(u) && relaxed_out(g, post, u) by {
        assert(relaxed_out(g, pre, u));
    }
}

/// Expanding a popped, current node keeps the invariant, with that node closed.
pub(crate) proof fn lemma_settle(
    g: Graph,
    pre: TraversalContext,
    popped: TraversalContext,
    post: TraversalContext,
    e: QueueEntry,
    current: TraversalSegment,
    closed: Set<NodeId>,
    seeds: Set<NodeId>,
    targets: Seq<NodeId>,
)
    requires
        settled_inv(g, pre, closed, seeds, targets),
        popped_from(pre, popped, e),
        pre.came_from@.contains_key(e.node),
        pre.came_from@[e.node] == current,
        current.to.id == e.node,
        e.cost <= current.cost,
        !targets.contains(e.node),
        expand_post(g, popped, post, current, false),
        post.came_from@.contains_key(current.to.id),
        post.came_from@[current.to.id] == current,
        post.cost_model == popped.cost_model,
        post.heuristic_weight == popped.heuristic_weight,
    ensures
        settled_inv(g, post, closed.insert(e.node), seeds, targets),
{
    let c = e.node;
    let m0 = pre.came_from@;
    let m = post.came_from@;
    let q0 = pre.queue@;
    let q1 = popped.queue@;
    let q = post.queue@;
    let closed2 = closed.insert(c);
    let ke = choose|k: int| 0 <= k < q0.len() && q0[k] == e;
    assert(e.priority == e.cost);
    assert(e.cost == current.cost);
    // Closed nodes cost no more than the popped entry, so expansion left them alone.
    assert forall|u: NodeId| closed.contains(u) implies m0[u].cost <= current.cost by {
        assert(m0[u].cost <= q0[ke].priority);
    }
    assert forall|j: int| 0 <= j < q.len() implies #[trigger] q[j].priority == q[j].cost
        && m.contains_key(q[j].node) && q[j].cost >= m[q[j].node].cost by {
        if j < q1.len() {
            assert(q[j] == q1[j]);
            let k = choose|k: int| 0 <= k < q0.len() && q0[k] == q1[j];
            let nd = q0[k].node;
            assert(m0.contains_key(nd));
            assert(popped.came_from@.contains_key(nd));
            assert(m.contains_key(nd) && m[nd].cost <= m0[nd].cost);
        } else {
            assert(post.heuristic_weight == 0);
            assert(expand_partial(g, popped, post, current, false, out_edges(g, current.to.id).len() as int));
            assert(q1.len() <= j < q.len());
            assert(m.contains_key(q[j].node));
            assert(q[j].cost >= m[q[j].node].cost);
            assert(q[j].priority == q[j].cost);
        }
    }
    assert forall|n: NodeId| #[trigger] m.contains_key(n) && !closed2.contains(n) implies exists|j: int|
        0 <= j < q.len() && q[j].node == n && q[j].cost == m[n].cost by {
        if !(m0.contains_key(n) && m[n] == m0[n]) {
        } else {
            let k = choose|k: int| 0 <= k < q0.len() && q0[k].node == n && q0[k].cost == m0[n].cost;
            assert(q0[k] != e);
            assert(q1.contains(q0[k]));
            let j = choose|j: int| 0 <= j < q1.len() && q1[j] == q0[k];
            assert(q[j] == q1[j]);
        }
    }
    assert forall|u: NodeId| #[trigger] closed2.contains(u) implies m.contains_key(u)
        && !targets.contains(u) && relaxed_out(g, post, u) by {
        if u == c {
            assert forall|i: int| 0 <= i < out_edges(g, u).len() implies m.contains_key(
                #[trigger] out_edges(g, u)[i].0.node.id,
            ) && m[out_edges(g, u)[i].0.node.id].cost <= m[u].cost + edge_cost(
                post.cost_model,
                out_edges(g, u)[i].1,
                out_edges(g, u)[i].0.distance as nat,
            ) by {
                assert(out_edges(g, current.to.id)[i] == out_edges(g, u)[i]);
            }
        } else {
            assert(relaxed_out(g, pre, u));
            assert(m0[u].cost <= current.cost);
            assert(m[u] == m0[u]);
            assert forall|i: int| 0 <= i < out_edges(g, u).len() implies m.contains_key(
                #[trigger] out_edges(g, u)[i].0.node.id,
            ) && m[out_edges(g, u)[i].0.node.id].cost <= m[u].cost + edge_cost(
                post.cost_model,
                out_edges(g, u)[i].1,
                out_edges(g, u)[i].0.distance as nat,
            ) by {
                let v = out_edges(g, u)[i].0.node.id;
                assert(m0.contains_key(v));
            }
        }
    }
    assert forall|u: NodeId, j: int|
        #![trigger closed2.contains(u), q[j]]
        closed2.contains(u) && 0 <= j < q.len() implies m[u].cost <= q[j].priority by {
        let mu = if u == c {
            current.cost
        } else {
            m0[u].cost
        };
        if u != c {
            assert(m0[u].cost <= current.cost);
            assert(m[u] == m0[u]);
        }
        if j < q1.len() {
            assert(q[j] == q1[j]);
            let k = choose|k: int| 0 <= k < q0.len() && q0[k] == q1[j];
            assert(e.priority <= q0[k].priority);
        }
    }
    assert forall|s: NodeId| #[trigger] seeds.contains(s) implies m.contains_key(s) && m[s].cost
        == 0 by {
        assert(m0.contains_key(s));
    }
}

/// At the pop of a current entry for a target, no walk from a seed to a
/// target costs less than that entry.
pub(crate) proof fn lemma_optimal_at_target(
    g: Graph,
    pre: TraversalContext,
    popped: TraversalContext,
    e: QueueEntry,
    current: TraversalSegment,
    closed: Set<NodeId>,
    seeds: Set<NodeId>,
    targets: Seq<NodeId>,
    s: NodeId,
    steps: Seq<int>,
)
    requires
        settled_inv(g, pre, closed, seeds, targets),
        popped_from(pre, popped, e),
        pre.came_from@.contains_key(e.node),
        pre.came_from@[e.node] == current,
        e.cost <= current.cost,
        seeds.contains(s),
        is_walk(g, s, steps),
        targets.contains(walk_end(g, s, steps)),
    ensures
        current.cost <= walk_cost(g, pre.cost_model, s, steps),
{
    let m = pre.came_from@;
    let q0 = pre.queue@;
    lemma_frontier(g, pre, closed, seeds, targets, s, steps);
    let ke = choose|k: int| 0 <= k < q0.len() && q0[k] == e;
    assert(e.cost >= m[e.node].cost);
    let v = choose|v: NodeId|
        m.contains_key(v) && !closed.contains(v) && m[v].cost <= walk_cost(
            g,
            pre.cost_model,
            s,
            steps,
        );
    let j = choose|j: int| 0 <= j < q0.len() && q0[j].node == v && q0[j].cost == m[v].cost;
    assert(e.priority <= q0[j].priority);
}

/// Every node of `g` has at most `d` outgoing edges.
pub open spec fn degree_at_most(g: Graph, d: nat) -> bool {
    forall|n: NodeId| #[trigger] g.adjacency@.contains_key(n) ==> g.adjacency@[n]@.len() <= d
}

/// Expansions enough to finish a search that starts with `open` entries over a
/// graph whose nodes have at most `d` edges each, when no expanded node is
/// expanded to new effect twice.
pub open spec fn search_bound(g: Graph, open: nat, d: nat) -> nat {
    open + g.adjacency@.dom().len() * d + 1
}

/// Every stored segment past the synthetic start has the model's cost factor
/// for its labels, and costs at least its predecessor's current cost plus its
/// own edge's.
pub open spec fn stored_costs(m: Map<NodeId, TraversalSegment>, model: CostModel) -> bool {
    forall|n: NodeId|
        #[trigger] m.contains_key(n) && n != END_NODE_ID && m[n].from.id != START_NODE_ID ==> {
            let p = m[n].from.id;
            &&& m.contains_key(p)
            &&& m[n].cost_factor == cost_factor(model, m[n].labels)
            &&& m[n].cost >= m[p].cost + edge_cost(model, m[n].labels, m[n].length as nat)
        }
}

/// Expanding `current` keeps stored costs consistent.
pub(crate) proof fn lemma_stored_costs_expand(
    g: Graph,
    pre: TraversalContext,
    post: TraversalContext,
    current: TraversalSegment,
    first_visit_only: bool,
)
    requires
        stored_costs(pre.came_from@, pre.cost_model),
        expand_post(g, pre, post, current, first_visit_only),
        pre.came_from@.contains_key(current.to.id),
        pre.came_from@[current.to.id] == current,
        current.to.id != END_NODE_ID,
    ensures
        stored_costs(post.came_from@, pre.cost_model),
{
    let m0 = pre.came_from@;
    let m = post.came_from@;
    assert(m[current.to.id] == current);
    assert forall|n: NodeId|
        #[trigger] m.contains_key(n) && n != END_NODE_ID && m[n].from.id != START_NODE_ID implies {
        let p = m[n].from.id;
        &&& m.contains_key(p)
        &&& m[n].cost_factor == cost_factor(pre.cost_model, m[n].labels)
        &&& m[n].cost >= m[p].cost + edge_cost(pre.cost_model, m[n].labels, m[n].length as nat)
    } by {
        if m0.contains_key(n) && m[n] == m0[n] {
            let p = m[n].from.id;
            assert(m0.contains_key(p));
        }
    }
}

/// Each stored segment past the synthetic start extends its predecessor's
/// segment by exactly its own edge: one more hop, its length added to the
/// distance, its edge's cost added to the cost, at the model's cost factor.
pub open spec fn first_visit_steps(m: Map<NodeId, TraversalSegment>, model: CostModel) -> bool {
    forall|n: NodeId|
        #[trigger] m.contains_key(n) && m[n].from.id != START_NODE_ID ==> {
            let p = m[n].from.id;
            &&& m.contains_key(p)
            &&& m[n].depth == m[p].depth + 1
            &&& m[n].distance_so_far == m[p].distance_so_far + m[n].length
            &&& m[n].cost == m[p].cost + edge_cost(model, m[n].labels, m[n].length as nat)
            &&& m[n].cost_factor == cost_factor(model, m[n].labels)
        }
}

/// A first-visit expansion keeps every segment an exact extension of its predecessor's.
pub(crate) proof fn lemma_first_visit_steps_expand(
    g: Graph,
    pre: TraversalContext,
    post: TraversalContext,
    current: TraversalSegment,
)
    requires
        first_visit_steps(pre.came_from@, pre.cost_model),
        expand_post(g, pre, post, current, true),
        pre.came_from@.contains_key(current.to.id),
        pre.came_from@[current.to.id] == current,
    ensures
        first_visit_steps(post.came_from@, pre.cost_model),
{
    let m0 = pre.came_from@;
    let m = post.came_from@;
    assert(m[current.to.id] == current);
    assert forall|n: NodeId| #[trigger] m.contains_key(n) && m[n].from.id != START_NODE_ID implies {
        let p = m[n].from.id;
        &&& m.contains_key(p)
        &&& m[n].depth == m[p].depth + 1
        &&& m[n].distance_so_far == m[p].distance_so_far + m[n].length
        &&& m[n].cost == m[p].cost + edge_cost(pre.cost_model, m[n].labels, m[n].length as nat)
        &&& m[n].cost_factor == cost_factor(pre.cost_model, m[n].labels)
    } by {
        if m0.contains_key(n) && m[n] == m0[n] {
            let p = m[n].from.id;
            assert(m0.contains_key(p));
            assert(m[p] == m0[p]);
        }
    }
}

} // verus!
