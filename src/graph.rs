//! The edge store: a read-only directed multigraph with per-way labels.
//!
//! Coordinates are fixed-point degrees in units of 1e-7 (the precision of
//! OpenStreetMap), lengths are whole meters.
use vstd::prelude::*;
use std::collections::HashMap;
use crate::error::RoutingError;
use crate::labels::WayLabels;

verus! {

broadcast use vstd::std_specs::hash::group_hash_axioms;

/// A node identifier. Stored nodes are strictly positive.
pub type NodeId = i64;

/// A signed way identifier: a negative id is the reverse twin of its positive way.
pub type WayId = i64;

/// A length in whole meters.
pub type Distance = u32;

/// The synthetic node that stands for a query's start point.
pub const START_NODE_ID: NodeId = -1;

/// The synthetic node that stands for a query's end point.
pub const END_NODE_ID: NodeId = -2;

/// A geographic point in units of 1e-7 degrees.
#[derive(Debug, Clone, Copy, PartialEq, Eq, Structural)]
pub struct Coord {
    pub lon: i64,
    pub lat: i64,
}

/// A node of the graph and its location.
#[derive(Debug, Clone, Copy, PartialEq, Eq, Structural)]
pub struct Node {
    pub id: NodeId,
    pub geometry: Coord,
}

/// The far end of a directed edge: the way it follows, the node it reaches,
/// and its length.
#[derive(Debug, Clone, Copy, PartialEq, Eq, Structural)]
pub struct Neighbor {
    pub way: WayId,
    pub node: Node,
    pub distance: Distance,
}

impl Node {
    /// A node at a point.
    pub fn new(id: NodeId, point: &Coord) -> (r: Node)
        ensures
            r.id == id,
            r.geometry == *point,
    {
        Node { id, geometry: *point }
    }
}

/// The in-memory edge store: outgoing edges by node, labels by signed way.
pub struct Graph {
    pub adjacency: HashMap<NodeId, Vec<(Neighbor, WayLabels)>>,
    pub labels: HashMap<WayId, WayLabels>,
}

/// Whether `g` holds an edge from `from` along `way` to `to`, of `length`
/// meters, carrying `labels`.
pub open spec fn has_edge(
    g: Graph,
    from: NodeId,
    to: NodeId,
    way: WayId,
    length: Distance,
    labels: WayLabels,
) -> bool {
    &&& g.adjacency@.contains_key(from)
    &&& exists|i: int|
        0 <= i < g.adjacency@[from]@.len() && {
            let (nb, lb) = #[trigger] g.adjacency@[from]@[i];
            nb.node.id == to && nb.way == way && nb.distance == length && lb == labels
        }
}

/// The outgoing edges of a node: empty for a node the store does not hold.
pub open spec fn out_edges(g: Graph, id: NodeId) -> Seq<(Neighbor, WayLabels)> {
    if g.adjacency@.contains_key(id) {
        g.adjacency@[id]@
    } else {
        Seq::empty()
    }
}

impl Graph {
    /// An edge out of `n` joins stored (positive) nodes, is at least a meter
    /// long, and carries the labels recorded for its way.
    pub open spec fn edge_wf(&self, n: NodeId, e: (Neighbor, WayLabels)) -> bool {
        &&& n > 0
        &&& e.0.node.id > 0
        &&& e.0.distance > 0
        &&& self.labels@.contains_key(e.0.way)
        &&& self.labels@[e.0.way] == e.1
    }

    /// Labels come in twins `+w` / `-w`.
    pub open spec fn labels_wf(&self) -> bool {
        forall|w: WayId|
            #[trigger] self.labels@.contains_key(w) ==> w != 0 && w != i64::MIN
                && self.labels@.contains_key((-w) as WayId)
    }

    /// Every edge is well formed.
    pub open spec fn edges_wf(&self) -> bool {
        forall|n: NodeId, i: int|
            #![trigger self.adjacency@[n]@[i]]
            self.adjacency@.contains_key(n) && 0 <= i < self.adjacency@[n]@.len() ==> self.edge_wf(
                n,
                self.adjacency@[n]@[i],
            )
    }

    /// The edge `e` out of `n` has a reverse twin: an edge back to `n` along
    /// the negated way, of the same length.
    pub open spec fn has_twin(&self, n: NodeId, e: (Neighbor, WayLabels)) -> bool {
        let v = e.0.node.id;
        &&& self.adjacency@.contains_key(v)
        &&& exists|j: int|
            0 <= j < self.adjacency@[v]@.len() && #[trigger] self.adjacency@[v]@[j].0.node.id == n
                && self.adjacency@[v]@[j].0.way == -e.0.way && self.adjacency@[v]@[j].0.distance
                == e.0.distance
    }

    /// Every edge has its reverse twin.
    pub open spec fn twins_wf(&self) -> bool {
        forall|n: NodeId, i: int|
            #![trigger self.adjacency@[n]@[i]]
            self.adjacency@.contains_key(n) && 0 <= i < self.adjacency@[n]@.len() ==> self.has_twin(
                n,
                self.adjacency@[n]@[i],
            )
    }

    /// Labels come in twins, every edge is well formed, and every edge on a
    /// way `w` has a reverse edge on `-w` of the same length.
    pub open spec fn wf(&self) -> bool {
        &&& self.labels_wf()
        &&& self.edges_wf()
        &&& self.twins_wf()
    }

    /// `self` holds every edge of `g`, at the same positions, and the same labels.
    pub open spec fn extends(&self, g: Graph) -> bool {
        &&& self.labels@ == g.labels@
        &&& forall|n: NodeId| #[trigger]
            g.adjacency@.contains_key(n) ==> self.adjacency@.contains_key(n)
                && g.adjacency@[n]@.len() <= self.adjacency@[n]@.len() && forall|i: int|
                0 <= i < g.adjacency@[n]@.len() ==> #[trigger] self.adjacency@[n]@[i]
                    == g.adjacency@[n]@[i]
    }

    /// An empty store.
    pub fn new() -> (r: Graph)
        ensures
            r.wf(),
            r.adjacency@ == Map::<NodeId, Vec<(Neighbor, WayLabels)>>::empty(),
            r.labels@ == Map::<WayId, WayLabels>::empty(),
    {
        Graph { adjacency: HashMap::new(), labels: HashMap::new() }
    }

    /// Records the labels of way `way` (`forward`) and of its reverse twin `-way`
    /// (`reverse`). Fails on a non-positive id or a way already recorded.
    pub fn add_way_labels(&mut self, way: WayId, forward: WayLabels, reverse: WayLabels) -> (r:
        Result<(), RoutingError>)
        requires
            old(self).wf(),
        ensures
            final(self).wf(),
            final(self).adjacency@ == old(self).adjacency@,
            r is Ok <==> way > 0 && !old(self).labels@.contains_key(way),
            r is Ok ==> final(self).labels@ == old(self).labels@.insert(way, forward).insert(
                -way as WayId,
                reverse,
            ),
            r is Err ==> r == Err::<(), RoutingError>(RoutingError::StoreUnavailable)
                && final(self).labels@ == old(self).labels@,
    {
        if way <= 0 || self.labels.contains_key(&way) {
            return Err(RoutingError::StoreUnavailable);
        }
        let neg: WayId = -way;
        proof {
            assert(!self.labels@.contains_key(neg)) by {
                if self.labels@.contains_key(neg) {
                    assert(self.labels@.contains_key((-neg) as WayId));
                }
            }
        }
        self.labels.insert(way, forward);
        self.labels.insert(neg, reverse);
        proof {
            assert forall|w: WayId| #[trigger] self.labels@.contains_key(w) implies w != 0 && w
                != i64::MIN && self.labels@.contains_key((-w) as WayId) by {
                if w != way && w != neg {
                    assert(old(self).labels@.contains_key(w));
                }
            }
            assert forall|n: NodeId, i: int|
                #![trigger self.adjacency@[n]@[i]]
                self.adjacency@.contains_key(n) && 0 <= i < self.adjacency@[n]@.len() implies self.edge_wf(
                n,
                self.adjacency@[n]@[i],
            ) by {
                assert(old(self).edge_wf(n, self.adjacency@[n]@[i]));
            }
            assert forall|n: NodeId, i: int|
                #![trigger self.adjacency@[n]@[i]]
                self.adjacency@.contains_key(n) && 0 <= i < self.adjacency@[n]@.len() implies self.has_twin(
                n,
                self.adjacency@[n]@[i],
            ) by {
                assert(old(self).has_twin(n, old(self).adjacency@[n]@[i]));
            }
        }
        Ok(())
    }

    /// Appends the directed edge `from -> neighbor.node` with `labels`.
    fn push_edge(&mut self, from: NodeId, neighbor: Neighbor, labels: WayLabels)
        requires
            old(self).labels_wf(),
            old(self).edges_wf(),
            from > 0,
            neighbor.node.id > 0,
            neighbor.distance > 0,
            old(self).labels@.contains_key(neighbor.way),
            old(self).labels@[neighbor.way] == labels,
        ensures
            final(self).labels_wf(),
            final(self).edges_wf(),
            final(self).extends(*old(self)),
            final(self).adjacency@.dom() == old(self).adjacency@.dom().insert(from),
            out_edges(*final(self), from) == out_edges(*old(self), from).push((neighbor, labels)),
            forall|n: NodeId|
                n != from && #[trigger] final(self).adjacency@.contains_key(n)
                    ==> final(self).adjacency@[n] == old(self).adjacency@[n],
    {
        let ghost old_adj = self.adjacency@;
        let mut edges = match self.adjacency.remove(&from) {
            Some(v) => v,
            None => Vec::new(),
        };
        assert(edges@ == out_edges(*old(self), from));
        edges.push((neighbor, labels));
        self.adjacency.insert(from, edges);
        proof {
            assert(self.adjacency@ == old_adj.insert(from, edges));
            assert forall|n: NodeId, i: int|
                #![trigger self.adjacency@[n]@[i]]
                self.adjacency@.contains_key(n) && 0 <= i < self.adjacency@[n]@.len() implies self.edge_wf(
                n,
                self.adjacency@[n]@[i],
            ) by {
                if n == from {
                    if i < edges@.len() - 1 {
                        assert(self.adjacency@[n]@[i] == old_adj[n]@[i]);
                    }
                } else {
                    assert(self.adjacency@[n] == old_adj[n]);
                }
            }
            assert forall|n: NodeId| #[trigger] old_adj.contains_key(n) implies self.adjacency@.contains_key(
                n,
            ) && old_adj[n]@.len() <= self.adjacency@[n]@.len() && forall|i: int|
                0 <= i < old_adj[n]@.len() ==> #[trigger] self.adjacency@[n]@[i] == old_adj[n]@[i] by {
                if n == from {
                    assert forall|i: int| 0 <= i < old_adj[n]@.len() implies #[trigger] self.adjacency@[n]@[i]
                        == old_adj[n]@[i] by {
                        assert(edges@[i] == old_adj[n]@[i]);
                    }
                }
            }
            assert(self.adjacency@.dom() =~= old_adj.dom().insert(from));
        }
    }

    /// Adds the segment between `a` and `b` along `way` in both directions:
    /// `a -> b` on `way` and `b -> a` on `-way`, each with its recorded labels.
    /// Fails when an endpoint is not a stored node, the length is zero, or the
    /// way has no labels.
    pub fn add_way_segment(&mut self, a: Node, b: Node, way: WayId, distance: Distance) -> (r:
        Result<(), RoutingError>)
        requires
            old(self).wf(),
        ensures
            final(self).wf(),
            final(self).labels@ == old(self).labels@,
            r is Ok <==> a.id > 0 && b.id > 0 && distance > 0 && old(self).labels@.contains_key(
                way,
            ),
            r is Ok ==> final(self).adjacency@.dom() == old(self).adjacency@.dom().insert(
                a.id,
            ).insert(b.id),
            r is Ok ==> has_edge(
                *final(self),
                a.id,
                b.id,
                way,
                distance,
                old(self).labels@[way],
            ) && has_edge(
                *final(self),
                b.id,
                a.id,
                (-way) as WayId,
                distance,
                old(self).labels@[(-way) as WayId],
            ),
            r is Ok ==> final(self).extends(*old(self)),
            r is Err ==> r == Err::<(), RoutingError>(RoutingError::StoreUnavailable)
                && final(self).adjacency@ == old(self).adjacency@,
    {
        if a.id <= 0 || b.id <= 0 || distance == 0 {
            return Err(RoutingError::StoreUnavailable);
        }
        let forward = match self.labels.get(&way) {
            Some(l) => *l,
            None => {
                return Err(RoutingError::StoreUnavailable);
            },
        };
        proof {
            assert(self.labels@.contains_key((-way) as WayId));
        }
        let neg: WayId = -way;
        let reverse = match self.labels.get(&neg) {
            Some(l) => *l,
            None => {
                return Err(RoutingError::StoreUnavailable);
            },
        };
        let ghost g0 = *self;
        let e1 = Neighbor { way, node: b, distance };
        let e2 = Neighbor { way: neg, node: a, distance };
        self.push_edge(a.id, e1, forward);
        let ghost g1 = *self;
        self.push_edge(b.id, e2, reverse);
        proof {
            let g2 = *self;
            let adj = g2.adjacency@;
            // positions of the two new edges
            let ia = out_edges(g1, a.id).len() - 1;
            let ib = out_edges(g2, b.id).len() - 1;
            assert(adj[b.id]@[ib] == (e2, reverse));
            assert(g1.adjacency@[a.id]@[ia] == (e1, forward));
            assert(adj[a.id]@[ia] == (e1, forward));
            assert(g2.extends(g0)) by {
                assert forall|n: NodeId| #[trigger] g0.adjacency@.contains_key(n) implies adj.contains_key(n)
                    && g0.adjacency@[n]@.len() <= adj[n]@.len() && forall|i: int|
                    0 <= i < g0.adjacency@[n]@.len() ==> #[trigger] adj[n]@[i]
                        == g0.adjacency@[n]@[i] by {
                    assert(g1.adjacency@.contains_key(n));
                    assert forall|i: int| 0 <= i < g0.adjacency@[n]@.len() implies #[trigger] adj[n]@[i]
                        == g0.adjacency@[n]@[i] by {
                        assert(g1.adjacency@[n]@[i] == g0.adjacency@[n]@[i]);
                    }
                }
            }
            assert forall|n: NodeId, i: int|
                #![trigger adj[n]@[i]]
                adj.contains_key(n) && 0 <= i < adj[n]@.len() implies g2.has_twin(n, adj[n]@[i]) by {
                let e = adj[n]@[i];
                if n == b.id && i == ib {
                    assert(adj[a.id]@[ia].0.node.id == n);
                } else if n == a.id && i == ia {
                    assert(adj[b.id]@[ib].0.node.id == n);
                } else {
                    assert(g0.adjacency@.contains_key(n) && i < g0.adjacency@[n]@.len()) by {
                        if !(g0.adjacency@.contains_key(n) && i < g0.adjacency@[n]@.len()) {
                            if n == a.id && n != b.id {
                                assert(adj[n] == g1.adjacency@[n]);
                            }
                        }
                    }
                    assert(adj[n]@[i] == g0.adjacency@[n]@[i]);
                    assert(g0.has_twin(n, e));
                    let v = e.0.node.id;
                    let j = choose|j: int|
                        0 <= j < g0.adjacency@[v]@.len() && #[trigger] g0.adjacency@[v]@[j].0.node.id
                            == n && g0.adjacency@[v]@[j].0.way == -e.0.way
                            && g0.adjacency@[v]@[j].0.distance == e.0.distance;
                    assert(adj[v]@[j] == g0.adjacency@[v]@[j]);
                }
            }
            assert(adj.dom() =~= g0.adjacency@.dom().insert(a.id).insert(b.id));
        }
        Ok(())
    }

    /// Every outgoing edge of `id`, each with its way's labels; empty for an unknown id.
    pub fn get_neighbors_with_labels(&self, id: NodeId) -> (r: Vec<(Neighbor, WayLabels)>)
        ensures
            r@ == out_edges(*self, id),
    {
        let mut out: Vec<(Neighbor, WayLabels)> = Vec::new();
        match self.adjacency.get(&id) {
            Some(edges) => {
                let mut i: usize = 0;
                while i < edges.len()
                    invariant
                        i <= edges@.len(),
                        edges@ == out_edges(*self, id),
                        out@ == edges@.subrange(0, i as int),
                    decreases edges@.len() - i,
                {
                    out.push(edges[i]);
                    i = i + 1;
                    assert(out@ =~= edges@.subrange(0, i as int));
                }
                assert(out@ =~= edges@);
            },
            None => {
                assert(out@ =~= out_edges(*self, id));
            },
        }
        out
    }

    /// The outgoing edges of `id`, without their labels.
    pub fn get_neighbors(&self, id: NodeId) -> (r: Vec<Neighbor>)
        ensures
            r@.len() == out_edges(*self, id).len(),
            forall|i: int| 0 <= i < r@.len() ==> r@[i] == (#[trigger] out_edges(*self, id)[i]).0,
    {
        let mut out: Vec<Neighbor> = Vec::new();
        match self.adjacency.get(&id) {
            Some(edges) => {
                let mut i: usize = 0;
                while i < edges.len()
                    invariant
                        i <= edges@.len(),
                        edges@ == out_edges(*self, id),
                        out@.len() == i,
                        forall|j: int| 0 <= j < i ==> out@[j] == edges@[j].0,
                    decreases edges@.len() - i,
                {
                    out.push(edges[i].0);
                    i = i + 1;
                }
            },
            None => {},
        }
        out
    }

    /// The labels recorded for a signed way id.
    pub fn get_way_labels(&self, way: WayId) -> (r: Option<WayLabels>)
        ensures
            r is Some <==> self.labels@.contains_key(way),
            r matches Some(l) ==> l == self.labels@[way],
    {
        match self.labels.get(&way) {
            Some(l) => Some(*l),
            None => None,
        }
    }
}

/// Every label lookup succeeds for both twins of an edge's way, and returns
/// exactly the labels the edge carries.
pub proof fn lemma_labels_roundtrip(g: Graph, n: NodeId, i: int)
    requires
        g.wf(),
        0 <= i < out_edges(g, n).len(),
    ensures
        g.labels@.contains_key(out_edges(g, n)[i].0.way),
        g.labels@.contains_key((-out_edges(g, n)[i].0.way) as WayId),
        g.labels@[out_edges(g, n)[i].0.way] == out_edges(g, n)[i].1,
{
    assert(g.edge_wf(n, g.adjacency@[n]@[i]));
}

} // verus!
