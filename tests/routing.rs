use rusty_router::cost::CostModel;
use rusty_router::error::RoutingError;
use rusty_router::graph::{Coord, Graph, Neighbor, Node, END_NODE_ID, START_NODE_ID};
use rusty_router::labels::{Cycleway, Road, WayLabels};
use rusty_router::traversal::TraversalSegment;
use std::collections::{BTreeMap, BTreeSet};

const LANE_LOCAL: WayLabels = (Cycleway::Lane, Road::Local, false);
const BARE_ARTERIAL: WayLabels = (Cycleway::No, Road::Arterial, false);

fn coord(x: i64, y: i64) -> Coord {
    Coord { lon: x * 1000, lat: y * 1000 }
}

fn node(id: i64, x: i64, y: i64) -> Node {
    Node { id, geometry: coord(x, y) }
}

/// Adds both directed twins of way `w` between `a` and `b`.
fn add_way(g: &mut Graph, w: i64, a: Node, b: Node, length: u32, fwd: WayLabels, rev: WayLabels) {
    g.add_way_labels(w, fwd, rev).unwrap();
    g.add_way_segment(a, b, w, length).unwrap();
}

/// 1 -(100)- 2 -(100)- 3 along lanes; 1 -(150)- 4 -(50)- 3 along a bare arterial;
/// 5 stands alone.
fn sample_graph() -> (Graph, Vec<Node>) {
    let nodes = vec![node(1, 0, 0), node(2, 10, 0), node(3, 20, 0), node(4, 10, 10), node(5, 90, 90)];
    let mut g = Graph::new();
    add_way(&mut g, 100, nodes[0], nodes[1], 100, LANE_LOCAL, LANE_LOCAL);
    add_way(&mut g, 200, nodes[1], nodes[2], 100, LANE_LOCAL, LANE_LOCAL);
    add_way(&mut g, 300, nodes[0], nodes[3], 150, BARE_ARTERIAL, BARE_ARTERIAL);
    add_way(&mut g, 400, nodes[3], nodes[2], 50, BARE_ARTERIAL, BARE_ARTERIAL);
    (g, nodes)
}

fn snapped(n: Node, way: i64, distance: u32) -> Neighbor {
    Neighbor { way, node: n, distance }
}

fn manhattan_to(end: Coord) -> impl Fn(Coord) -> u32 {
    move |c: Coord| (((c.lon - end.lon).abs() + (c.lat - end.lat).abs()) / 1000) as u32
}

fn ids(route: &[TraversalSegment]) -> Vec<i64> {
    route.iter().map(|s| s.to.id).collect()
}

#[test]
fn short_route_endpoints_and_lengths() {
    let (g, n) = sample_graph();
    let start = coord(-1, 0);
    let end = coord(21, 0);
    let (route, traversal, _meta) = g
        .calculate_route(
            &start,
            &end,
            &vec![snapped(n[0], 100, 5)],
            &vec![snapped(n[2], 200, 5)],
            true,
            None,
            None,
            &manhattan_to(end),
            1000,
        )
        .unwrap();
    assert_eq!(route[0].from.id, START_NODE_ID);
    assert_eq!(route.last().unwrap().to.id, END_NODE_ID);
    assert_eq!(ids(&route), vec![1, 2, 3, END_NODE_ID]);
    let interior: u32 = route[1..route.len() - 1].iter().map(|s| s.length).sum();
    assert_eq!(interior, 200);
    for pair in route.windows(2) {
        assert_eq!(pair[0].to.id, pair[1].from.id);
        assert!(pair[0].cost <= pair[1].cost);
        assert!(pair[0].distance_so_far <= pair[1].distance_so_far);
    }
    assert!(traversal.unwrap().iter().any(|s| s.to.id == END_NODE_ID));
}

#[test]
fn route_costs_follow_the_model() {
    let (g, n) = sample_graph();
    let end = coord(21, 0);
    let (route, traversal, meta) = g
        .calculate_route(
            &coord(-1, 0),
            &end,
            &vec![snapped(n[0], 100, 5)],
            &vec![snapped(n[2], 200, 5)],
            false,
            None,
            Some(0),
            &manhattan_to(end),
            1000,
        )
        .unwrap();
    assert!(traversal.is_none());
    // 0.78 per meter on a local road with a lane, over 200 meters.
    assert_eq!(route.last().unwrap().cost, 156_000_000_000);
    assert_eq!(route[1].cost_factor, 780_000_000);
    assert_eq!(meta.cost_range, (780_000_000, 1_310_000_000));
    assert_eq!(meta.max_depth, 2);
}

/// The least cost from any start to any target, by a plain Dijkstra.
fn reference_cost(g: &Graph, starts: &[i64], targets: &[i64], model: &CostModel) -> Option<u128> {
    let mut best: BTreeMap<i64, u128> = BTreeMap::new();
    let mut open: BTreeSet<(u128, i64)> = BTreeSet::new();
    for s in starts {
        best.insert(*s, 0);
        open.insert((0, *s));
    }
    while let Some((d, v)) = open.pop_first() {
        if targets.contains(&v) {
            return Some(d);
        }
        if best.get(&v).copied().unwrap_or(u128::MAX) < d {
            continue;
        }
        for (nb, labels) in g.get_neighbors_with_labels(v) {
            let c = d + model.calculate_edge_cost(&labels, nb.distance);
            if c < best.get(&nb.node.id).copied().unwrap_or(u128::MAX) {
                best.insert(nb.node.id, c);
                open.insert((c, nb.node.id));
            }
        }
    }
    None
}

fn ladder_graph() -> (Graph, Vec<Node>) {
    let mut nodes = Vec::new();
    for i in 0..12 {
        nodes.push(node(i + 1, (i % 6) * 10, (i / 6) * 10));
    }
    let mut g = Graph::new();
    let kinds = [
        (Cycleway::Track, Road::Bike, false),
        (Cycleway::No, Road::Arterial, false),
        (Cycleway::Lane, Road::Collector, false),
        (Cycleway::Shared, Road::Local, true),
    ];
    let mut w = 1;
    for i in 0..12usize {
        let right = i + 1;
        if i % 6 != 5 {
            let l = kinds[(i * 7) % 4];
            add_way(&mut g, w, nodes[i], nodes[right], 40 + (i as u32 * 13) % 70, l, kinds[(i + 1) % 4]);
            w += 1;
        }
        if i < 6 {
            let l = kinds[(i * 3) % 4];
            add_way(&mut g, w, nodes[i], nodes[i + 6], 30 + (i as u32 * 17) % 50, l, l);
            w += 1;
        }
    }
    (g, nodes)
}

#[test]
fn heuristic_zero_matches_reference_dijkstra() {
    let (g, n) = ladder_graph();
    let model = CostModel::default();
    for (s, t) in [(0usize, 11usize), (6, 5), (2, 9), (11, 0)] {
        let end = n[t].geometry;
        let (route, _, _) = g
            .calculate_route(
                &coord(-5, -5),
                &end,
                &vec![snapped(n[s], 1, 3)],
                &vec![snapped(n[t], 1, 3)],
                false,
                None,
                Some(0),
                &manhattan_to(end),
                10_000,
            )
            .unwrap();
        let expected = reference_cost(&g, &[n[s].id], &[n[t].id], &model).unwrap();
        assert_eq!(route.last().unwrap().cost, expected, "{s} -> {t}");
    }
}

#[test]
fn heuristic_zero_is_never_worse_than_default() {
    let (g, n) = ladder_graph();
    let end = n[11].geometry;
    let run = |w: Option<u32>| {
        g.calculate_route(
            &coord(0, 0),
            &end,
            &vec![snapped(n[0], 1, 3)],
            &vec![snapped(n[11], 1, 3)],
            true,
            None,
            w,
            &manhattan_to(end),
            10_000,
        )
        .unwrap()
    };
    let (exact, _, _) = run(Some(0));
    let (greedy, _, _) = run(None);
    assert!(exact.last().unwrap().cost <= greedy.last().unwrap().cost);
}

#[test]
fn disconnected_target_finds_no_route() {
    let (g, n) = sample_graph();
    let end = n[4].geometry;
    let r = g.calculate_route(
        &coord(0, 0),
        &end,
        &vec![snapped(n[0], 100, 1)],
        &vec![snapped(n[4], 999, 1)],
        false,
        None,
        None,
        &manhattan_to(end),
        1000,
    );
    assert_eq!(r.err(), Some(RoutingError::NoRouteFound));
}

#[test]
fn exhausted_budget_cancels() {
    let (g, n) = sample_graph();
    let end = n[2].geometry;
    let r = g.calculate_route(
        &coord(0, 0),
        &end,
        &vec![snapped(n[0], 100, 1)],
        &vec![snapped(n[2], 200, 1)],
        false,
        None,
        None,
        &manhattan_to(end),
        1,
    );
    assert_eq!(r.err(), Some(RoutingError::Cancelled));
}

#[test]
fn start_on_target_routes_directly() {
    let (g, n) = sample_graph();
    let end = coord(1, 1);
    let (route, _, _) = g
        .calculate_route(
            &coord(0, 1),
            &end,
            &vec![snapped(n[0], 100, 2)],
            &vec![snapped(n[0], 100, 2)],
            false,
            None,
            None,
            &manhattan_to(end),
            10,
        )
        .unwrap();
    assert_eq!(ids(&route), vec![1, END_NODE_ID]);
    assert_eq!(route[1].cost, 0);
}

#[test]
fn explore_depth_bound() {
    let (g, n) = ladder_graph();
    for depth in [0u64, 1, 2, 5] {
        let t = g
            .calculate_traversal(&coord(0, 0), &vec![snapped(n[0], 1, 1)], depth, None, None, 10_000)
            .unwrap();
        assert!(t.iter().all(|s| s.depth <= depth), "depth {depth}");
    }
}

#[test]
fn explore_on_a_line_reaches_the_frontier() {
    let nodes: Vec<Node> = (0..6).map(|i| node(i + 1, i * 10, 0)).collect();
    let mut g = Graph::new();
    for i in 0..5 {
        add_way(&mut g, (i + 1) as i64, nodes[i], nodes[i + 1], 100, LANE_LOCAL, LANE_LOCAL);
    }
    let t = g
        .calculate_traversal(&coord(0, 0), &vec![snapped(nodes[0], 1, 1)], 2, None, None, 100)
        .unwrap();
    let reached: BTreeSet<i64> = t.iter().map(|s| s.to.id).collect();
    assert_eq!(reached, BTreeSet::from([1, 2, 3]));
    assert!(t.iter().all(|s| s.depth <= 2));
}

#[test]
fn explore_runs_dry_on_a_short_component() {
    let (g, n) = sample_graph();
    let r = g.calculate_traversal(&coord(0, 0), &vec![snapped(n[4], 1, 1)], 3, None, None, 100);
    assert_eq!(r.err(), Some(RoutingError::NoRouteFound));
}

#[test]
fn salmon_direction_is_avoided() {
    let a = node(1, 0, 0);
    let b = node(2, 10, 0);
    let mut g = Graph::new();
    // Way 10 runs a -> b; way 11 runs b -> a, so a -> b on it is counter-flow.
    add_way(&mut g, 10, a, b, 100, LANE_LOCAL, (Cycleway::Lane, Road::Local, true));
    add_way(&mut g, 11, b, a, 100, LANE_LOCAL, (Cycleway::Lane, Road::Local, true));
    let end = b.geometry;
    let (route, _, _) = g
        .calculate_route(
            &coord(0, 0),
            &end,
            &vec![snapped(a, 10, 1)],
            &vec![snapped(b, 10, 1)],
            false,
            None,
            Some(0),
            &manhattan_to(end),
            100,
        )
        .unwrap();
    assert_eq!(route[1].way, 10);
    let model = CostModel::default();
    assert!(
        model.calculate_cost(&(Cycleway::Lane, Road::Local, true))
            >= model.calculate_cost(&(Cycleway::Lane, Road::Local, false))
    );
}

#[test]
fn every_edge_carries_its_way_labels() {
    let (g, _) = ladder_graph();
    for id in 1..=12 {
        for (nb, labels) in g.get_neighbors_with_labels(id) {
            assert_eq!(g.get_way_labels(nb.way), Some(labels));
            assert!(g.get_way_labels(-nb.way).is_some());
        }
    }
    assert!(g.get_neighbors_with_labels(99).is_empty());
    assert_eq!(g.get_neighbors(1).len(), 2);
}

#[test]
fn store_rejects_inconsistent_segments() {
    let mut g = Graph::new();
    let a = node(1, 0, 0);
    let b = node(2, 1, 1);
    assert_eq!(g.add_way_segment(a, b, 5, 10), Err(RoutingError::StoreUnavailable));
    g.add_way_labels(5, LANE_LOCAL, (Cycleway::Lane, Road::Local, true)).unwrap();
    assert_eq!(g.add_way_segment(a, b, 5, 0), Err(RoutingError::StoreUnavailable));
    assert_eq!(g.add_way_segment(node(-1, 0, 0), b, 5, 3), Err(RoutingError::StoreUnavailable));
    assert_eq!(g.add_way_segment(a, b, 5, 3), Ok(()));
    let back = g.get_neighbors_with_labels(2);
    assert_eq!(back.len(), 1);
    assert_eq!(back[0].0.way, -5);
    assert_eq!(back[0].0.node.id, 1);
    assert_eq!(back[0].0.distance, 3);
    assert_eq!(back[0].1, (Cycleway::Lane, Road::Local, true));
}

#[test]
fn route_distances_accumulate_along_the_route() {
    let (g, n) = ladder_graph();
    let end = n[11].geometry;
    let (route, _, meta) = g
        .calculate_route(
            &coord(0, 0),
            &end,
            &vec![snapped(n[0], 1, 7)],
            &vec![snapped(n[11], 1, 4)],
            false,
            None,
            None,
            &manhattan_to(end),
            10_000,
        )
        .unwrap();
    assert_eq!(route[0].distance_so_far, 7);
    assert_eq!(route[0].length, 7);
    for pair in route.windows(2) {
        assert_eq!(pair[1].distance_so_far, pair[0].distance_so_far + pair[1].length as u64);
    }
    let ids: Vec<i64> = route.iter().map(|s| s.to.id).collect();
    let distinct: BTreeSet<i64> = ids.iter().copied().collect();
    assert_eq!(distinct.len(), ids.len());
    for s in &route[1..route.len() - 1] {
        assert!(meta.cost_range.0 <= s.cost_factor && s.cost_factor <= meta.cost_range.1);
        assert!(s.depth <= meta.max_depth);
    }
}

#[test]
fn weight_zero_within_bound_is_never_cancelled() {
    let (g, n) = sample_graph();
    // One start entry, four nodes with edges, at most two edges each.
    let budget = 1 + 4 * 2 + 1;
    let end = n[2].geometry;
    let r = g.calculate_route(
        &coord(0, 0),
        &end,
        &vec![snapped(n[0], 100, 1)],
        &vec![snapped(n[2], 200, 1)],
        true,
        None,
        Some(0),
        &manhattan_to(end),
        budget,
    );
    let (route, traversal, _) = r.unwrap();
    let t = traversal.unwrap();
    for s in &route[..route.len() - 1] {
        assert!(t.iter().any(|x| x.to.id == s.to.id && x.cost == s.cost && x.way == s.way));
    }
    let explored = g.calculate_traversal(&coord(0, 0), &vec![snapped(n[0], 100, 1)], 9, None, None, budget);
    assert_eq!(explored.err(), Some(RoutingError::NoRouteFound));
}

#[test]
fn explore_segments_extend_their_first_visitor() {
    let (g, n) = ladder_graph();
    let t = g
        .calculate_traversal(&coord(0, 0), &vec![snapped(n[0], 1, 2)], 3, None, None, 10_000)
        .unwrap();
    assert!(t.iter().any(|s| s.to.id == n[0].id));
    assert!(t.iter().any(|s| s.depth == 3));
    let model = CostModel::default();
    for s in &t {
        if s.from.id != START_NODE_ID {
            let p = t.iter().find(|x| x.to.id == s.from.id).unwrap();
            assert_eq!(s.depth, p.depth + 1);
            assert_eq!(s.distance_so_far, p.distance_so_far + s.length as u64);
            assert_eq!(s.cost, p.cost + model.calculate_edge_cost(&s.labels, s.length));
            assert_eq!(s.cost_factor, model.calculate_cost(&s.labels));
            assert_eq!(s.heuristic, 0);
        }
    }
}
