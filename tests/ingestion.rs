use rusty_router::cost::CostModel;
use rusty_router::etl::{way_segments, SegmentRow};
use rusty_router::geojson::Route;
use rusty_router::graph::{Coord, Graph, Neighbor, Node};
use rusty_router::labels::{Cycleway, Road};
use rusty_router::mapping::OSMMapper;
use rusty_router::navigation::{build_navigation_steps, NavigationStep};
use rusty_router::traversal::{TraversalSegment, TraversalSegmentBuilder};
use std::collections::HashMap;

#[test]
fn way_segments_come_in_twins() {
    let rows = way_segments(7, &vec![11, 12, 13], &vec![10, 20]);
    assert_eq!(
        rows,
        vec![
            SegmentRow { n1: 11, n2: 12, way: 7, distance: 10 },
            SegmentRow { n1: 12, n2: 11, way: -7, distance: 10 },
            SegmentRow { n1: 12, n2: 13, way: 7, distance: 20 },
            SegmentRow { n1: 13, n2: 12, way: -7, distance: 20 },
        ]
    );
    assert!(way_segments(7, &vec![], &vec![]).is_empty());
    assert!(way_segments(7, &vec![11], &vec![]).is_empty());
}

#[test]
fn ingested_way_loads_into_the_store() {
    let tags = vec![("highway".to_string(), "residential".to_string()), ("oneway".to_string(), "yes".to_string())];
    let mapper = OSMMapper::from_tags(7, &tags);
    let (forward, reverse) = mapper.get_way_labels();
    let mut g = Graph::new();
    g.add_way_labels(7, forward, reverse).unwrap();
    for row in way_segments(7, &vec![11, 12, 13], &vec![10, 20]) {
        if row.way > 0 {
            let a = Node { id: row.n1, geometry: Coord { lon: row.n1, lat: 0 } };
            let b = Node { id: row.n2, geometry: Coord { lon: row.n2, lat: 0 } };
            g.add_way_segment(a, b, row.way, row.distance).unwrap();
        }
    }
    let out = g.get_neighbors_with_labels(12);
    assert_eq!(out.len(), 2);
    let back = out.iter().find(|(n, _)| n.node.id == 11).unwrap();
    assert_eq!(back.1, (Cycleway::No, Road::Local, true));
    let ahead = out.iter().find(|(n, _)| n.node.id == 13).unwrap();
    assert_eq!(ahead.1, (Cycleway::No, Road::Local, false));
}

fn seg(from: i64, to: i64, way: i64, length: u32) -> TraversalSegment {
    TraversalSegment {
        from: Node { id: from, geometry: Coord { lon: from, lat: 1 } },
        to: Node { id: to, geometry: Coord { lon: to, lat: 1 } },
        way,
        depth: 0,
        length,
        distance_so_far: 0,
        labels: (Cycleway::Track, Road::Bike, false),
        cost_factor: 0,
        cost: 0,
        heuristic: 0,
    }
}

#[test]
fn navigation_steps_carry_street_names() {
    let segments = vec![seg(-1, 1, 7, 3), seg(1, 2, 7, 40), seg(2, 3, 9, 60), seg(3, -2, 9, 2)];
    let names = HashMap::from([(7, "Fulton Street".to_string())]);
    let steps = build_navigation_steps(&segments, &names);
    assert_eq!(steps.len(), 2);
    assert_eq!(steps[0].way_name, "Fulton Street");
    assert_eq!(steps[0].distance, 43);
    assert_eq!(steps[0].geometry.len(), 3);
    assert_eq!(steps[1].way_name, "");
    assert_eq!(steps[1].distance, 62);
    let mut one = NavigationStep::new(&segments[0], &names);
    one.extend_with(&segments[1]);
    assert_eq!(one.distance, steps[0].distance);
    assert_eq!(one.geometry, steps[0].geometry);
}

#[test]
fn route_grows_step_by_step() {
    let segments = vec![seg(-1, 1, 7, 3), seg(1, 2, 8, 40), seg(2, 3, 8, 60)];
    let mut route = Route::new(&segments[0]);
    route.extend_with(&segments[1]);
    route.extend_with(&segments[2]);
    let steps = route.steps();
    assert_eq!(steps.len(), 2);
    assert_eq!(steps[1].distance, 100);
    assert_eq!(steps[1].to, 3);
}

#[test]
fn builder_accumulates_cost_and_distance() {
    let from = Node { id: 1, geometry: Coord { lon: 0, lat: 0 } };
    let to = Neighbor { way: 4, node: Node { id: 2, geometry: Coord { lon: 5, lat: 5 } }, distance: 100 };
    let labels = (Cycleway::Lane, Road::Local, false);
    let seg = TraversalSegment::build_to_neighbor(&from, &to)
        .with_depth(3)
        .with_prev_distance(250)
        .with_cost(&CostModel::default(), &labels, 5)
        .with_heuristic(750, 10)
        .build();
    assert_eq!(seg.depth, 3);
    assert_eq!(seg.distance_so_far, 350);
    assert_eq!(seg.cost_factor, 780_000_000);
    assert_eq!(seg.cost, 78_000_000_005);
    assert_eq!(seg.heuristic, 7_500_000_000);
    assert_eq!(seg.labels, labels);
    let end = Node { id: -2, geometry: Coord { lon: 9, lat: 9 } };
    let link = TraversalSegmentBuilder::new_from_node(&from, &end, 4, 12).build();
    assert_eq!((link.length, link.distance_so_far, link.cost), (12, 12, 0));
    let same = TraversalSegment::build_to_node(&from, &end, 4, 12).build();
    assert_eq!(same.to.id, -2);
}
