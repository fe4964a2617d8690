use rusty_router::compression::{compress_with_encoding, Encoding};
use rusty_router::cost::{CostModel, CostModelConfig};
use rusty_router::error::RoutingError;
use rusty_router::geojson::{Route, RouteStep};
use rusty_router::graph::{Coord, Neighbor, Node};
use rusty_router::labels::{Cycleway, Road};
use rusty_router::snap::{
    next_snap_radius, select_snapped_neighbors, snap_box, SnapCandidate, DEFAULT_SNAP_RADIUS,
    MAX_SNAP_RADIUS,
};
use rusty_router::traversal::TraversalSegment;

fn config(cw: Vec<(&str, u64)>, rw: Vec<(&str, u64)>) -> CostModelConfig {
    CostModelConfig {
        cycleway_coefficient: 300,
        road_coefficient: 400,
        salmon_coefficient: 1300,
        cycleway_weights: cw.into_iter().map(|(k, v)| (k.to_string(), v)).collect(),
        road_weights: rw.into_iter().map(|(k, v)| (k.to_string(), v)).collect(),
    }
}

#[test]
fn default_cost_factors() {
    let m = CostModel::default();
    assert_eq!(m.calculate_cost(&(Cycleway::Lane, Road::Local, false)), 780_000_000);
    assert_eq!(m.calculate_cost(&(Cycleway::Lane, Road::Local, true)), 1_014_000_000);
    assert_eq!(m.calculate_cost(&(Cycleway::Track, Road::Bike, false)), 350_000_000);
    assert_eq!(m.calculate_cost(&(Cycleway::No, Road::Arterial, false)), 1_310_000_000);
    assert_eq!(m.calculate_edge_cost(&(Cycleway::Shared, Road::Pedestrian, false), 10), 9_300_000_000);
}

#[test]
fn equal_labels_cost_the_same_per_meter() {
    let m = CostModel::default();
    let l = (Cycleway::Shared, Road::Collector, false);
    let f = m.calculate_cost(&l);
    assert_eq!(m.calculate_cost(&l.clone()), f);
    assert_eq!(m.calculate_edge_cost(&l, 37), f as u128 * 37);
}

#[test]
fn config_builds_model_with_missing_weights_zero() {
    let m = CostModel::from_config(&config(
        vec![("Lane", 1000), ("Track", 500), ("Lane", 900)],
        vec![("Local", 1200)],
    ))
    .unwrap();
    assert_eq!(m.cycleway_weights, [0, 0, 900, 500]);
    assert_eq!(m.road_weights, [0, 0, 1200, 0, 0]);
    assert_eq!(m.calculate_cost(&(Cycleway::Lane, Road::Local, false)), (300 * 900 + 400 * 1200) * 1000);
    assert_eq!(m.calculate_cost(&(Cycleway::No, Road::Bike, false)), 0);
}

#[test]
fn config_rejects_unknown_names_and_large_numbers() {
    let bad_name = config(vec![("Painted", 1000)], vec![]);
    assert_eq!(CostModel::from_config(&bad_name).err(), Some(RoutingError::BadCostModel));
    let bad_road = config(vec![], vec![("Highway", 1000)]);
    assert_eq!(CostModel::from_config(&bad_road).err(), Some(RoutingError::BadCostModel));
    let too_large = config(vec![("None", 1_000_001)], vec![]);
    assert_eq!(CostModel::from_config(&too_large).err(), Some(RoutingError::BadCostModel));
    let mut big_coeff = config(vec![], vec![]);
    big_coeff.salmon_coefficient = 5_000_000;
    assert_eq!(CostModel::from_config(&big_coeff).err(), Some(RoutingError::BadCostModel));
    assert_eq!(Cycleway::from_name("None"), Some(Cycleway::No));
    assert_eq!(Road::from_name("Arterial"), Some(Road::Arterial));
    assert_eq!(Road::from_name("arterial"), None);
}

/// Great-circle distance in meters and initial bearing in thousandths of a degree.
fn haversine(from: Coord, to: Coord) -> (u32, i64) {
    let (lon1, lat1) = ((from.lon as f64) / 1e7, (from.lat as f64) / 1e7);
    let (lon2, lat2) = ((to.lon as f64) / 1e7, (to.lat as f64) / 1e7);
    let (phi_a, phi_b) = (lat1.to_radians(), lat2.to_radians());
    let dp = phi_b - phi_a;
    let dl = (lon2 - lon1).to_radians();
    let a = (dp / 2.0).sin().powi(2) + phi_a.cos() * phi_b.cos() * (dl / 2.0).sin().powi(2);
    let d = 2.0 * 6_371_008.8 * a.sqrt().asin();
    let y = dl.sin() * phi_b.cos();
    let x = phi_a.cos() * phi_b.sin() - phi_a.sin() * phi_b.cos() * dl.cos();
    (d.round() as u32, (y.atan2(x).to_degrees() * 1000.0).round() as i64)
}

/// Way nodes inside a box, as a spatial index would return them.
fn query(nodes: &[(Node, i64)], center: Coord, radius: i64) -> Vec<SnapCandidate> {
    let b = snap_box(&center, radius);
    nodes
        .iter()
        .filter(|(n, _)| rusty_router::snap::box_contains(&b, &n.geometry))
        .map(|(n, way)| {
            let (distance, bearing) = haversine(center, n.geometry);
            SnapCandidate { neighbor: Neighbor { way: *way, node: *n, distance }, bearing }
        })
        .collect()
}

/// Widens the box until a query finds something, then picks the entry nodes.
fn snap(nodes: &[(Node, i64)], center: Coord) -> Result<(Vec<Neighbor>, u32), RoutingError> {
    let mut radius = DEFAULT_SNAP_RADIUS;
    let mut widened = 0;
    loop {
        let found = query(nodes, center, radius);
        if !found.is_empty() {
            return Ok((select_snapped_neighbors(&found), widened));
        }
        radius = next_snap_radius(radius)?;
        widened += 1;
    }
}

fn street() -> Vec<(Node, i64)> {
    // A block of way 7 running east-west at 40.6898 north, and way 8 to the north.
    vec![
        (Node { id: 1, geometry: Coord { lon: -739792000, lat: 406898000 } }, 7),
        (Node { id: 2, geometry: Coord { lon: -739789500, lat: 406898100 } }, 7),
        (Node { id: 3, geometry: Coord { lon: -739787000, lat: 406898200 } }, 7),
        (Node { id: 4, geometry: Coord { lon: -739791000, lat: 406906000 } }, 8),
    ]
}

#[test]
fn get_corner_coords_on_road() {
    let center = Coord { lon: -739790797, lat: 406898084 };
    let (neighbors, _) = snap(&street(), center).unwrap();
    assert_eq!(neighbors.len(), 2);
    assert_eq!(neighbors[0].way, neighbors[1].way);
    let (_, b0) = haversine(center, neighbors[0].node.geometry);
    let (_, b1) = haversine(center, neighbors[1].node.geometry);
    assert!((b0 - b1).abs() >= 90_000);
}

#[test]
fn get_corner_coords_in_lot() {
    let center = Coord { lon: -739791875, lat: 406901550 };
    let (neighbors, widened) = snap(&street(), center).unwrap();
    assert!(widened >= 1);
    assert!(!neighbors.is_empty() && neighbors.len() <= 2);
}

#[test]
fn snap_fails_far_from_the_graph() {
    let center = Coord { lon: -739000000, lat: 406000000 };
    assert_eq!(snap(&street(), center).err(), Some(RoutingError::SnapFailed));
    assert_eq!(next_snap_radius(MAX_SNAP_RADIUS), Err(RoutingError::SnapFailed));
    assert_eq!(next_snap_radius(DEFAULT_SNAP_RADIUS), Ok(4000));
}

#[test]
fn snap_box_bounds_are_inclusive() {
    let b = snap_box(&Coord { lon: 10, lat: -20 }, 2000);
    assert_eq!((b.min_lon, b.max_lon, b.min_lat, b.max_lat), (-1990, 2010, -2020, 1980));
    assert!(rusty_router::snap::box_contains(&b, &Coord { lon: 2010, lat: 1980 }));
    assert!(!rusty_router::snap::box_contains(&b, &Coord { lon: 2011, lat: 0 }));
}

fn cand(id: i64, way: i64, distance: u32, bearing: i64) -> SnapCandidate {
    SnapCandidate {
        neighbor: Neighbor { way, node: Node { id, geometry: Coord { lon: 0, lat: 0 } }, distance },
        bearing,
    }
}

#[test]
fn selection_takes_nearest_then_far_side_of_same_way() {
    assert!(select_snapped_neighbors(&vec![]).is_empty());
    let picked = select_snapped_neighbors(&vec![
        cand(1, 5, 30, 0),
        cand(2, 5, 10, 90_000),
        cand(3, 6, 12, -90_000),
        cand(4, 5, 20, 45_000),
        cand(5, 5, 25, -10_000),
        cand(6, 5, 22, 170_000),
    ]);
    let ids: Vec<i64> = picked.iter().map(|n| n.node.id).collect();
    assert_eq!(ids, vec![2, 5]);
    let lone = select_snapped_neighbors(&vec![cand(1, 5, 3, 0), cand(2, 6, 4, 180_000)]);
    assert_eq!(lone.len(), 1);
    let tie = select_snapped_neighbors(&vec![cand(1, 5, 3, 0), cand(2, 5, 3, 0)]);
    assert_eq!(tie[0].node.id, 1);
    assert_eq!(tie.len(), 1);
}

#[test]
fn encoding_negotiation() {
    assert_eq!(Encoding::from_accept_encoding("deflate, gzip;q=1.0"), Encoding::Gzip);
    assert_eq!(Encoding::from_accept_encoding("br, deflate"), Encoding::Zlib);
    assert_eq!(Encoding::from_accept_encoding("identity"), Encoding::No);
    assert_eq!(Encoding::from_accept_encoding(""), Encoding::No);
    assert_eq!(Encoding::Gzip.to_string(), "gzip");
    assert_eq!(Encoding::Zlib.to_string(), "deflate");
    assert_eq!(Encoding::No.to_string(), "");
    assert_eq!(Encoding::default(), Encoding::No);
}

#[test]
fn compression_follows_encoding() {
    let body = "{\"route\": [1, 2, 3, 4, 5, 6, 7, 8, 9, 10]}";
    let (gz, e) = compress_with_encoding(body, "gzip").unwrap();
    let gz = gz.unwrap();
    assert_eq!(e, Encoding::Gzip);
    assert_eq!(&gz[..2], &[0x1f, 0x8b]);
    assert_ne!(gz.as_slice(), body.as_bytes());
    let (z, e) = compress_with_encoding(body, "deflate").unwrap();
    let z = z.unwrap();
    assert_eq!(e, Encoding::Zlib);
    assert_eq!(z[0], 0x78);
    assert_ne!(z.as_slice(), body.as_bytes());
    let (none, e) = compress_with_encoding(body, "br").unwrap();
    assert!(none.is_none());
    assert_eq!(e, Encoding::No);
}

fn seg(from: i64, to: i64, way: i64, length: u32, depth: u64) -> TraversalSegment {
    TraversalSegment {
        from: Node { id: from, geometry: Coord { lon: from, lat: 0 } },
        to: Node { id: to, geometry: Coord { lon: to, lat: 0 } },
        way,
        depth,
        length,
        distance_so_far: 0,
        labels: (Cycleway::Lane, Road::Local, false),
        cost_factor: 0,
        cost: 0,
        heuristic: 0,
    }
}

#[test]
fn route_steps_merge_runs_of_one_way() {
    let segments = vec![seg(-1, 1, 7, 5, 0), seg(1, 2, 7, 100, 1), seg(2, 3, 8, 50, 2), seg(3, 4, 8, 60, 3), seg(4, -2, 8, 4, 4)];
    let route = Route::from_segments(&segments);
    let steps: &Vec<RouteStep> = route.steps();
    assert_eq!(steps.len(), 2);
    assert_eq!((steps[0].from, steps[0].to, steps[0].way, steps[0].distance), (-1, 2, 7, 105));
    assert_eq!((steps[1].from, steps[1].to, steps[1].way, steps[1].distance), (2, -2, 8, 114));
    assert_eq!(steps[1].geometry.len(), 4);
    assert_eq!(steps[1].depth, 4);
    assert_eq!((steps[0].idx, steps[1].idx), (0, 2));
    let total: u64 = steps.iter().map(|s| s.distance).sum();
    assert_eq!(total, segments.iter().map(|s| s.length as u64).sum::<u64>());
}
