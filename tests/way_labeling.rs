use rusty_router::graph::Graph;
use rusty_router::labels::{Cycleway, Road, WayLabels};
use rusty_router::mapping::OSMMapper;

fn tags(pairs: &[(&str, &str)]) -> Vec<(String, String)> {
    pairs.iter().map(|(k, v)| (k.to_string(), v.to_string())).collect()
}

/// Labels a way from its tags, stores both twins, and reads them back.
fn store_with(way: i64, pairs: &[(&str, &str)]) -> Graph {
    let mapper = OSMMapper::from_tags(way, &tags(pairs));
    let (forward, reverse) = mapper.get_way_labels();
    let mut graph = Graph::new();
    graph.add_way_labels(way, forward, reverse).unwrap();
    graph
}

fn assert_helper(expected: WayLabels, actual: Option<WayLabels>, header: i64) {
    assert!(Some(expected) == actual, "{header} | expected: {:?}, actual: {:?}", expected, actual)
}

#[test]
fn bidirectional_road_w_one_bike_lane() {
    let way = 654744285;
    let graph = store_with(
        way,
        &[("highway", "residential"), ("cycleway:right", "lane"), ("cycleway:left", "shared_lane")],
    );
    assert_helper((Cycleway::Lane, Road::Local, false), graph.get_way_labels(way), way);
    assert_helper((Cycleway::Shared, Road::Local, false), graph.get_way_labels(-way), -way);
}

#[test]
fn bidirectional_road_w_two_different_bike_lanes() {
    let way = 494221659;
    let graph = store_with(
        way,
        &[("highway", "secondary"), ("cycleway:right", "shared_lane"), ("cycleway:left", "lane")],
    );
    assert_helper((Cycleway::Shared, Road::Collector, false), graph.get_way_labels(way), way);
    assert_helper((Cycleway::Lane, Road::Collector, false), graph.get_way_labels(-way), -way);
}

#[test]
fn bidirectional_road_w_bidirectional_bike_lane() {
    let way = 464964299;
    let graph = store_with(
        way,
        &[("highway", "tertiary"), ("cycleway:left", "track"), ("cycleway:left:oneway", "no")],
    );
    assert_helper((Cycleway::Track, Road::Collector, false), graph.get_way_labels(way), way);
    assert_helper((Cycleway::Track, Road::Collector, false), graph.get_way_labels(-way), -way);
}

#[test]
fn bidirectional_road_w_shared_bike_lane_both_ways() {
    let way = 68523765;
    let graph = store_with(way, &[("highway", "secondary"), ("cycleway:both", "shared_lane")]);
    assert_helper((Cycleway::Shared, Road::Collector, false), graph.get_way_labels(way), way);
    assert_helper((Cycleway::Shared, Road::Collector, false), graph.get_way_labels(-way), -way);
}

#[test]
fn bidirectional_arterial_w_no_bike_infra() {
    let way = 420880039;
    let graph = store_with(way, &[("highway", "primary"), ("cycleway:both", "share_busway")]);
    assert_helper((Cycleway::Shared, Road::Arterial, false), graph.get_way_labels(way), way);
    assert_helper((Cycleway::Shared, Road::Arterial, false), graph.get_way_labels(-way), -way);
}

#[test]
fn one_way_road_w_left_side_bike_lane() {
    let way = 844446016;
    let graph = store_with(
        way,
        &[("highway", "residential"), ("oneway", "yes"), ("cycleway:left", "lane")],
    );
    assert_helper((Cycleway::Lane, Road::Local, false), graph.get_way_labels(way), way);
    assert_helper((Cycleway::Lane, Road::Local, true), graph.get_way_labels(-way), -way);
}

#[test]
fn one_way_road_w_right_side_bike_lane() {
    let way = 420572575;
    let graph = store_with(
        way,
        &[("highway", "secondary"), ("oneway", "yes"), ("cycleway:right", "track")],
    );
    assert_helper((Cycleway::Track, Road::Collector, false), graph.get_way_labels(way), way);
    assert_helper((Cycleway::Track, Road::Collector, true), graph.get_way_labels(-way), -way);
}

#[test]
fn one_way_road_w_bidirectional_bike_lane() {
    let way = 1031982495;
    let graph = store_with(
        way,
        &[
            ("highway", "tertiary"),
            ("oneway", "yes"),
            ("cycleway:left", "track"),
            ("cycleway:left:oneway", "no"),
        ],
    );
    assert_helper((Cycleway::Track, Road::Collector, false), graph.get_way_labels(way), way);
    assert_helper((Cycleway::Track, Road::Collector, false), graph.get_way_labels(-way), -way);
}

#[test]
fn one_way_road_w_single_contraflow_bike_lane() {
    let way = 455014439;
    let graph = store_with(
        way,
        &[
            ("highway", "residential"),
            ("oneway", "yes"),
            ("cycleway:right", "shared_lane"),
            ("cycleway:left", "track"),
            ("cycleway:left:oneway", "-1"),
        ],
    );
    assert_helper((Cycleway::Shared, Road::Local, false), graph.get_way_labels(way), way);
    assert_helper((Cycleway::Track, Road::Local, false), graph.get_way_labels(-way), -way);
}

#[test]
fn one_way_road_w_contraflow_bidirectional_bike_lane() {
    let way = 1258745670;
    let graph = store_with(
        way,
        &[
            ("highway", "residential"),
            ("oneway", "yes"),
            ("cycleway:right", "shared_lane"),
            ("cycleway:left", "opposite_lane"),
            ("cycleway:left:oneway", "-1"),
        ],
    );
    assert_helper((Cycleway::Shared, Road::Local, false), graph.get_way_labels(way), way);
    assert_helper((Cycleway::Lane, Road::Local, false), graph.get_way_labels(-way), -way);
}

#[test]
fn bidirectional_bike_lane() {
    let way = 505864686;
    let graph = store_with(way, &[("highway", "cycleway"), ("oneway", "no")]);
    assert_helper((Cycleway::Track, Road::Bike, false), graph.get_way_labels(way), way);
    assert_helper((Cycleway::Track, Road::Bike, false), graph.get_way_labels(-way), -way);
}

#[test]
fn oneway_bike_lane() {
    let way = 1232753103;
    let graph = store_with(way, &[("highway", "cycleway")]);
    assert_helper((Cycleway::Track, Road::Bike, false), graph.get_way_labels(way), way);
    assert_helper((Cycleway::Track, Road::Bike, true), graph.get_way_labels(-way), -way);
}

#[test]
fn untagged_way_has_no_infrastructure() {
    let mapper = OSMMapper::from_tags(7, &tags(&[]));
    assert_eq!(mapper.highway, "none");
    assert_eq!(mapper.get_road_label(), Road::Collector);
    assert_eq!(mapper.get_cycleways_and_directionality(), (Cycleway::No, Cycleway::No, false));
}

#[test]
fn oneway_road_without_lanes_is_salmon_in_reverse() {
    let mapper = OSMMapper::from_tags(8, &tags(&[("highway", "residential"), ("oneway", "yes")]));
    assert_eq!(mapper.get_cycleways_and_directionality(), (Cycleway::No, Cycleway::No, true));
}

#[test]
fn oneway_bicycle_exemption_lifts_salmon() {
    let mapper = OSMMapper::from_tags(
        9,
        &tags(&[
            ("highway", "residential"),
            ("oneway", "yes"),
            ("oneway:bicycle", "no"),
            ("cycleway:right", "lane"),
        ]),
    );
    assert_eq!(mapper.get_cycleways_and_directionality(), (Cycleway::Lane, Cycleway::Lane, false));
}

#[test]
fn road_classes_follow_highway_tag() {
    let cases = [
        ("footway", Road::Pedestrian),
        ("cycleway", Road::Bike),
        ("service", Road::Local),
        ("tertiary_link", Road::Collector),
        ("primary_link", Road::Arterial),
        ("motorway", Road::Collector),
    ];
    for (h, expected) in cases {
        let mapper = OSMMapper::from_tags(1, &tags(&[("highway", h)]));
        assert_eq!(mapper.get_road_label(), expected, "{h}");
    }
}

#[test]
fn first_tag_of_a_key_wins() {
    let mapper = OSMMapper::from_tags(
        2,
        &tags(&[("highway", "primary"), ("highway", "footway"), ("oneway", "yes")]),
    );
    assert_eq!(mapper.highway, "primary");
    assert_eq!(mapper.oneway, "yes");
    assert_eq!(mapper.bicycle, "none");
}

#[test]
fn labels_are_recorded_once_per_way() {
    let mut graph = Graph::new();
    let l = (Cycleway::Lane, Road::Local, false);
    assert!(graph.add_way_labels(5, l, l).is_ok());
    assert!(graph.add_way_labels(5, l, l).is_err());
    assert!(graph.add_way_labels(-6, l, l).is_err());
    assert!(graph.add_way_labels(0, l, l).is_err());
    assert_eq!(graph.get_way_labels(6), None);
}

#[test]
fn ordinals_round_trip() {
    for v in 0..4 {
        assert_eq!(Cycleway::from_ordinal(v).unwrap().ordinal() as i64, v);
    }
    for v in 0..5 {
        assert_eq!(Road::from_ordinal(v).unwrap().ordinal() as i64, v);
    }
    assert_eq!(Cycleway::from_ordinal(4), None);
    assert_eq!(Road::from_ordinal(-1), None);
}
