//! Derivation of way labels from OpenStreetMap tags.
use vstd::prelude::*;
use crate::labels::{Cycleway, Road, Salmoning, WayLabels};
use crate::text::str_eq;

verus! {

/// The relevant OSM tags of one way, each `"none"` when the way lacks it.
#[derive(Debug)]
pub struct OSMMapper {
    pub way: i64,
    pub highway: String,
    pub bicycle: String,
    pub oneway: String,
    pub cycleway_right: String,
    pub cycleway_left: String,
    pub cycleway_both: String,
    pub cycleway_right_oneway: String,
    pub cycleway_left_oneway: String,
    pub oneway_bicycle: String,
}

/// The value of `key` in a tag list: the first pair with that key, else `"none"`.
pub open spec fn tag_value(tags: Seq<(String, String)>, key: Seq<char>) -> Seq<char>
    decreases tags.len(),
{
    if tags.len() == 0 {
        "none"@
    } else if tags[0].0@ == key {
        tags[0].1@
    } else {
        tag_value(tags.drop_first(), key)
    }
}

/// The road class that a `highway` tag value names.
pub open spec fn road_of_highway(h: Seq<char>) -> Road {
    if h == "pedestrian"@ || h == "crossing"@ || h == "corridor"@ || h == "footway"@ || h
        == "path"@ {
        Road::Pedestrian
    } else if h == "cycleway"@ {
        Road::Bike
    } else if h == "residential"@ || h == "living_street"@ || h == "unclassified"@ || h
        == "service"@ || h == "track"@ {
        Road::Local
    } else if h == "primary"@ || h == "primary_link"@ {
        Road::Arterial
    } else {
        Road::Collector
    }
}

/// The infrastructure class that a `cycleway*` tag value names.
pub open spec fn cycleway_of_tag(v: Seq<char>) -> Cycleway {
    if v == "track"@ || v == "separate"@ {
        Cycleway::Track
    } else if v == "lane"@ || v == "shoulder"@ || v == "opposite_lane"@ {
        Cycleway::Lane
    } else if v == "shared_lane"@ || v == "share_busway"@ {
        Cycleway::Shared
    } else {
        Cycleway::No
    }
}

/// Labels of a designated bike path: a one-way path unless tagged otherwise.
pub open spec fn designated_labels(m: OSMMapper) -> (Cycleway, Cycleway, Salmoning) {
    if m.oneway@ == "no"@ || m.oneway_bicycle@ == "no"@ {
        (Cycleway::Track, Cycleway::Track, false)
    } else {
        (Cycleway::Track, Cycleway::Track, true)
    }
}

/// On a one-way road: labels taken from bike infrastructure on one side
/// that runs with traffic, with an explicit reverse lane on the opposite side.
pub open spec fn side_labels(
    m: OSMMapper,
    side: Seq<char>,
    side_oneway: Seq<char>,
    opposite: Seq<char>,
    opposite_oneway: Seq<char>,
) -> Option<(Cycleway, Cycleway, Salmoning)> {
    if side != "none"@ && side != "no"@ && side_oneway != "-1"@ {
        let c = cycleway_of_tag(side);
        if opposite_oneway == "-1"@ {
            Some((c, cycleway_of_tag(opposite), false))
        } else {
            Some((c, c, !(side_oneway == "no"@ || m.oneway_bicycle@ == "no"@)))
        }
    } else {
        None
    }
}

/// Labels of a one-way road.
pub open spec fn oneway_labels(m: OSMMapper) -> (Cycleway, Cycleway, Salmoning) {
    let right = side_labels(
        m,
        m.cycleway_right@,
        m.cycleway_right_oneway@,
        m.cycleway_left@,
        m.cycleway_left_oneway@,
    );
    let left = side_labels(
        m,
        m.cycleway_left@,
        m.cycleway_left_oneway@,
        m.cycleway_right@,
        m.cycleway_right_oneway@,
    );
    if right is Some {
        right->0
    } else if left is Some {
        left->0
    } else if m.cycleway_right_oneway@ == "-1"@ {
        (Cycleway::No, cycleway_of_tag(m.cycleway_right@), false)
    } else if m.cycleway_left_oneway@ == "-1"@ {
        (Cycleway::No, cycleway_of_tag(m.cycleway_left@), false)
    } else {
        (Cycleway::No, Cycleway::No, true)
    }
}

/// Labels of a road open to traffic in both directions.
pub open spec fn bidirectional_labels(m: OSMMapper) -> (Cycleway, Cycleway, Salmoning) {
    if m.cycleway_left_oneway@ == "no"@ {
        let c = cycleway_of_tag(m.cycleway_left@);
        (c, c, false)
    } else if m.cycleway_right_oneway@ == "no"@ {
        let c = cycleway_of_tag(m.cycleway_right@);
        (c, c, false)
    } else {
        (cycleway_of_tag(m.cycleway_right@), cycleway_of_tag(m.cycleway_left@), false)
    }
}

/// Forward cycleway, reverse cycleway, and whether the reverse direction is
/// counter-flow.
pub open spec fn cycleways_and_directionality(m: OSMMapper) -> (Cycleway, Cycleway, Salmoning) {
    if m.cycleway_both@ != "none"@ {
        let c = cycleway_of_tag(m.cycleway_both@);
        (c, c, false)
    } else if m.highway@ == "cycleway"@ || m.bicycle@ == "designated"@ {
        designated_labels(m)
    } else if m.oneway@ == "yes"@ {
        oneway_labels(m)
    } else {
        bidirectional_labels(m)
    }
}

/// The labels of the positive (`forward`) and negative (`!forward`) twins of a way.
pub open spec fn way_labels_of(m: OSMMapper, forward: bool) -> WayLabels {
    let (f, r, salmon) = cycleways_and_directionality(m);
    let road = road_of_highway(m.highway@);
    if forward {
        (f, road, false)
    } else {
        (r, road, salmon)
    }
}

/// Looks up `key` in a tag list, with `"none"` for a missing tag.
fn tag_or_none(tags: &Vec<(String, String)>, key: &str) -> (r: String)
    ensures
        r@ == tag_value(tags@, key@),
{
    let mut i: usize = 0;
    assert(tags@.subrange(0, tags@.len() as int) =~= tags@);
    while i < tags.len()
        invariant
            i <= tags@.len(),
            tag_value(tags@, key@) == tag_value(tags@.subrange(i as int, tags@.len() as int), key@),
        decreases tags@.len() - i,
    {
        proof {
            let rest = tags@.subrange(i as int, tags@.len() as int);
            assert(rest.drop_first() =~= tags@.subrange(i + 1, tags@.len() as int));
        }
        if str_eq(tags[i].0.as_str(), key) {
            return tags[i].1.clone();
        }
        i = i + 1;
    }
    "none".to_owned()
}

impl OSMMapper {
    /// Collects the tags that labelling reads from a way's tag list.
    pub fn from_tags(way: i64, tags: &Vec<(String, String)>) -> (r: OSMMapper)
        ensures
            r.way == way,
            r.highway@ == tag_value(tags@, "highway"@),
            r.bicycle@ == tag_value(tags@, "bicycle"@),
            r.oneway@ == tag_value(tags@, "oneway"@),
            r.cycleway_right@ == tag_value(tags@, "cycleway:right"@),
            r.cycleway_left@ == tag_value(tags@, "cycleway:left"@),
            r.cycleway_both@ == tag_value(tags@, "cycleway:both"@),
            r.cycleway_right_oneway@ == tag_value(tags@, "cycleway:right:oneway"@),
            r.cycleway_left_oneway@ == tag_value(tags@, "cycleway:left:oneway"@),
            r.oneway_bicycle@ == tag_value(tags@, "oneway:bicycle"@),
    {
        OSMMapper {
            way,
            highway: tag_or_none(tags, "highway"),
            bicycle: tag_or_none(tags, "bicycle"),
            oneway: tag_or_none(tags, "oneway"),
            cycleway_right: tag_or_none(tags, "cycleway:right"),
            cycleway_left: tag_or_none(tags, "cycleway:left"),
            cycleway_both: tag_or_none(tags, "cycleway:both"),
            cycleway_right_oneway: tag_or_none(tags, "cycleway:right:oneway"),
            cycleway_left_oneway: tag_or_none(tags, "cycleway:left:oneway"),
            oneway_bicycle: tag_or_none(tags, "oneway:bicycle"),
        }
    }

    /// The road class of this way.
    pub fn get_road_label(&self) -> (r: Road)
        ensures
            r == road_of_highway(self.highway@),
    {
        let h = self.highway.as_str();
        if str_eq(h, "pedestrian") || str_eq(h, "crossing") || str_eq(h, "corridor") || str_eq(
            h,
            "footway",
        ) || str_eq(h, "path") {
            Road::Pedestrian
        } else if str_eq(h, "cycleway") {
            Road::Bike
        } else if str_eq(h, "residential") || str_eq(h, "living_street") || str_eq(
            h,
            "unclassified",
        ) || str_eq(h, "service") || str_eq(h, "track") {
            Road::Local
        } else if str_eq(h, "primary") || str_eq(h, "primary_link") {
            Road::Arterial
        } else {
            Road::Collector
        }
    }

    /// Forward cycleway, reverse cycleway, and whether travel in the reverse
    /// direction is counter-flow.
    pub fn get_cycleways_and_directionality(&self) -> (r: (Cycleway, Cycleway, Salmoning))
        ensures
            r == cycleways_and_directionality(*self),
    {
        if let Some(cycleway) = self.get_cycleway_if_specified(self.cycleway_both.as_str()) {
            return (cycleway, cycleway, false);
        }
        if str_eq(self.highway.as_str(), "cycleway") || str_eq(self.bicycle.as_str(), "designated") {
            return self.handle_designated_paths();
        }
        if str_eq(self.oneway.as_str(), "yes") {
            return self.handle_oneway_roads();
        }
        self.handle_bidirectional_roads()
    }

    /// The labels of the way's positive twin and of its negative twin.
    pub fn get_way_labels(&self) -> (r: (WayLabels, WayLabels))
        ensures
            r.0 == way_labels_of(*self, true),
            r.1 == way_labels_of(*self, false),
    {
        let road = self.get_road_label();
        let (forward, reverse, salmon) = self.get_cycleways_and_directionality();
        ((forward, road, false), (reverse, road, salmon))
    }

    fn get_cycleway_from_tag(&self, val: &str) -> (r: Cycleway)
        ensures
            r == cycleway_of_tag(val@),
    {
        if str_eq(val, "track") || str_eq(val, "separate") {
            Cycleway::Track
        } else if str_eq(val, "lane") || str_eq(val, "shoulder") || str_eq(val, "opposite_lane") {
            Cycleway::Lane
        } else if str_eq(val, "shared_lane") || str_eq(val, "share_busway") {
            Cycleway::Shared
        } else {
            Cycleway::No
        }
    }

    fn get_cycleway_if_specified(&self, tag: &str) -> (r: Option<Cycleway>)
        ensures
            r == (if tag@ != "none"@ {
                Some(cycleway_of_tag(tag@))
            } else {
                None
            }),
    {
        if !str_eq(tag, "none") {
            Some(self.get_cycleway_from_tag(tag))
        } else {
            None
        }
    }

    fn handle_designated_paths(&self) -> (r: (Cycleway, Cycleway, Salmoning))
        ensures
            r == designated_labels(*self),
    {
        if str_eq(self.oneway.as_str(), "no") || str_eq(self.oneway_bicycle.as_str(), "no") {
            (Cycleway::Track, Cycleway::Track, false)
        } else {
            (Cycleway::Track, Cycleway::Track, true)
        }
    }

    fn handle_oneway_roads(&self) -> (r: (Cycleway, Cycleway, Salmoning))
        ensures
            r == oneway_labels(*self),
    {
        if let Some(labels) = self.check_cycleway_side(
            self.cycleway_right.as_str(),
            self.cycleway_right_oneway.as_str(),
            self.cycleway_left.as_str(),
            self.cycleway_left_oneway.as_str(),
        ) {
            return labels;
        }
        if let Some(labels) = self.check_cycleway_side(
            self.cycleway_left.as_str(),
            self.cycleway_left_oneway.as_str(),
            self.cycleway_right.as_str(),
            self.cycleway_right_oneway.as_str(),
        ) {
            return labels;
        }
        if let Some(reverse) = self.get_cycleway_if_contraflow(
            self.cycleway_right_oneway.as_str(),
            self.cycleway_right.as_str(),
        ) {
            return (Cycleway::No, reverse, false);
        }
        if let Some(reverse) = self.get_cycleway_if_contraflow(
            self.cycleway_left_oneway.as_str(),
            self.cycleway_left.as_str(),
        ) {
            return (Cycleway::No, reverse, false);
        }
        (Cycleway::No, Cycleway::No, true)
    }

    fn check_cycleway_side(
        &self,
        cycleway_side: &str,
        cycleway_side_oneway: &str,
        opposite_side: &str,
        opposite_side_oneway: &str,
    ) -> (r: Option<(Cycleway, Cycleway, Salmoning)>)
        ensures
            r == side_labels(
                *self,
                cycleway_side@,
                cycleway_side_oneway@,
                opposite_side@,
                opposite_side_oneway@,
            ),
    {
        if !str_eq(cycleway_side, "none") && !str_eq(cycleway_side, "no") && !str_eq(
            cycleway_side_oneway,
            "-1",
        ) {
            let cycleway = self.get_cycleway_from_tag(cycleway_side);
            let mut salmon = true;
            if str_eq(cycleway_side_oneway, "no") || str_eq(self.oneway_bicycle.as_str(), "no") {
                salmon = false;
            }
            let mut reverse_cycleway = cycleway;
            if str_eq(opposite_side_oneway, "-1") {
                reverse_cycleway = self.get_cycleway_from_tag(opposite_side);
                salmon = false;
            }
            return Some((cycleway, reverse_cycleway, salmon));
        }
        None
    }

    fn get_cycleway_if_contraflow(&self, oneway_tag: &str, cycleway_tag: &str) -> (r: Option<
        Cycleway,
    >)
        ensures
            r == (if oneway_tag@ == "-1"@ {
                Some(cycleway_of_tag(cycleway_tag@))
            } else {
                None
            }),
    {
        if str_eq(oneway_tag, "-1") {
            Some(self.get_cycleway_from_tag(cycleway_tag))
        } else {
            None
        }
    }

    fn handle_bidirectional_roads(&self) -> (r: (Cycleway, Cycleway, Salmoning))
        ensures
            r == bidirectional_labels(*self),
    {
        if let Some(cycleway) = self.get_cycleway_if_bidirectional(
            self.cycleway_left.as_str(),
            self.cycleway_left_oneway.as_str(),
        ) {
            return (cycleway, cycleway, false);
        }
        if let Some(cycleway) = self.get_cycleway_if_bidirectional(
            self.cycleway_right.as_str(),
            self.cycleway_right_oneway.as_str(),
        ) {
            return (cycleway, cycleway, false);
        }
        let forward_cycleway = self.get_cycleway_from_tag(self.cycleway_right.as_str());
        let reverse_cycleway = self.get_cycleway_from_tag(self.cycleway_left.as_str());
        (forward_cycleway, reverse_cycleway, false)
    }

    fn get_cycleway_if_bidirectional(&self, cycleway_tag: &str, oneway_tag: &str) -> (r: Option<
        Cycleway,
    >)
        ensures
            r == (if oneway_tag@ == "no"@ {
                Some(cycleway_of_tag(cycleway_tag@))
            } else {
                None
            }),
    {
        if str_eq(oneway_tag, "no") {
            Some(self.get_cycleway_from_tag(cycleway_tag))
        } else {
            None
        }
    }
}

/// Whenever the reverse twin of a way is counter-flow, both twins have the
/// same infrastructure and road class: the twins differ only in direction.
pub proof fn lemma_salmon_twins_match(m: OSMMapper)
    requires
        way_labels_of(m, false).2,
    ensures
        way_labels_of(m, false).0 == way_labels_of(m, true).0,
        way_labels_of(m, false).1 == way_labels_of(m, true).1,
        !way_labels_of(m, true).2,
{
}

} // verus!
