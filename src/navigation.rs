//! Lean navigation steps: a route's runs of one way, each with its street name.
use vstd::prelude::*;
use std::collections::HashMap;
use crate::geojson::{steps_of, Route, RouteStep};
use crate::graph::{Coord, WayId};
use crate::labels::WayLabels;
use crate::traversal::TraversalSegment;

verus! {

broadcast use vstd::std_specs::hash::group_hash_axioms;

/// One run of a route along a single way, with the way's name.
#[derive(Debug)]
pub struct NavigationStep {
    pub geometry: Vec<Coord>,
    pub distance: u64,
    pub way_name: String,
    pub labels: WayLabels,
}

/// The name a table gives a way; empty for a way it lacks.
pub open spec fn name_of(names: Map<WayId, String>, way: WayId) -> Seq<char> {
    if names.contains_key(way) {
        names[way]@
    } else {
        Seq::empty()
    }
}

fn lookup_name(way_names: &HashMap<WayId, String>, way: WayId) -> (r: String)
    ensures
        r@ == name_of(way_names@, way),
{
    match way_names.get(&way) {
        Some(name) => name.clone(),
        None => String::new(),
    }
}

impl NavigationStep {
    /// The step that one segment opens.
    pub fn new(segment: &TraversalSegment, way_names: &HashMap<WayId, String>) -> (r: NavigationStep)
        ensures
            r.geometry@ == seq![segment.from.geometry, segment.to.geometry],
            r.distance == segment.length,
            r.way_name@ == name_of(way_names@, segment.way),
            r.labels == segment.labels,
    {
        NavigationStep {
            geometry: vec![segment.from.geometry, segment.to.geometry],
            distance: segment.length as u64,
            way_name: lookup_name(way_names, segment.way),
            labels: segment.labels,
        }
    }

    /// Lengthens the step by a segment that continues it.
    pub fn extend_with(&mut self, segment: &TraversalSegment)
        requires
            old(self).distance + segment.length <= u64::MAX,
        ensures
            final(self).geometry@ == old(self).geometry@.push(segment.to.geometry),
            final(self).distance == old(self).distance + segment.length,
            final(self).way_name == old(self).way_name,
            final(self).labels == old(self).labels,
    {
        self.geometry.push(segment.to.geometry);
        self.distance = self.distance + segment.length as u64;
    }

    /// The named form of a route step.
    fn from_route_step(step: &RouteStep, way_names: &HashMap<WayId, String>) -> (r: NavigationStep)
        ensures
            r.geometry@ == step@.geometry,
            r.distance == step@.distance,
            r.way_name@ == name_of(way_names@, step.way),
            r.labels == step.labels,
    {
        let mut geometry: Vec<Coord> = Vec::new();
        let mut i: usize = 0;
        while i < step.geometry.len()
            invariant
                i <= step.geometry@.len(),
                geometry@ == step.geometry@.subrange(0, i as int),
            decreases step.geometry@.len() - i,
        {
            geometry.push(step.geometry[i]);
            i = i + 1;
            assert(geometry@ =~= step.geometry@.subrange(0, i as int));
        }
        assert(geometry@ =~= step.geometry@);
        NavigationStep {
            geometry,
            distance: step.distance,
            way_name: lookup_name(way_names, step.way),
            labels: step.labels,
        }
    }
}

/// Merges a non-empty route into named steps, one per run of consecutive
/// segments along the same way.
pub fn build_navigation_steps(
    segments: &Vec<TraversalSegment>,
    way_names: &HashMap<WayId, String>,
) -> (r: Vec<NavigationStep>)
    requires
        1 <= segments@.len() <= u32::MAX,
    ensures
        r@.len() == steps_of(segments@).len(),
        forall|i: int|
            0 <= i < r@.len() ==> {
                let s = #[trigger] steps_of(segments@)[i];
                &&& r@[i].geometry@ == s.geometry
                &&& r@[i].distance == s.distance
                &&& r@[i].way_name@ == name_of(way_names@, s.way)
                &&& r@[i].labels == s.labels
            },
{
    let route = Route::from_segments(segments);
    let steps = route.steps();
    let ghost views = steps@.map_values(|s: RouteStep| s@);
    let mut out: Vec<NavigationStep> = Vec::new();
    let mut i: usize = 0;
    while i < steps.len()
        invariant
            views == steps_of(segments@),
            views == steps@.map_values(|s: RouteStep| s@),
            i <= steps@.len(),
            out@.len() == i,
            forall|j: int|
                0 <= j < i ==> {
                    let s = #[trigger] steps_of(segments@)[j];
                    &&& out@[j].geometry@ == s.geometry
                    &&& out@[j].distance == s.distance
                    &&& out@[j].way_name@ == name_of(way_names@, s.way)
                    &&& out@[j].labels == s.labels
                },
        decreases steps@.len() - i,
    {
        assert(views[i as int] == steps@[i as int]@);
        out.push(NavigationStep::from_route_step(&steps[i], way_names));
        i = i + 1;
    }
    out
}

} // verus!
