//! Turning a route's segments into steps: runs of consecutive segments that
//! follow one way, merged into a single polyline.
use vstd::prelude::*;
use crate::graph::{Coord, NodeId, WayId};
use crate::labels::WayLabels;
use crate::traversal::{Depth, TraversalSegment};

verus! {

/// One run of consecutive segments along a single way.
#[derive(Debug)]
pub struct RouteStep {
    pub geometry: Vec<Coord>,
    pub from: NodeId,
    pub to: NodeId,
    pub way: WayId,
    pub distance: u64,
    pub depth: Depth,
    pub labels: WayLabels,
    pub idx: usize,
}

/// The mathematical content of a step.
pub struct StepView {
    pub geometry: Seq<Coord>,
    pub from: NodeId,
    pub to: NodeId,
    pub way: WayId,
    pub distance: nat,
    pub depth: Depth,
    pub labels: WayLabels,
    pub idx: nat,
}

impl View for RouteStep {
    type V = StepView;

    open spec fn view(&self) -> StepView {
        StepView {
            geometry: self.geometry@,
            from: self.from,
            to: self.to,
            way: self.way,
            distance: self.distance as nat,
            depth: self.depth,
            labels: self.labels,
            idx: self.idx as nat,
        }
    }
}

/// A route as steps.
#[derive(Debug)]
pub struct Route {
    steps: Vec<RouteStep>,
    len: usize,
    last_step_way: WayId,
}

/// The step that a single segment opens.
pub open spec fn step_of(seg: TraversalSegment, idx: nat) -> StepView {
    StepView {
        geometry: seq![seg.from.geometry, seg.to.geometry],
        from: seg.from.id,
        to: seg.to.id,
        way: seg.way,
        distance: seg.length as nat,
        depth: seg.depth,
        labels: seg.labels,
        idx,
    }
}

/// A step lengthened by one more segment on its way.
pub open spec fn extend_step(v: StepView, seg: TraversalSegment) -> StepView {
    StepView {
        geometry: v.geometry.push(seg.to.geometry),
        to: seg.to.id,
        distance: (v.distance + seg.length) as nat,
        depth: seg.depth,
        ..v
    }
}

/// The steps of a non-empty run of segments: a segment on the way of the last
/// step extends it; any other opens a new step, numbered by the count of steps
/// it makes.
pub open spec fn steps_of(segs: Seq<TraversalSegment>) -> Seq<StepView>
    decreases segs.len(),
{
    if segs.len() <= 1 {
        if segs.len() == 0 {
            Seq::empty()
        } else {
            seq![step_of(segs[0], 0)]
        }
    } else {
        let prev = steps_of(segs.drop_last());
        let seg = segs.last();
        let last = prev.last();
        if last.way == seg.way {
            prev.update(prev.len() - 1, extend_step(last, seg))
        } else {
            prev.push(step_of(seg, prev.len() + 1))
        }
    }
}

proof fn lemma_steps_of_shape(segs: Seq<TraversalSegment>)
    requires
        segs.len() >= 1,
    ensures
        1 <= steps_of(segs).len() <= segs.len(),
        steps_of(segs).last().way == segs.last().way,
        forall|i: int|
            0 <= i < steps_of(segs).len() ==> #[trigger] steps_of(segs)[i].distance <= segs.len()
                * (u32::MAX as nat),
    decreases segs.len(),
{
    if segs.len() > 1 {
        let prev = steps_of(segs.drop_last());
        lemma_steps_of_shape(segs.drop_last());
        let n = segs.len();
        assert((n - 1) * (u32::MAX as nat) + (u32::MAX as nat) == n * (u32::MAX as nat))
            by (nonlinear_arith);
        assert((n - 1) * (u32::MAX as nat) <= n * (u32::MAX as nat)) by (nonlinear_arith)
            requires
                n >= 1,
        ;
        assert forall|i: int|
            0 <= i < steps_of(segs).len() implies #[trigger] steps_of(segs)[i].distance <= segs.len()
                * (u32::MAX as nat) by {
            if i < prev.len() {
                assert(prev[i].distance <= (n - 1) * (u32::MAX as nat));
            }
        }
    }
}

impl RouteStep {
    /// The step that one segment opens.
    pub fn new(segment: &TraversalSegment, idx: usize) -> (r: RouteStep)
        ensures
            r@ == step_of(*segment, idx as nat),
    {
        let geometry = vec![segment.from.geometry, segment.to.geometry];
        RouteStep {
            geometry,
            from: segment.from.id,
            to: segment.to.id,
            way: segment.way,
            distance: segment.length as u64,
            depth: segment.depth,
            labels: segment.labels,
            idx,
        }
    }

    /// Lengthens the step by a segment that continues it.
    pub fn extend_with(&mut self, segment: &TraversalSegment)
        requires
            old(self).distance + segment.length <= u64::MAX,
        ensures
            final(self)@ == extend_step(old(self)@, *segment),
    {
        self.geometry.push(segment.to.geometry);
        self.distance = self.distance + segment.length as u64;
        self.to = segment.to.id;
        self.depth = segment.depth;
    }
}

/// The steps after one more segment: it extends the last step when it follows
/// the same way, and opens a new step otherwise.
pub open spec fn push_segment(steps: Seq<StepView>, seg: TraversalSegment) -> Seq<StepView> {
    let last = steps.last();
    if last.way == seg.way {
        steps.update(steps.len() - 1, extend_step(last, seg))
    } else {
        steps.push(step_of(seg, steps.len() + 1))
    }
}

impl Route {
    /// The steps, in travel order.
    pub closed spec fn spec_steps(&self) -> Seq<StepView> {
        self.steps@.map_values(|s: RouteStep| s@)
    }

    /// At least one step, and the cached count and last way agree with the steps.
    pub closed spec fn wf(&self) -> bool {
        &&& self.steps@.len() >= 1
        &&& self.len == self.steps@.len()
        &&& self.last_step_way == self.steps@.last().way
    }

    /// The steps, in travel order.
    pub fn steps(&self) -> (r: &Vec<RouteStep>)
        ensures
            r@.map_values(|s: RouteStep| s@) == self.spec_steps(),
    {
        &self.steps
    }

    /// A route of one step, opened by `segment`.
    pub fn new(segment: &TraversalSegment) -> (r: Route)
        ensures
            r.wf(),
            r.spec_steps() == seq![step_of(*segment, 0)],
    {
        let steps = vec![RouteStep::new(segment, 0)];
        let r = Route { steps, len: 1, last_step_way: segment.way };
        assert(r.spec_steps() =~= seq![step_of(*segment, 0)]);
        r
    }

    /// Adds a segment: it extends the last step when it follows the same way,
    /// and opens a new step otherwise.
    pub fn extend_with(&mut self, segment: &TraversalSegment)
        requires
            old(self).wf(),
            old(self).spec_steps().len() < usize::MAX,
            old(self).spec_steps().last().distance + segment.length <= u64::MAX,
        ensures
            final(self).wf(),
            final(self).spec_steps() == push_segment(old(self).spec_steps(), *segment),
    {
        let ghost before = self.spec_steps();
        if self.last_step_way == segment.way {
            proof {
                assert(self.steps@.map_values(|s: RouteStep| s@)[self.len - 1]
                    == self.steps@[self.len - 1]@);
            }
            let mut last = self.steps.pop().unwrap();
            last.extend_with(segment);
            self.steps.push(last);
            proof {
                assert(self.spec_steps() =~= push_segment(before, *segment));
            }
        } else {
            self.len = self.len + 1;
            self.last_step_way = segment.way;
            self.steps.push(RouteStep::new(segment, self.len));
            proof {
                assert(self.spec_steps() =~= push_segment(before, *segment));
            }
        }
    }

    /// Merges a non-empty run of segments into steps.
    pub fn from_segments(segments: &Vec<TraversalSegment>) -> (r: Route)
        requires
            1 <= segments@.len() <= u32::MAX,
        ensures
            r.wf(),
            r.spec_steps() == steps_of(segments@),
    {
        let mut route = Route::new(&segments[0]);
        proof {
            assert(segments@.subrange(0, 1) =~= seq![segments@[0]]);
        }
        let mut i: usize = 1;
        while i < segments.len()
            invariant
                1 <= i <= segments@.len() <= u32::MAX,
                route.wf(),
                route.spec_steps() == steps_of(segments@.subrange(0, i as int)),
            decreases segments@.len() - i,
        {
            let ghost pre = segments@.subrange(0, i as int);
            let ghost cur = segments@.subrange(0, i + 1);
            proof {
                assert(cur.drop_last() =~= pre);
                lemma_steps_of_shape(pre);
                assert(steps_of(pre).last().distance <= i * (u32::MAX as nat));
                assert(i * (u32::MAX as nat) + (u32::MAX as nat) <= u64::MAX) by (nonlinear_arith)
                    requires
                        i <= u32::MAX,
                ;
            }
            route.extend_with(&segments[i]);
            i = i + 1;
        }
        proof {
            assert(segments@.subrange(0, segments@.len() as int) =~= segments@);
        }
        route
    }
}

} // verus!
