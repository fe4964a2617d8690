//! The cost model: a weighted function from way labels to a per-meter cost factor.
//!
//! All coefficients and weights are fixed-point numbers in thousandths, so a
//! stored `300` stands for `0.3`. A cost factor is the product of two such
//! numbers and one more, and so is in billionths.
use vstd::prelude::*;
use crate::error::RoutingError;
use crate::labels::{
    cycleway_ord, road_ord, Cycleway, Road, WayLabels, CYCLEWAY_COUNT, ROAD_COUNT,
};
use crate::text::str_eq;

verus! {

/// The fixed-point denominator of coefficients and weights.
pub const UNIT: u64 = 1000;

/// The largest coefficient or weight a model accepts (a thousand units).
pub const MAX_PARAM: u64 = 1000000;

/// The largest cost factor any well-formed model yields.
pub const MAX_FACTOR: u64 = 2000000000000000000;

/// A cost model with weights indexed by variant ordinal.
#[derive(Debug, Clone, Copy)]
pub struct CostModel {
    pub cycleway_coefficient: u64,
    pub road_coefficient: u64,
    pub salmon_coefficient: u64,
    pub cycleway_weights: [u64; 4],
    pub road_weights: [u64; 5],
}

/// A cost model as a caller supplies it: weights keyed by variant name.
/// A later entry for the same variant replaces an earlier one.
#[derive(Debug)]
pub struct CostModelConfig {
    pub cycleway_coefficient: u64,
    pub road_coefficient: u64,
    pub salmon_coefficient: u64,
    pub cycleway_weights: Vec<(String, u64)>,
    pub road_weights: Vec<(String, u64)>,
}

impl CostModel {
    /// Every number lies within `MAX_PARAM`.
    pub open spec fn wf(&self) -> bool {
        &&& self.cycleway_coefficient <= MAX_PARAM
        &&& self.road_coefficient <= MAX_PARAM
        &&& self.salmon_coefficient <= MAX_PARAM
        &&& forall|i: int| 0 <= i < CYCLEWAY_COUNT ==> self.cycleway_weights@[i] <= MAX_PARAM
        &&& forall|i: int| 0 <= i < ROAD_COUNT ==> self.road_weights@[i] <= MAX_PARAM
    }
}

/// `(cycleway_coeff * cycleway_weight + road_coeff * road_weight)`, scaled by the
/// salmon coefficient on counter-flow edges, in billionths.
pub open spec fn cost_factor(m: CostModel, labels: WayLabels) -> nat {
    let c = m.cycleway_coefficient * m.cycleway_weights@[cycleway_ord(labels.0) as int]
        + m.road_coefficient * m.road_weights@[road_ord(labels.1) as int];
    let s = if labels.2 {
        m.salmon_coefficient as int
    } else {
        UNIT as int
    };
    (c * s) as nat
}

/// The cost of traversing an edge: its cost factor times its length in meters.
pub open spec fn edge_cost(m: CostModel, labels: WayLabels, length: nat) -> nat {
    cost_factor(m, labels) * length
}

/// The documented default model.
pub open spec fn default_model() -> CostModel {
    CostModel {
        cycleway_coefficient: 300,
        road_coefficient: 400,
        salmon_coefficient: 1300,
        cycleway_weights: [1700, 1500, 1000, 500],
        road_weights: [1200, 500, 1200, 1400, 2000],
    }
}

/// The cycleway that a wire name denotes.
pub open spec fn cycleway_named(s: Seq<char>) -> Option<Cycleway> {
    if s == "None"@ {
        Some(Cycleway::No)
    } else if s == "Shared"@ {
        Some(Cycleway::Shared)
    } else if s == "Lane"@ {
        Some(Cycleway::Lane)
    } else if s == "Track"@ {
        Some(Cycleway::Track)
    } else {
        None
    }
}

/// The road class that a wire name denotes.
pub open spec fn road_named(s: Seq<char>) -> Option<Road> {
    if s == "Pedestrian"@ {
        Some(Road::Pedestrian)
    } else if s == "Bike"@ {
        Some(Road::Bike)
    } else if s == "Local"@ {
        Some(Road::Local)
    } else if s == "Collector"@ {
        Some(Road::Collector)
    } else if s == "Arterial"@ {
        Some(Road::Arterial)
    } else {
        None
    }
}

/// The weight of the last entry whose name denotes the cycleway of ordinal `k`, else 0.
pub open spec fn cycleway_weight_in(entries: Seq<(String, u64)>, k: nat) -> u64
    decreases entries.len(),
{
    if entries.len() == 0 {
        0
    } else {
        let e = entries.last();
        if cycleway_named(e.0@) matches Some(c) && cycleway_ord(c) == k {
            e.1
        } else {
            cycleway_weight_in(entries.drop_last(), k)
        }
    }
}

/// The weight of the last entry whose name denotes the road of ordinal `k`, else 0.
pub open spec fn road_weight_in(entries: Seq<(String, u64)>, k: nat) -> u64
    decreases entries.len(),
{
    if entries.len() == 0 {
        0
    } else {
        let e = entries.last();
        if road_named(e.0@) matches Some(r) && road_ord(r) == k {
            e.1
        } else {
            road_weight_in(entries.drop_last(), k)
        }
    }
}

/// Whether a configuration names only known variants and holds only numbers in range.
pub open spec fn config_valid(c: CostModelConfig) -> bool {
    &&& c.cycleway_coefficient <= MAX_PARAM
    &&& c.road_coefficient <= MAX_PARAM
    &&& c.salmon_coefficient <= MAX_PARAM
    &&& forall|i: int|
        0 <= i < c.cycleway_weights@.len() ==> cycleway_named(c.cycleway_weights@[i].0@) is Some
            && c.cycleway_weights@[i].1 <= MAX_PARAM
    &&& forall|i: int|
        0 <= i < c.road_weights@.len() ==> road_named(c.road_weights@[i].0@) is Some
            && c.road_weights@[i].1 <= MAX_PARAM
}

/// The model that a valid configuration describes.
pub open spec fn model_of_config(c: CostModelConfig) -> CostModel {
    CostModel {
        cycleway_coefficient: c.cycleway_coefficient,
        road_coefficient: c.road_coefficient,
        salmon_coefficient: c.salmon_coefficient,
        cycleway_weights: [
            cycleway_weight_in(c.cycleway_weights@, 0),
            cycleway_weight_in(c.cycleway_weights@, 1),
            cycleway_weight_in(c.cycleway_weights@, 2),
            cycleway_weight_in(c.cycleway_weights@, 3),
        ],
        road_weights: [
            road_weight_in(c.road_weights@, 0),
            road_weight_in(c.road_weights@, 1),
            road_weight_in(c.road_weights@, 2),
            road_weight_in(c.road_weights@, 3),
            road_weight_in(c.road_weights@, 4),
        ],
    }
}

impl Cycleway {
    /// The variant that a wire name denotes.
    pub fn from_name(s: &str) -> (r: Option<Cycleway>)
        ensures
            r == cycleway_named(s@),
    {
        if str_eq(s, "None") {
            Some(Cycleway::No)
        } else if str_eq(s, "Shared") {
            Some(Cycleway::Shared)
        } else if str_eq(s, "Lane") {
            Some(Cycleway::Lane)
        } else if str_eq(s, "Track") {
            Some(Cycleway::Track)
        } else {
            None
        }
    }
}

impl Road {
    /// The variant that a wire name denotes.
    pub fn from_name(s: &str) -> (r: Option<Road>)
        ensures
            r == road_named(s@),
    {
        if str_eq(s, "Pedestrian") {
            Some(Road::Pedestrian)
        } else if str_eq(s, "Bike") {
            Some(Road::Bike)
        } else if str_eq(s, "Local") {
            Some(Road::Local)
        } else if str_eq(s, "Collector") {
            Some(Road::Collector)
        } else if str_eq(s, "Arterial") {
            Some(Road::Arterial)
        } else {
            None
        }
    }
}

/// The weight that a list of named entries gives the cycleway of ordinal `k`.
fn cycleway_weight_from(entries: &Vec<(String, u64)>, k: usize) -> (r: u64)
    ensures
        r == cycleway_weight_in(entries@, k as nat),
{
    let mut i: usize = entries.len();
    assert(entries@.subrange(0, i as int) =~= entries@);
    while i > 0
        invariant
            i <= entries@.len(),
            cycleway_weight_in(entries@, k as nat) == cycleway_weight_in(
                entries@.subrange(0, i as int),
                k as nat,
            ),
        decreases i,
    {
        proof {
            assert(entries@.subrange(0, i as int).drop_last() =~= entries@.subrange(0, i - 1));
        }
        let name = Cycleway::from_name(entries[i - 1].0.as_str());
        if let Some(c) = name {
            if c.ordinal() == k {
                return entries[i - 1].1;
            }
        }
        i = i - 1;
    }
    proof {
        assert(entries@.subrange(0, 0) =~= Seq::<(String, u64)>::empty());
    }
    0
}

/// The weight that a list of named entries gives the road of ordinal `k`.
fn road_weight_from(entries: &Vec<(String, u64)>, k: usize) -> (r: u64)
    ensures
        r == road_weight_in(entries@, k as nat),
{
    let mut i: usize = entries.len();
    assert(entries@.subrange(0, i as int) =~= entries@);
    while i > 0
        invariant
            i <= entries@.len(),
            road_weight_in(entries@, k as nat) == road_weight_in(
                entries@.subrange(0, i as int),
                k as nat,
            ),
        decreases i,
    {
        proof {
            assert(entries@.subrange(0, i as int).drop_last() =~= entries@.subrange(0, i - 1));
        }
        let name = Road::from_name(entries[i - 1].0.as_str());
        if let Some(r) = name {
            if r.ordinal() == k {
                return entries[i - 1].1;
            }
        }
        i = i - 1;
    }
    proof {
        assert(entries@.subrange(0, 0) =~= Seq::<(String, u64)>::empty());
    }
    0
}

proof fn lemma_weight_in_bounded(entries: Seq<(String, u64)>, k: nat)
    requires
        forall|i: int| 0 <= i < entries.len() ==> entries[i].1 <= MAX_PARAM,
    ensures
        cycleway_weight_in(entries, k) <= MAX_PARAM,
        road_weight_in(entries, k) <= MAX_PARAM,
    decreases entries.len(),
{
    if entries.len() > 0 {
        lemma_weight_in_bounded(entries.drop_last(), k);
    }
}

impl Default for CostModel {
    /// The documented default model.
    fn default() -> (r: CostModel)
        ensures
            r == default_model(),
    {
        CostModel {
            cycleway_coefficient: 300,
            road_coefficient: 400,
            salmon_coefficient: 1300,
            cycleway_weights: [1700, 1500, 1000, 500],
            road_weights: [1200, 500, 1200, 1400, 2000],
        }
    }
}

impl CostModel {
    /// Builds a model from a caller's configuration: unknown variant names and
    /// numbers above `MAX_PARAM` are rejected, missing weights are 0.
    pub fn from_config(config: &CostModelConfig) -> (r: Result<CostModel, RoutingError>)
        ensures
            config_valid(*config) ==> r == Ok::<CostModel, RoutingError>(
                model_of_config(*config),
            ),
            !config_valid(*config) ==> r == Err::<CostModel, RoutingError>(
                RoutingError::BadCostModel,
            ),
            r matches Ok(m) ==> m.wf(),
    {
        if config.cycleway_coefficient > MAX_PARAM || config.road_coefficient > MAX_PARAM
            || config.salmon_coefficient > MAX_PARAM {
            return Err(RoutingError::BadCostModel);
        }
        let mut i: usize = 0;
        while i < config.cycleway_weights.len()
            invariant
                i <= config.cycleway_weights@.len(),
                forall|j: int|
                    0 <= j < i ==> cycleway_named(config.cycleway_weights@[j].0@) is Some
                        && config.cycleway_weights@[j].1 <= MAX_PARAM,
            decreases config.cycleway_weights@.len() - i,
        {
            let known = Cycleway::from_name(config.cycleway_weights[i].0.as_str());
            if known.is_none() || config.cycleway_weights[i].1 > MAX_PARAM {
                return Err(RoutingError::BadCostModel);
            }
            i = i + 1;
        }
        let mut j: usize = 0;
        while j < config.road_weights.len()
            invariant
                j <= config.road_weights@.len(),
                forall|q: int|
                    0 <= q < j ==> road_named(config.road_weights@[q].0@) is Some
                        && config.road_weights@[q].1 <= MAX_PARAM,
            decreases config.road_weights@.len() - j,
        {
            let known = Road::from_name(config.road_weights[j].0.as_str());
            if known.is_none() || config.road_weights[j].1 > MAX_PARAM {
                return Err(RoutingError::BadCostModel);
            }
            j = j + 1;
        }
        proof {
            lemma_weight_in_bounded(config.cycleway_weights@, 0);
            lemma_weight_in_bounded(config.cycleway_weights@, 1);
            lemma_weight_in_bounded(config.cycleway_weights@, 2);
            lemma_weight_in_bounded(config.cycleway_weights@, 3);
            lemma_weight_in_bounded(config.road_weights@, 0);
            lemma_weight_in_bounded(config.road_weights@, 1);
            lemma_weight_in_bounded(config.road_weights@, 2);
            lemma_weight_in_bounded(config.road_weights@, 3);
            lemma_weight_in_bounded(config.road_weights@, 4);
        }
        let m = CostModel {
            cycleway_coefficient: config.cycleway_coefficient,
            road_coefficient: config.road_coefficient,
            salmon_coefficient: config.salmon_coefficient,
            cycleway_weights: [
                cycleway_weight_from(&config.cycleway_weights, 0),
                cycleway_weight_from(&config.cycleway_weights, 1),
                cycleway_weight_from(&config.cycleway_weights, 2),
                cycleway_weight_from(&config.cycleway_weights, 3),
            ],
            road_weights: [
                road_weight_from(&config.road_weights, 0),
                road_weight_from(&config.road_weights, 1),
                road_weight_from(&config.road_weights, 2),
                road_weight_from(&config.road_weights, 3),
                road_weight_from(&config.road_weights, 4),
            ],
        };
        assert(m.cycleway_weights@ =~= model_of_config(*config).cycleway_weights@);
        assert(m.road_weights@ =~= model_of_config(*config).road_weights@);
        Ok(m)
    }

    /// The cost factor of a directed edge with these labels, in billionths.
    pub fn calculate_cost(&self, way_labels: &WayLabels) -> (r: u64)
        requires
            self.wf(),
        ensures
            r == cost_factor(*self, *way_labels),
            r <= MAX_FACTOR,
    {
        let (cycleway, road, salmon) = *way_labels;
        let cw = self.cycleway_weights[cycleway.ordinal()];
        let rw = self.road_weights[road.ordinal()];
        let cc = self.cycleway_coefficient;
        let rc = self.road_coefficient;
        proof {
            assert(cc * cw <= MAX_PARAM * MAX_PARAM) by (nonlinear_arith)
                requires
                    cc <= MAX_PARAM,
                    cw <= MAX_PARAM,
            ;
            assert(rc * rw <= MAX_PARAM * MAX_PARAM) by (nonlinear_arith)
                requires
                    rc <= MAX_PARAM,
                    rw <= MAX_PARAM,
            ;
        }
        let c = cc * cw + rc * rw;
        let s = if salmon {
            self.salmon_coefficient
        } else {
            UNIT
        };
        proof {
            assert(c * s <= MAX_FACTOR) by (nonlinear_arith)
                requires
                    c <= 2 * MAX_PARAM * MAX_PARAM,
                    s <= MAX_PARAM,
            ;
        }
        c * s
    }

    /// The cost of traversing an edge with these labels and this length in meters.
    pub fn calculate_edge_cost(&self, way_labels: &WayLabels, length: u32) -> (r: u128)
        requires
            self.wf(),
        ensures
            r == edge_cost(*self, *way_labels, length as nat),
            r <= MAX_FACTOR * u32::MAX,
    {
        let f = self.calculate_cost(way_labels);
        proof {
            assert(f * length <= MAX_FACTOR * u32::MAX) by (nonlinear_arith)
                requires
                    f <= MAX_FACTOR,
                    length <= u32::MAX,
            ;
        }
        (f as u128) * (length as u128)
    }
}

/// Edges with equal labels have equal cost factors, and an edge's cost is its
/// cost factor times its length.
pub proof fn lemma_cost_linearity(
    m: CostModel,
    l1: WayLabels,
    l2: WayLabels,
    length1: nat,
    length2: nat,
)
    requires
        l1 == l2,
    ensures
        cost_factor(m, l1) == cost_factor(m, l2),
        edge_cost(m, l1, length1) == cost_factor(m, l1) * length1,
        edge_cost(m, l2, length2) == cost_factor(m, l2) * length2,
{
}

/// With a salmon coefficient of at least one, travelling counter-flow never
/// costs less than travelling with traffic on the same infrastructure.
pub proof fn lemma_salmon_asymmetry(m: CostModel, c: Cycleway, r: Road)
    requires
        m.wf(),
        m.salmon_coefficient >= UNIT,
    ensures
        cost_factor(m, (c, r, true)) >= cost_factor(m, (c, r, false)),
{
    let x = m.cycleway_coefficient * m.cycleway_weights@[cycleway_ord(c) as int]
        + m.road_coefficient * m.road_weights@[road_ord(r) as int];
    assert(x >= 0) by (nonlinear_arith)
        requires
            x == m.cycleway_coefficient * m.cycleway_weights@[cycleway_ord(c) as int]
                + m.road_coefficient * m.road_weights@[road_ord(r) as int],
    ;
    assert(x * m.salmon_coefficient >= x * UNIT) by (nonlinear_arith)
        requires
            x >= 0,
            m.salmon_coefficient >= UNIT,
    ;
}

/// A well-formed model's cost factor, and an edge's cost, are bounded.
pub proof fn lemma_cost_bounds(m: CostModel, labels: WayLabels, length: nat)
    requires
        m.wf(),
        length <= u32::MAX,
    ensures
        cost_factor(m, labels) <= MAX_FACTOR,
        edge_cost(m, labels, length) <= MAX_FACTOR * (u32::MAX as nat),
{
    let cw = m.cycleway_weights@[cycleway_ord(labels.0) as int];
    let rw = m.road_weights@[road_ord(labels.1) as int];
    let cc = m.cycleway_coefficient;
    let rc = m.road_coefficient;
    assert(cc * cw <= MAX_PARAM * MAX_PARAM) by (nonlinear_arith)
        requires
            cc <= MAX_PARAM,
            cw <= MAX_PARAM,
    ;
    assert(rc * rw <= MAX_PARAM * MAX_PARAM) by (nonlinear_arith)
        requires
            rc <= MAX_PARAM,
            rw <= MAX_PARAM,
    ;
    let c = cc * cw + rc * rw;
    let s = if labels.2 {
        m.salmon_coefficient as int
    } else {
        UNIT as int
    };
    assert(c * s <= MAX_FACTOR) by (nonlinear_arith)
        requires
            0 <= c <= 2 * MAX_PARAM * MAX_PARAM,
            0 <= s <= MAX_PARAM,
    ;
    let f = cost_factor(m, labels);
    assert(f * length <= MAX_FACTOR * (u32::MAX as nat)) by (nonlinear_arith)
        requires
            f <= MAX_FACTOR,
            length <= u32::MAX,
    ;
}

/// For any way whose reverse twin is counter-flow, the reverse twin never
/// costs less than the forward one under a model whose salmon coefficient is
/// at least one.
pub proof fn lemma_salmon_twin_costs(model: CostModel, m: crate::mapping::OSMMapper)
    requires
        model.wf(),
        model.salmon_coefficient >= UNIT,
        crate::mapping::way_labels_of(m, false).2,
    ensures
        cost_factor(model, crate::mapping::way_labels_of(m, false)) >= cost_factor(
            model,
            crate::mapping::way_labels_of(m, true),
        ),
{
    crate::mapping::lemma_salmon_twins_match(m);
    let f = crate::mapping::way_labels_of(m, true);
    lemma_salmon_asymmetry(model, f.0, f.1);
    assert(crate::mapping::way_labels_of(m, false) == (f.0, f.1, true));
}

} // verus!
