//! Routing labels of a directed way: bike infrastructure, road class and
//! whether travel runs against the lawful direction of traffic.
use vstd::prelude::*;

verus! {

/// Quality of bike infrastructure along a directed edge, in ascending
/// separation from traffic.
#[derive(Debug, Clone, Copy, PartialEq, Eq, Hash, Structural)]
pub enum Cycleway {
    /// There is no bike-specific infrastructure.
    No,
    /// The lane is shared with motor traffic.
    Shared,
    /// A designated lane on the road itself.
    Lane,
    /// A lane separated from the road.
    Track,
}

/// Road class, in ascending vehicular intensity.
#[derive(Debug, Clone, Copy, PartialEq, Eq, Hash, Structural)]
pub enum Road {
    /// A walking path.
    Pedestrian,
    /// A dedicated bike path.
    Bike,
    /// A low-speed street, residential or otherwise.
    Local,
    /// A medium-speed road linking arterial roads to local roads.
    Collector,
    /// A high-speed, high-traffic road.
    Arterial,
}

/// Whether traversing an edge runs against the lawful traffic direction.
pub type Salmoning = bool;

/// The labels of one directed way: `(cycleway, road, salmon)`.
pub type WayLabels = (Cycleway, Road, Salmoning);

/// Number of cycleway variants.
pub const CYCLEWAY_COUNT: usize = 4;

/// Number of road variants.
pub const ROAD_COUNT: usize = 5;

/// The stable ordinal of a cycleway variant, as stored in the edge schema.
pub open spec fn cycleway_ord(c: Cycleway) -> nat {
    match c {
        Cycleway::No => 0,
        Cycleway::Shared => 1,
        Cycleway::Lane => 2,
        Cycleway::Track => 3,
    }
}

/// The stable ordinal of a road variant, as stored in the edge schema.
pub open spec fn road_ord(r: Road) -> nat {
    match r {
        Road::Pedestrian => 0,
        Road::Bike => 1,
        Road::Local => 2,
        Road::Collector => 3,
        Road::Arterial => 4,
    }
}

impl Cycleway {
    /// The variant's ordinal.
    pub fn ordinal(&self) -> (r: usize)
        ensures
            r == cycleway_ord(*self),
            r < CYCLEWAY_COUNT,
    {
        match self {
            Cycleway::No => 0,
            Cycleway::Shared => 1,
            Cycleway::Lane => 2,
            Cycleway::Track => 3,
        }
    }

    /// The variant with the given ordinal; `None` when it is out of range.
    pub fn from_ordinal(v: i64) -> (r: Option<Cycleway>)
        ensures
            r matches Some(c) ==> cycleway_ord(c) == v,
            r is None <==> !(0 <= v < CYCLEWAY_COUNT),
    {
        if v == 0 {
            Some(Cycleway::No)
        } else if v == 1 {
            Some(Cycleway::Shared)
        } else if v == 2 {
            Some(Cycleway::Lane)
        } else if v == 3 {
            Some(Cycleway::Track)
        } else {
            None
        }
    }
}

impl Road {
    /// The variant's ordinal.
    pub fn ordinal(&self) -> (r: usize)
        ensures
            r == road_ord(*self),
            r < ROAD_COUNT,
    {
        match self {
            Road::Pedestrian => 0,
            Road::Bike => 1,
            Road::Local => 2,
            Road::Collector => 3,
            Road::Arterial => 4,
        }
    }

    /// The variant with the given ordinal; `None` when it is out of range.
    pub fn from_ordinal(v: i64) -> (r: Option<Road>)
        ensures
            r matches Some(x) ==> road_ord(x) == v,
            r is None <==> !(0 <= v < ROAD_COUNT),
    {
        if v == 0 {
            Some(Road::Pedestrian)
        } else if v == 1 {
            Some(Road::Bike)
        } else if v == 2 {
            Some(Road::Local)
        } else if v == 3 {
            Some(Road::Collector)
        } else if v == 4 {
            Some(Road::Arterial)
        } else {
            None
        }
    }
}

} // verus!
