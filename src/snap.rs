//! Snapping a free-form point onto the graph.
//!
//! The spatial query itself runs against the store's index; this module owns
//! the search box, the widening schedule, and the choice of entry nodes among
//! the candidates a query returns.
use vstd::prelude::*;
use crate::error::RoutingError;
use crate::graph::{Coord, Neighbor};

verus! {

/// The first half-side of the search box, in 1e-7 degrees (0.0002 degrees).
pub const DEFAULT_SNAP_RADIUS: i64 = 2000;

/// How much each retry widens the half-side (0.0002 degrees).
pub const SNAP_INCREMENT: i64 = 2000;

/// The widest half-side tried before giving up (0.001 degrees).
pub const MAX_SNAP_RADIUS: i64 = 10000;

/// The least bearing difference, in thousandths of a degree, between the
/// primary and the secondary entry node.
pub const MIN_BEARING_SPREAD: i64 = 90000;

/// The largest coordinate magnitude, in 1e-7 degrees.
pub const MAX_COORD: i64 = 1800000000;

/// An inclusive search box.
#[derive(Debug, Clone, Copy, PartialEq, Eq, Structural)]
pub struct SnapBox {
    pub min_lon: i64,
    pub max_lon: i64,
    pub min_lat: i64,
    pub max_lat: i64,
}

/// A way node found inside the search box, with its distance (in the neighbor)
/// and its bearing from the query point, in thousandths of a degree.
#[derive(Debug, Clone, Copy, PartialEq, Eq, Structural)]
pub struct SnapCandidate {
    pub neighbor: Neighbor,
    pub bearing: i64,
}

/// The square box of half-side `radius` around `center`.
pub fn snap_box(center: &Coord, radius: i64) -> (r: SnapBox)
    requires
        -MAX_COORD <= center.lon <= MAX_COORD,
        -MAX_COORD <= center.lat <= MAX_COORD,
        0 <= radius <= MAX_COORD,
    ensures
        r.min_lon == center.lon - radius,
        r.max_lon == center.lon + radius,
        r.min_lat == center.lat - radius,
        r.max_lat == center.lat + radius,
{
    SnapBox {
        min_lon: center.lon - radius,
        max_lon: center.lon + radius,
        min_lat: center.lat - radius,
        max_lat: center.lat + radius,
    }
}

/// Whether a point lies in a box, bounds included.
pub open spec fn in_box(b: SnapBox, p: Coord) -> bool {
    b.min_lon <= p.lon <= b.max_lon && b.min_lat <= p.lat <= b.max_lat
}

/// Whether a point lies in a box, bounds included.
pub fn box_contains(b: &SnapBox, p: &Coord) -> (r: bool)
    ensures
        r == in_box(*b, *p),
{
    b.min_lon <= p.lon && p.lon <= b.max_lon && b.min_lat <= p.lat && p.lat <= b.max_lat
}

/// The half-side to try after a query with `radius` found nothing, or
/// `SnapFailed` once the widest box has been tried.
pub fn next_snap_radius(radius: i64) -> (r: Result<i64, RoutingError>)
    ensures
        radius >= MAX_SNAP_RADIUS ==> r == Err::<i64, RoutingError>(RoutingError::SnapFailed),
        radius < MAX_SNAP_RADIUS ==> r == Ok::<i64, RoutingError>((radius + SNAP_INCREMENT) as i64),
{
    if radius >= MAX_SNAP_RADIUS {
        Err(RoutingError::SnapFailed)
    } else {
        Ok(radius + SNAP_INCREMENT)
    }
}

/// Candidate `i` comes no later than candidate `j` in a stable sort by distance.
pub open spec fn precedes(c: Seq<SnapCandidate>, i: int, j: int) -> bool {
    c[i].neighbor.distance < c[j].neighbor.distance || (c[i].neighbor.distance
        == c[j].neighbor.distance && i <= j)
}

/// Candidate `p` is the nearest, the first of the nearest on a tie.
pub open spec fn is_primary(c: Seq<SnapCandidate>, p: int) -> bool {
    &&& 0 <= p < c.len()
    &&& forall|j: int| 0 <= j < c.len() ==> precedes(c, p, j)
}

/// The absolute difference of two bearings.
pub open spec fn bearing_spread(a: i64, b: i64) -> int {
    if a >= b {
        a - b
    } else {
        b - a
    }
}

/// Candidate `q` lies on the primary's way, on the far side of the query point.
pub open spec fn pairs_with(c: Seq<SnapCandidate>, p: int, q: int) -> bool {
    &&& 0 <= q < c.len()
    &&& q != p
    &&& c[q].neighbor.way == c[p].neighbor.way
    &&& bearing_spread(c[p].bearing, c[q].bearing) >= MIN_BEARING_SPREAD
}

/// Candidate `q` is the first, in sorted order, that pairs with the primary `p`.
pub open spec fn is_secondary(c: Seq<SnapCandidate>, p: int, q: int) -> bool {
    &&& pairs_with(c, p, q)
    &&& forall|k: int| pairs_with(c, p, k) ==> precedes(c, q, k)
}

/// Whether two candidates lie on one way, far enough apart in bearing.
fn spread_pair(a: &SnapCandidate, b: &SnapCandidate) -> (r: bool)
    ensures
        r == (a.neighbor.way == b.neighbor.way && bearing_spread(a.bearing, b.bearing)
            >= MIN_BEARING_SPREAD),
{
    let d: i128 = a.bearing as i128 - b.bearing as i128;
    let spread: i128 = if d >= 0 {
        d
    } else {
        -d
    };
    a.neighbor.way == b.neighbor.way && spread >= MIN_BEARING_SPREAD as i128
}

/// Picks the entry nodes among the candidates of one box query: the nearest
/// (primary), then the nearest candidate on the same way whose bearing from
/// the query point differs by at least 90 degrees (secondary), if any.
/// An empty candidate list gives an empty result.
pub fn select_snapped_neighbors(candidates: &Vec<SnapCandidate>) -> (r: Vec<Neighbor>)
    ensures
        candidates@.len() == 0 ==> r@.len() == 0,
        candidates@.len() > 0 ==> exists|p: int| #[trigger] is_primary(candidates@, p),
        forall|p: int|
            #[trigger] is_primary(candidates@, p) ==> {
                &&& 1 <= r@.len() <= 2
                &&& r@[0] == candidates@[p].neighbor
                &&& r@.len() == 2 <==> exists|q: int| #[trigger] pairs_with(candidates@, p, q)
                &&& forall|q: int|
                    #[trigger] is_secondary(candidates@, p, q) ==> r@.len() == 2 && r@[1]
                        == candidates@[q].neighbor
            },
{
    let ghost c = candidates@;
    let n = candidates.len();
    if n == 0 {
        return Vec::new();
    }
    let mut p: usize = 0;
    let mut j: usize = 1;
    while j < n
        invariant
            c == candidates@,
            n == c.len(),
            p < j <= n,
            forall|k: int| 0 <= k < j ==> precedes(c, p as int, k),
        decreases n - j,
    {
        let ghost p_old = p;
        if candidates[j].neighbor.distance < candidates[p].neighbor.distance {
            p = j;
        }
        proof {
            assert forall|i: int| 0 <= i < j + 1 implies precedes(c, p as int, i) by {
                if i < j {
                    assert(precedes(c, p_old as int, i));
                }
            }
        }
        j = j + 1;
    }
    assert(is_primary(c, p as int));
    let mut best: Option<usize> = None;
    let mut k: usize = 0;
    while k < n
        invariant
            c == candidates@,
            n == c.len(),
            p < n,
            k <= n,
            is_primary(c, p as int),
            best is None ==> forall|i: int| 0 <= i < k ==> !pairs_with(c, p as int, i),
            best matches Some(b) ==> b < k,
            best matches Some(b) ==> pairs_with(c, p as int, b as int) && forall|i: int|
                0 <= i < k && pairs_with(c, p as int, i) ==> precedes(c, b as int, i),
        decreases n - k,
    {
        let ghost best_old = best;
        if k != p && spread_pair(&candidates[p], &candidates[k]) {
            match best {
                None => {
                    best = Some(k);
                },
                Some(b) => {
                    if candidates[k].neighbor.distance < candidates[b].neighbor.distance {
                        best = Some(k);
                        proof {
                            assert forall|i: int|
                                0 <= i < k + 1 && pairs_with(c, p as int, i) implies precedes(
                                c,
                                k as int,
                                i,
                            ) by {
                                if i < k {
                                    assert(precedes(c, b as int, i));
                                }
                            }
                        }
                    }
                },
            }
        }
        proof {
            if let Some(b) = best {
                assert forall|i: int|
                    0 <= i < k + 1 && pairs_with(c, p as int, i) implies precedes(
                    c,
                    b as int,
                    i,
                ) by {
                    if i < k {
                        if let Some(b0) = best_old {
                            assert(precedes(c, b0 as int, i));
                        }
                    }
                }
            }
        }
        k = k + 1;
    }
    let mut out: Vec<Neighbor> = Vec::new();
    out.push(candidates[p].neighbor);
    proof {
        assert forall|other: int| #[trigger] is_primary(c, other) implies other == p by {
            assert(precedes(c, p as int, other));
            assert(precedes(c, other, p as int));
        }
    }
    match best {
        Some(b) => {
            out.push(candidates[b].neighbor);
            proof {
                assert forall|q: int| #[trigger] is_secondary(c, p as int, q) implies q == b by {
                    assert(precedes(c, q, b as int));
                    assert(precedes(c, b as int, q));
                }
            }
        },
        None => {},
    }
    out
}

} // verus!
