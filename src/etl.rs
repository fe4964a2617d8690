//! Turning an OSM way into rows of the edge store.
use vstd::prelude::*;
use crate::graph::{Distance, NodeId, WayId};

verus! {

/// One directed segment row: `n1 -> n2` along signed way `way`.
#[derive(Debug, Clone, Copy, PartialEq, Eq, Structural)]
pub struct SegmentRow {
    pub n1: NodeId,
    pub n2: NodeId,
    pub way: WayId,
    pub distance: Distance,
}

/// The directed segments of a way through `node_ids`, where `distances[k]` is
/// the length between nodes `k` and `k + 1`: for each consecutive pair, the
/// forward segment along `way` at `2k` and its reverse twin along `-way` at `2k + 1`.
pub fn way_segments(way: WayId, node_ids: &Vec<NodeId>, distances: &Vec<Distance>) -> (r: Vec<
    SegmentRow,
>)
    requires
        way > 0,
        node_ids@.len() == 0 || distances@.len() + 1 == node_ids@.len(),
    ensures
        r@.len() == 2 * distances@.len() || (node_ids@.len() == 0 && r@.len() == 0),
        forall|k: int|
            0 <= k < node_ids@.len() - 1 ==> #[trigger] r@[2 * k] == (SegmentRow {
                n1: node_ids@[k],
                n2: node_ids@[k + 1],
                way,
                distance: distances@[k],
            }) && r@[2 * k + 1] == (SegmentRow {
                n1: node_ids@[k + 1],
                n2: node_ids@[k],
                way: -way as WayId,
                distance: distances@[k],
            }),
{
    let mut out: Vec<SegmentRow> = Vec::new();
    if node_ids.len() == 0 {
        return out;
    }
    let mut k: usize = 0;
    while k < distances.len()
        invariant
            way > 0,
            distances@.len() + 1 == node_ids@.len(),
            k <= distances@.len(),
            out@.len() == 2 * k,
            forall|q: int|
                0 <= q < k ==> #[trigger] out@[2 * q] == (SegmentRow {
                    n1: node_ids@[q],
                    n2: node_ids@[q + 1],
                    way,
                    distance: distances@[q],
                }) && out@[2 * q + 1] == (SegmentRow {
                    n1: node_ids@[q + 1],
                    n2: node_ids@[q],
                    way: -way as WayId,
                    distance: distances@[q],
                }),
        decreases node_ids@.len() - k,
    {
        let forward = SegmentRow {
            n1: node_ids[k],
            n2: node_ids[k + 1],
            way,
            distance: distances[k],
        };
        let reverse = SegmentRow {
            n1: node_ids[k + 1],
            n2: node_ids[k],
            way: -way,
            distance: distances[k],
        };
        let ghost before = out@;
        out.push(forward);
        out.push(reverse);
        proof {
            assert forall|q: int| 0 <= q < k + 1 implies #[trigger] out@[2 * q] == (SegmentRow {
                n1: node_ids@[q],
                n2: node_ids@[q + 1],
                way,
                distance: distances@[q],
            }) && out@[2 * q + 1] == (SegmentRow {
                n1: node_ids@[q + 1],
                n2: node_ids@[q],
                way: -way as WayId,
                distance: distances@[q],
            }) by {
                if q < k {
                    assert(out@[2 * q] == before[2 * q]);
                    assert(out@[2 * q + 1] == before[2 * q + 1]);
                }
            }
        }
        k = k + 1;
    }
    out
}

} // verus!
