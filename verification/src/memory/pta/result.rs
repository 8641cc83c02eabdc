//! The points-to sets of locations.

use super::loc::{ArenaView, LocId};
use vstd::prelude::*;

verus! {

/// The points-to sets of locations, by number, each in ascending order.
#[derive(Debug)]
pub struct PointsToResult {
    pub pts: Vec<Vec<LocId>>,
}

/// The numbers are in strictly ascending order.
pub open spec fn ascending(s: Seq<LocId>) -> bool {
    forall|i: int, j: int| 0 <= i < j < s.len() ==> #[trigger] s[i] < #[trigger] s[j]
}

impl PointsToResult {
    /// What a location points to, in ascending order.
    pub open spec fn pointees(&self, node: LocId) -> Seq<LocId> {
        if node < self.pts@.len() {
            self.pts@[node as int]@
        } else {
            Seq::empty()
        }
    }

    /// A location may point to another.
    pub open spec fn holds(&self, node: LocId, pointee: LocId) -> bool {
        self.pointees(node).contains(pointee)
    }

    /// The result speaks of numbered locations.
    pub open spec fn fits(&self, arena: ArenaView) -> bool {
        &&& self.pts@.len() <= arena.locs.len()
        &&& forall|i: int| 0 <= i < self.pts@.len() ==> ascending((#[trigger] self.pts@[i])@)
        &&& forall|i: int, j: int|
            #![trigger self.pts@[i]@[j]]
            0 <= i < self.pts@.len() && 0 <= j < self.pts@[i]@.len() ==> self.pts@[i]@[j]
                < arena.locs.len()
    }

    /// What a location points to, in ascending order.
    pub fn points_to(&self, node: LocId) -> (r: Vec<LocId>)
        ensures
            r@ == self.pointees(node),
    {
        let mut r: Vec<LocId> = Vec::new();
        if node < self.pts.len() {
            let list = &self.pts[node];
            let mut i: usize = 0;
            while i < list.len()
                invariant
                    i <= list@.len(),
                    r@ == list@.take(i as int),
                decreases list@.len() - i,
            {
                r.push(list[i]);
                i = i + 1;
                proof {
                    assert(r@ =~= list@.take(i as int));
                }
            }
            proof {
                assert(list@.take(i as int) =~= list@);
            }
        }
        r
    }
}

/// What a location points to is numbered.
pub proof fn pointee_numbered(result: PointsToResult, arena: ArenaView, node: LocId, j: int)
    requires
        result.fits(arena),
        0 <= j < result.pointees(node).len(),
    ensures
        result.pointees(node)[j] < arena.locs.len(),
        node < arena.locs.len(),
{
    assert(result.pts@[node as int]@[j] < arena.locs.len());
}

} // verus!
