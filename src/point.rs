use vstd::prelude::*;

verus! {

/// Fixed-point units in one world pixel.
pub const UNITS_PER_PIXEL: i32 = 16;

/// Largest coordinate magnitude on which the exact geometric predicates work.
pub const COORD_LIMIT: i32 = 134217728;

/// A stroke sample: a world position and the half-width of the stroke there.
#[derive(Clone, Copy, Debug, PartialEq, Eq, Structural)]
pub struct Point {
    pub x: i32,
    pub y: i32,
    pub r: i32,
}

pub open spec fn in_range(p: Point) -> bool {
    &&& -COORD_LIMIT <= p.x <= COORD_LIMIT
    &&& -COORD_LIMIT <= p.y <= COORD_LIMIT
    &&& -COORD_LIMIT <= p.r <= COORD_LIMIT
}

pub open spec fn all_in_range(pts: Seq<Point>) -> bool {
    forall|i: int| 0 <= i < pts.len() ==> #[trigger] in_range(pts[i])
}

pub open spec fn same_position(a: Point, b: Point) -> bool {
    a.x == b.x && a.y == b.y
}

pub open spec fn sq_dist(p: Point, a: Point) -> int {
    (p.x - a.x) * (p.x - a.x) + (p.y - a.y) * (p.y - a.y)
}

} // verus!
