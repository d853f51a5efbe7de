use vstd::prelude::*;
use crate::point::{Point, sq_dist};

verus! {

/// Axis-aligned bounds of a stroke's positions, both ends included.
#[derive(Clone, Copy, Debug, PartialEq, Eq, Structural)]
pub struct BoundingBox {
    pub min_x: i32,
    pub max_x: i32,
    pub min_y: i32,
    pub max_y: i32,
}

/// Screen pixels per world unit, as the ratio `num / den`.
#[derive(Clone, Copy, Debug, PartialEq, Eq, Structural)]
pub struct Zoom {
    pub num: u32,
    pub den: u32,
}

impl Zoom {
    pub open spec fn wf(self) -> bool {
        self.num > 0 && self.den > 0
    }
}

/// `b` bounds exactly the positions of `pts`.
pub open spec fn is_bounding_box(pts: Seq<Point>, b: BoundingBox) -> bool {
    &&& forall|i: int|
        0 <= i < pts.len() ==> b.min_x <= (#[trigger] pts[i]).x <= b.max_x && b.min_y <= pts[i].y
            <= b.max_y
    &&& exists|i: int| 0 <= i < pts.len() && #[trigger] pts[i].x == b.min_x
    &&& exists|i: int| 0 <= i < pts.len() && #[trigger] pts[i].x == b.max_x
    &&& exists|i: int| 0 <= i < pts.len() && #[trigger] pts[i].y == b.min_y
    &&& exists|i: int| 0 <= i < pts.len() && #[trigger] pts[i].y == b.max_y
}

/// Whether the box meets the world rectangle seen through a `screen_w` by
/// `screen_h` screen whose top left corner shows world position
/// (`offset_x`, `offset_y`): `offset .. offset + screen / zoom` on each axis.
pub open spec fn overlaps_view(
    b: BoundingBox,
    offset_x: int,
    offset_y: int,
    zoom: Zoom,
    screen_w: int,
    screen_h: int,
) -> bool {
    &&& b.max_x >= offset_x
    &&& (b.min_x - offset_x) * zoom.num <= screen_w * zoom.den
    &&& b.max_y >= offset_y
    &&& (b.min_y - offset_y) * zoom.num <= screen_h * zoom.den
}

/// Whether the stroke has a sample and its bounds meet the view.
pub open spec fn stroke_in_view(
    pts: Seq<Point>,
    offset_x: int,
    offset_y: int,
    zoom: Zoom,
    screen_w: int,
    screen_h: int,
) -> bool {
    exists|b: BoundingBox|
        is_bounding_box(pts, b) && #[trigger] overlaps_view(
            b,
            offset_x,
            offset_y,
            zoom,
            screen_w,
            screen_h,
        )
}

/// The bounds of the stroke's positions; none for an empty stroke.
pub fn stroke_bounding_box(points: &[Point]) -> (r: Option<BoundingBox>)
    ensures
        points@.len() == 0 ==> r.is_none(),
        points@.len() > 0 ==> r.is_some() && is_bounding_box(points@, r.unwrap()),
{
    if points.len() == 0 {
        return None;
    }
    let ghost pts = points@;
    let mut b = BoundingBox { min_x: points[0].x, max_x: points[0].x, min_y: points[0].y, max_y: points[0].y };
    let ghost mut ix: (int, int, int, int) = (0, 0, 0, 0);
    let mut i: usize = 1;
    while i < points.len()
        invariant
            pts == points@,
            1 <= i <= pts.len(),
            forall|j: int|
                0 <= j < i ==> b.min_x <= (#[trigger] pts[j]).x <= b.max_x && b.min_y <= pts[j].y
                    <= b.max_y,
            0 <= ix.0 < i && pts[ix.0].x == b.min_x,
            0 <= ix.1 < i && pts[ix.1].x == b.max_x,
            0 <= ix.2 < i && pts[ix.2].y == b.min_y,
            0 <= ix.3 < i && pts[ix.3].y == b.max_y,
        decreases pts.len() - i,
    {
        let p = points[i];
        if p.x < b.min_x {
            b.min_x = p.x;
            proof { ix.0 = i as int; }
        }
        if p.x > b.max_x {
            b.max_x = p.x;
            proof { ix.1 = i as int; }
        }
        if p.y < b.min_y {
            b.min_y = p.y;
            proof { ix.2 = i as int; }
        }
        if p.y > b.max_y {
            b.max_y = p.y;
            proof { ix.3 = i as int; }
        }
        i += 1;
    }
    assert(pts[ix.0].x == b.min_x);
    assert(pts[ix.1].x == b.max_x);
    assert(pts[ix.2].y == b.min_y);
    assert(pts[ix.3].y == b.max_y);
    Some(b)
}

/// Whether the box meets the view (boundaries included).
pub fn is_visible(
    bbox: &BoundingBox,
    offset_x: i32,
    offset_y: i32,
    zoom: Zoom,
    screen_w: u32,
    screen_h: u32,
) -> (r: bool)
    requires
        zoom.wf(),
    ensures
        r == overlaps_view(*bbox, offset_x as int, offset_y as int, zoom, screen_w as int, screen_h as int),
{
    let dx = bbox.min_x as i128 - offset_x as i128;
    let dy = bbox.min_y as i128 - offset_y as i128;
    let num = zoom.num as i128;
    let den = zoom.den as i128;
    proof {
        assert(-0x1_0000_0000 * 0x1_0000_0000 <= dx * num <= 0x1_0000_0000 * 0x1_0000_0000) by (nonlinear_arith)
            requires
                -0x1_0000_0000 <= dx <= 0x1_0000_0000,
                0 <= num <= 0x1_0000_0000,
        ;
        assert(-0x1_0000_0000 * 0x1_0000_0000 <= dy * num <= 0x1_0000_0000 * 0x1_0000_0000) by (nonlinear_arith)
            requires
                -0x1_0000_0000 <= dy <= 0x1_0000_0000,
                0 <= num <= 0x1_0000_0000,
        ;
        assert(0 <= screen_w as int * den <= 0x1_0000_0000 * 0x1_0000_0000) by (nonlinear_arith)
            requires
                0 <= screen_w <= 0x1_0000_0000,
                0 <= den <= 0x1_0000_0000,
        ;
        assert(0 <= screen_h as int * den <= 0x1_0000_0000 * 0x1_0000_0000) by (nonlinear_arith)
            requires
                0 <= screen_h <= 0x1_0000_0000,
                0 <= den <= 0x1_0000_0000,
        ;
    }
    bbox.max_x >= offset_x && dx * num <= screen_w as i128 * den && bbox.max_y >= offset_y && dy * num
        <= screen_h as i128 * den
}

proof fn lemma_bounding_box_unique(pts: Seq<Point>, b: BoundingBox, c: BoundingBox)
    requires
        is_bounding_box(pts, b),
        is_bounding_box(pts, c),
    ensures
        b == c,
{
    let i0 = choose|i: int| 0 <= i < pts.len() && #[trigger] pts[i].x == b.min_x;
    let i1 = choose|i: int| 0 <= i < pts.len() && #[trigger] pts[i].x == b.max_x;
    let i2 = choose|i: int| 0 <= i < pts.len() && #[trigger] pts[i].y == b.min_y;
    let i3 = choose|i: int| 0 <= i < pts.len() && #[trigger] pts[i].y == b.max_y;
    let j0 = choose|i: int| 0 <= i < pts.len() && #[trigger] pts[i].x == c.min_x;
    let j1 = choose|i: int| 0 <= i < pts.len() && #[trigger] pts[i].x == c.max_x;
    let j2 = choose|i: int| 0 <= i < pts.len() && #[trigger] pts[i].y == c.min_y;
    let j3 = choose|i: int| 0 <= i < pts.len() && #[trigger] pts[i].y == c.max_y;
    assert(pts[i0].x == b.min_x && pts[j0].x == c.min_x);
    assert(pts[i1].x == b.max_x && pts[j1].x == c.max_x);
    assert(pts[i2].y == b.min_y && pts[j2].y == c.min_y);
    assert(pts[i3].y == b.max_y && pts[j3].y == c.max_y);
    assert(b.min_x <= pts[j0].x && c.min_x <= pts[i0].x);
    assert(b.max_x >= pts[j1].x && c.max_x >= pts[i1].x);
    assert(b.min_y <= pts[j2].y && c.min_y <= pts[i2].y);
    assert(b.max_y >= pts[j3].y && c.max_y >= pts[i3].y);
}

/// Whether a stroke has a sample and its bounds meet the view.
pub fn is_stroke_visible(
    points: &[Point],
    offset_x: i32,
    offset_y: i32,
    zoom: Zoom,
    screen_w: u32,
    screen_h: u32,
) -> (r: bool)
    requires
        zoom.wf(),
    ensures
        r == stroke_in_view(points@, offset_x as int, offset_y as int, zoom, screen_w as int, screen_h as int),
{
    match stroke_bounding_box(points) {
        None => {
            assert(!stroke_in_view(points@, offset_x as int, offset_y as int, zoom, screen_w as int, screen_h as int)) by {
                assert forall|b: BoundingBox| !is_bounding_box(points@, b) by {
                    if is_bounding_box(points@, b) {
                        let i = choose|i: int| 0 <= i < points@.len() && #[trigger] points@[i].x == b.min_x;
                    }
                }
            }
            false
        },
        Some(b) => {
            let v = is_visible(&b, offset_x, offset_y, zoom, screen_w, screen_h);
            proof {
                if stroke_in_view(points@, offset_x as int, offset_y as int, zoom, screen_w as int, screen_h as int) {
                    let c = choose|c: BoundingBox| is_bounding_box(points@, c) && #[trigger] overlaps_view(c, offset_x as int, offset_y as int, zoom, screen_w as int, screen_h as int);
                    lemma_bounding_box_unique(points@, b, c);
                }
            }
            v
        },
    }
}

/// Whether some sample lies within `radius` of (`x`, `y`).
pub open spec fn touches(pts: Seq<Point>, x: i32, y: i32, radius: u32) -> bool {
    exists|i: int| 0 <= i < pts.len() && sq_dist(#[trigger] pts[i], Point { x, y, r: 0 }) <= radius * radius
}

/// Whether the eraser circle of `radius` around (`x`, `y`) touches a sample of
/// the stroke.
pub fn stroke_intersect(points: &[Point], x: i32, y: i32, radius: u32) -> (r: bool)
    ensures
        r == touches(points@, x, y, radius),
{
    proof {
        assert(0 <= radius as int * radius as int <= 0x1_0000_0000 * 0x1_0000_0000) by (nonlinear_arith)
            requires
                0 <= radius <= 0x1_0000_0000,
        ;
    }
    let rr = radius as u128 * radius as u128;
    let mut i: usize = 0;
    while i < points.len()
        invariant
            0 <= i <= points@.len(),
            rr == radius * radius,
            forall|j: int| 0 <= j < i ==> sq_dist(#[trigger] points@[j], Point { x, y, r: 0 }) > radius * radius,
        decreases points@.len() - i,
    {
        let p = points[i];
        let dx = p.x as i128 - x as i128;
        let dy = p.y as i128 - y as i128;
        proof {
            assert(0 <= dx * dx <= 0x1_0000_0000 * 0x1_0000_0000) by (nonlinear_arith)
                requires
                    -0x1_0000_0000 <= dx <= 0x1_0000_0000,
            ;
            assert(0 <= dy * dy <= 0x1_0000_0000 * 0x1_0000_0000) by (nonlinear_arith)
                requires
                    -0x1_0000_0000 <= dy <= 0x1_0000_0000,
            ;
        }
        if ((dx * dx + dy * dy) as u128) <= rr {
            assert(sq_dist(points@[i as int], Point { x, y, r: 0 }) <= radius * radius);
            return true;
        }
        i += 1;
    }
    false
}

} // verus!
