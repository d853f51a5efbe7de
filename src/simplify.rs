use vstd::prelude::*;
use crate::point::{Point, COORD_LIMIT, in_range, all_in_range, same_position, sq_dist};

verus! {

/// Twice the signed area of the triangle a, b, p: the perpendicular distance of
/// p from the line through a and b, times the length of a–b.
pub open spec fn cross(p: Point, a: Point, b: Point) -> int {
    (p.x - a.x) * (b.y - a.y) - (p.y - a.y) * (b.x - a.x)
}

pub open spec fn abs(v: int) -> int {
    if v < 0 {
        -v
    } else {
        v
    }
}

/// Orders the samples by their distance from the chord a–b: the perpendicular
/// distance times the chord's length, or the squared distance to a where the
/// chord has no length.
pub open spec fn deviation_key(p: Point, a: Point, b: Point) -> int {
    if same_position(a, b) {
        sq_dist(p, a)
    } else {
        abs(cross(p, a, b))
    }
}

/// Whether p lies farther than `eps` from the line through a and b (from a
/// where the two coincide).
pub open spec fn exceeds(p: Point, a: Point, b: Point, eps: int) -> bool {
    if same_position(a, b) {
        sq_dist(p, a) > eps * eps
    } else {
        cross(p, a, b) * cross(p, a, b) > eps * eps * sq_dist(b, a)
    }
}

/// Among the interior samples `lo + 1 .. j` of the window `lo..=hi`, the first
/// one farthest from the chord, or `lo` when none is off the chord.
pub open spec fn farthest_upto(pts: Seq<Point>, lo: int, hi: int, j: int) -> int
    decreases j - lo,
{
    if j <= lo + 1 {
        lo
    } else {
        let m = farthest_upto(pts, lo, hi, j - 1);
        if deviation_key(pts[j - 1], pts[lo], pts[hi]) > best_key(pts, lo, hi, m) {
            j - 1
        } else {
            m
        }
    }
}

pub open spec fn best_key(pts: Seq<Point>, lo: int, hi: int, m: int) -> int {
    if m == lo {
        0
    } else {
        deviation_key(pts[m], pts[lo], pts[hi])
    }
}

pub open spec fn farthest(pts: Seq<Point>, lo: int, hi: int) -> int {
    farthest_upto(pts, lo, hi, hi)
}

/// Ramer–Douglas–Peucker on the window `lo..=hi`.
pub open spec fn rdp_range(pts: Seq<Point>, lo: int, hi: int, eps: int) -> Seq<Point>
    decreases hi - lo,
{
    if hi - lo < 2 {
        pts.subrange(lo, hi + 1)
    } else {
        let m = farthest(pts, lo, hi);
        if lo < m < hi && exceeds(pts[m], pts[lo], pts[hi], eps) {
            rdp_range(pts, lo, m, eps).drop_last() + rdp_range(pts, m, hi, eps)
        } else {
            seq![pts[lo], pts[hi]]
        }
    }
}

/// The simplified polyline: unchanged below three samples.
pub open spec fn rdp(pts: Seq<Point>, eps: int) -> Seq<Point> {
    if pts.len() < 3 {
        pts
    } else {
        rdp_range(pts, 0, pts.len() - 1, eps)
    }
}

proof fn lemma_mul_bound(a: int, b: int, bound_a: int, bound_b: int)
    requires
        -bound_a <= a <= bound_a,
        -bound_b <= b <= bound_b,
    ensures
        -(bound_a * bound_b) <= a * b <= bound_a * bound_b,
{
    assert(-(bound_a * bound_b) <= a * b <= bound_a * bound_b) by (nonlinear_arith)
        requires
            -bound_a <= a <= bound_a,
            -bound_b <= b <= bound_b,
    ;
}

proof fn lemma_square_bound(a: int, bound: int)
    requires
        -bound <= a <= bound,
    ensures
        0 <= a * a <= bound * bound,
{
    assert(0 <= a * a <= bound * bound) by (nonlinear_arith)
        requires
            -bound <= a <= bound,
    ;
}

/// Exact `deviation_key` for in-range samples.
fn deviation_key_of(p: Point, a: Point, b: Point) -> (k: u128)
    requires
        in_range(p),
        in_range(a),
        in_range(b),
    ensures
        k as int == deviation_key(p, a, b),
{
    let dx = p.x as i128 - a.x as i128;
    let dy = p.y as i128 - a.y as i128;
    let ex = b.x as i128 - a.x as i128;
    let ey = b.y as i128 - a.y as i128;
    let ghost l: int = 2 * COORD_LIMIT as int;
    proof {
        lemma_square_bound(dx as int, l);
        lemma_square_bound(dy as int, l);
        lemma_mul_bound(dx as int, ey as int, l, l);
        lemma_mul_bound(dy as int, ex as int, l, l);
    }
    if a.x == b.x && a.y == b.y {
        (dx * dx + dy * dy) as u128
    } else {
        let c = dx * ey - dy * ex;
        if c < 0 {
            (-c) as u128
        } else {
            c as u128
        }
    }
}

/// Exact `exceeds` for in-range samples.
fn exceeds_tolerance(p: Point, a: Point, b: Point, eps: u32) -> (r: bool)
    requires
        in_range(p),
        in_range(a),
        in_range(b),
    ensures
        r == exceeds(p, a, b, eps as int),
{
    let dx = p.x as i128 - a.x as i128;
    let dy = p.y as i128 - a.y as i128;
    let ex = b.x as i128 - a.x as i128;
    let ey = b.y as i128 - a.y as i128;
    let e = eps as u128;
    let ghost l: int = 2 * COORD_LIMIT as int;
    proof {
        lemma_square_bound(dx as int, l);
        lemma_square_bound(dy as int, l);
        lemma_square_bound(ex as int, l);
        lemma_square_bound(ey as int, l);
        lemma_mul_bound(dx as int, ey as int, l, l);
        lemma_mul_bound(dy as int, ex as int, l, l);
        lemma_square_bound(eps as int, u32::MAX as int);
    }
    let ee = e * e;
    if a.x == b.x && a.y == b.y {
        ((dx * dx + dy * dy) as u128) > ee
    } else {
        let c = dx * ey - dy * ex;
        let len2 = (ex * ex + ey * ey) as u128;
        proof {
            assert(l == 268435456);
            assert(2 * l * l == 144115188075855872);
            lemma_square_bound(c as int, 144115188075855872);
            lemma_mul_bound(ee as int, len2 as int, u32::MAX as int * u32::MAX as int, 144115188075855872);
        }
        ((c * c) as u128) > ee * len2
    }
}

proof fn lemma_farthest_bounds(pts: Seq<Point>, lo: int, hi: int, j: int)
    requires
        lo < j,
    ensures
        lo <= farthest_upto(pts, lo, hi, j) < j,
        farthest_upto(pts, lo, hi, j) == lo || lo + 1 <= farthest_upto(pts, lo, hi, j),
    decreases j - lo,
{
    if j > lo + 1 {
        lemma_farthest_bounds(pts, lo, hi, j - 1);
    }
}

/// The exec form of `rdp_range`.
fn rdp_window(points: &[Point], lo: usize, hi: usize, epsilon: u32) -> (r: Vec<Point>)
    requires
        lo <= hi < points@.len(),
        all_in_range(points@),
    ensures
        r@ == rdp_range(points@, lo as int, hi as int, epsilon as int),
    decreases hi - lo,
{
    let ghost pts = points@;
    if hi - lo < 2 {
        let mut out: Vec<Point> = Vec::new();
        let mut i = lo;
        while i <= hi
            invariant
                lo <= i <= hi + 1,
                hi < pts.len(),
                pts == points@,
                out@ == pts.subrange(lo as int, i as int),
            decreases hi + 1 - i,
        {
            out.push(points[i]);
            i += 1;
            assert(out@ =~= pts.subrange(lo as int, i as int));
        }
        return out;
    }
    let a = points[lo];
    let b = points[hi];
    let mut best: usize = lo;
    let mut best_k: u128 = 0;
    let mut i: usize = lo + 1;
    while i < hi
        invariant
            lo + 1 <= i <= hi,
            hi < pts.len(),
            pts == points@,
            all_in_range(pts),
            a == pts[lo as int],
            b == pts[hi as int],
            best as int == farthest_upto(pts, lo as int, hi as int, i as int),
            best_k as int == best_key(pts, lo as int, hi as int, best as int),
        decreases hi - i,
    {
        let k = deviation_key_of(points[i], a, b);
        if k > best_k {
            best = i;
            best_k = k;
        }
        i += 1;
    }
    proof {
        lemma_farthest_bounds(pts, lo as int, hi as int, hi as int);
    }
    if best > lo && exceeds_tolerance(points[best], a, b, epsilon) {
        let mut left = rdp_window(points, lo, best, epsilon);
        let mut right = rdp_window(points, best, hi, epsilon);
        proof {
            lemma_rdp_range_ends(pts, lo as int, best as int, epsilon as int);
        }
        left.pop();
        left.append(&mut right);
        left
    } else {
        vec![a, b]
    }
}

/// Simplifies a polyline with Ramer–Douglas–Peucker: an interior sample
/// survives only where it lies more than `epsilon` off the chord of its
/// window. Fewer than three samples come back unchanged.
pub fn ramer_douglas_peucker(points: &[Point], epsilon: u32) -> (r: Vec<Point>)
    requires
        all_in_range(points@),
    ensures
        r@ == rdp(points@, epsilon as int),
{
    if points.len() < 3 {
        let mut out: Vec<Point> = Vec::new();
        let mut i: usize = 0;
        while i < points.len()
            invariant
                0 <= i <= points@.len(),
                out@ == points@.subrange(0, i as int),
            decreases points@.len() - i,
        {
            out.push(points[i]);
            i += 1;
            assert(out@ =~= points@.subrange(0, i as int));
        }
        assert(out@ =~= points@);
        return out;
    }
    rdp_window(points, 0, points.len() - 1, epsilon)
}

/// A window of at least two samples simplifies to at least two samples, its
/// first and last kept exactly, and to no more samples than it had.
pub proof fn lemma_rdp_range_ends(pts: Seq<Point>, lo: int, hi: int, eps: int)
    requires
        0 <= lo < hi < pts.len(),
    ensures
        rdp_range(pts, lo, hi, eps).len() >= 2,
        rdp_range(pts, lo, hi, eps).len() <= hi - lo + 1,
        rdp_range(pts, lo, hi, eps)[0] == pts[lo],
        rdp_range(pts, lo, hi, eps).last() == pts[hi],
    decreases hi - lo,
{
    if hi - lo >= 2 {
        let m = farthest(pts, lo, hi);
        if lo < m < hi && exceeds(pts[m], pts[lo], pts[hi], eps) {
            lemma_rdp_range_ends(pts, lo, m, eps);
            lemma_rdp_range_ends(pts, m, hi, eps);
            let l = rdp_range(pts, lo, m, eps);
            let r = rdp_range(pts, m, hi, eps);
            assert((l.drop_last() + r)[0] == l[0]);
            assert((l.drop_last() + r).last() == r.last());
        }
    }
}

proof fn lemma_exceeds_monotone(p: Point, a: Point, b: Point, e1: int, e2: int)
    requires
        0 <= e1 <= e2,
        exceeds(p, a, b, e2),
    ensures
        exceeds(p, a, b, e1),
{
    let d = sq_dist(b, a);
    assert(d >= 0) by (nonlinear_arith)
        requires
            d == (b.x - a.x) * (b.x - a.x) + (b.y - a.y) * (b.y - a.y),
    ;
    assert(e1 * e1 * d <= e2 * e2 * d) by (nonlinear_arith)
        requires
            0 <= e1 <= e2,
            d >= 0,
    ;
    assert(e1 * e1 <= e2 * e2) by (nonlinear_arith)
        requires
            0 <= e1 <= e2,
    ;
}

proof fn lemma_rdp_range_monotone(pts: Seq<Point>, lo: int, hi: int, e1: int, e2: int)
    requires
        0 <= lo < hi < pts.len(),
        0 <= e1 <= e2,
    ensures
        rdp_range(pts, lo, hi, e2).len() <= rdp_range(pts, lo, hi, e1).len(),
    decreases hi - lo,
{
    if hi - lo >= 2 {
        let m = farthest(pts, lo, hi);
        lemma_rdp_range_ends(pts, lo, hi, e1);
        if lo < m < hi && exceeds(pts[m], pts[lo], pts[hi], e2) {
            lemma_exceeds_monotone(pts[m], pts[lo], pts[hi], e1, e2);
            lemma_rdp_range_monotone(pts, lo, m, e1, e2);
            lemma_rdp_range_monotone(pts, m, hi, e1, e2);
            lemma_rdp_range_ends(pts, lo, m, e1);
            lemma_rdp_range_ends(pts, lo, m, e2);
        }
    }
}

/// Simplification keeps the first and the last sample exactly, and a larger
/// tolerance never leaves more samples than a smaller one.
pub proof fn lemma_rdp_keeps_ends_and_shrinks(pts: Seq<Point>, e1: int, e2: int)
    requires
        pts.len() >= 2,
        0 <= e1 <= e2,
    ensures
        rdp(pts, e1)[0] == pts[0],
        rdp(pts, e1).last() == pts.last(),
        rdp(pts, e2).len() <= rdp(pts, e1).len(),
{
    if pts.len() >= 3 {
        lemma_rdp_range_ends(pts, 0, pts.len() - 1, e1);
        lemma_rdp_range_monotone(pts, 0, pts.len() - 1, e1, e2);
    }
}

/// With a tolerance no sample's distance from the chord exceeds, the
/// polyline simplifies to its two ends.
pub proof fn lemma_rdp_collapses_within_tolerance(pts: Seq<Point>, eps: int)
    requires
        pts.len() >= 2,
        forall|i: int| 0 < i < pts.len() - 1 ==> !exceeds(#[trigger] pts[i], pts[0], pts.last(), eps),
    ensures
        rdp(pts, eps) == seq![pts[0], pts.last()],
{
    if pts.len() == 2 {
        assert(pts =~= seq![pts[0], pts.last()]);
    } else {
        let hi = pts.len() - 1;
        lemma_farthest_bounds(pts, 0, hi, hi);
    }
}

/// Simplifying keeps samples of the input only, so it stays in range.
pub proof fn lemma_rdp_in_range(pts: Seq<Point>, eps: int)
    requires
        all_in_range(pts),
    ensures
        all_in_range(rdp(pts, eps)),
        pts.len() >= 2 ==> rdp(pts, eps).len() <= pts.len(),
{
    if pts.len() >= 3 {
        lemma_rdp_range_in_range(pts, 0, pts.len() - 1, eps);
        lemma_rdp_range_ends(pts, 0, pts.len() - 1, eps);
    }
}

proof fn lemma_rdp_range_in_range(pts: Seq<Point>, lo: int, hi: int, eps: int)
    requires
        0 <= lo < hi < pts.len(),
        all_in_range(pts),
    ensures
        all_in_range(rdp_range(pts, lo, hi, eps)),
    decreases hi - lo,
{
    let out = rdp_range(pts, lo, hi, eps);
    if hi - lo < 2 {
        assert forall|i: int| 0 <= i < out.len() implies #[trigger] in_range(out[i]) by {
            assert(out[i] == pts[lo + i]);
        }
    } else {
        let m = farthest(pts, lo, hi);
        if lo < m < hi && exceeds(pts[m], pts[lo], pts[hi], eps) {
            lemma_rdp_range_in_range(pts, lo, m, eps);
            lemma_rdp_range_in_range(pts, m, hi, eps);
            lemma_rdp_range_ends(pts, lo, m, eps);
            let l = rdp_range(pts, lo, m, eps).drop_last();
            let r = rdp_range(pts, m, hi, eps);
            assert forall|i: int| 0 <= i < out.len() implies #[trigger] in_range(out[i]) by {
                if i < l.len() {
                    assert(out[i] == rdp_range(pts, lo, m, eps)[i]);
                } else {
                    assert(out[i] == r[i - l.len()]);
                }
            }
        } else {
            assert(in_range(pts[lo]) && in_range(pts[hi]));
            assert forall|i: int| 0 <= i < out.len() implies #[trigger] in_range(out[i]) by {
                if i == 0 {
                    assert(out[i] == pts[lo]);
                } else {
                    assert(out[i] == pts[hi]);
                }
            }
        }
    }
}

} // verus!
