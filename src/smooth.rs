use vstd::prelude::*;
use vstd::arithmetic::div_mod::{
    lemma_fundamental_div_mod, lemma_mod_bound, lemma_fundamental_div_mod_converse_div,
    lemma_fundamental_div_mod_converse_mod,
};
use crate::point::{Point, COORD_LIMIT, in_range, all_in_range};

verus! {

/// The uniform Catmull–Rom polynomial through v1 (t = 0) and v2 (t = 1) at
/// t = k / s, scaled by 2 s³.
pub open spec fn catmull_rom_numerator(v0: int, v1: int, v2: int, v3: int, k: int, s: int) -> int {
    2 * v1 * (s * s * s) + (v2 - v0) * (k * s * s) + (2 * v0 - 5 * v1 + 4 * v2 - v3) * (k * k * s)
        + (3 * v1 - v0 - 3 * v2 + v3) * (k * k * k)
}

/// The Catmull–Rom value at t = k / s, rounded to the nearest unit (halves up).
pub open spec fn catmull_rom_value(v0: int, v1: int, v2: int, v3: int, k: int, s: int) -> int {
    (catmull_rom_numerator(v0, v1, v2, v3, k, s) + s * s * s) / (2 * (s * s * s))
}

/// The control point `w` of the stroke padded with a copy of its first sample in
/// front and of its last sample behind.
pub open spec fn padded_at(pts: Seq<Point>, w: int) -> Point {
    if w <= 0 {
        pts[0]
    } else if w > pts.len() {
        pts.last()
    } else {
        pts[w - 1]
    }
}

/// Step `k` of `s` of the span that starts at padded control point `w`, every
/// channel (x, y and the half-width) interpolated alike.
pub open spec fn spline_point(pts: Seq<Point>, w: int, k: int, s: int) -> Point {
    let a = padded_at(pts, w - 1);
    let b = padded_at(pts, w);
    let c = padded_at(pts, w + 1);
    let d = padded_at(pts, w + 2);
    Point {
        x: catmull_rom_value(a.x as int, b.x as int, c.x as int, d.x as int, k, s) as i32,
        y: catmull_rom_value(a.y as int, b.y as int, c.y as int, d.y as int, k, s) as i32,
        r: catmull_rom_value(a.r as int, b.r as int, c.r as int, d.r as int, k, s) as i32,
    }
}

/// Output sample `j`: step `j % s` of span `j / s`.
pub open spec fn spline_sample(pts: Seq<Point>, s: int, j: int) -> Point {
    spline_point(pts, j / s + 1, j % s, s)
}

/// The smoothed stroke: `s` samples per span between consecutive samples, then
/// the last sample; strokes of fewer than four samples are left as they are.
pub open spec fn catmull_rom(pts: Seq<Point>, s: int) -> Seq<Point> {
    if pts.len() < 4 {
        pts
    } else {
        Seq::new(((pts.len() - 1) * s) as nat, |j: int| spline_sample(pts, s, j)).push(pts.last())
    }
}

proof fn lemma_powers(k: int, s: int)
    requires
        0 <= k < s,
    ensures
        0 <= k * s * s <= s * s * s,
        0 <= k * k * s <= s * s * s,
        0 <= k * k * k <= s * s * s,
        s * s * s >= 1,
{
    assert(0 <= k * s * s <= s * s * s) by (nonlinear_arith)
        requires
            0 <= k < s,
    ;
    assert(0 <= k * k * s <= s * s * s) by (nonlinear_arith)
        requires
            0 <= k < s,
    ;
    assert(0 <= k * k * k <= s * s * s) by (nonlinear_arith)
        requires
            0 <= k < s,
    ;
    assert(s * s * s >= 1) by (nonlinear_arith)
        requires
            1 <= s,
    ;
}

proof fn lemma_term_bound(c: int, p: int, bound: int, cube: int)
    requires
        -bound <= c <= bound,
        0 <= p <= cube,
    ensures
        -(bound * cube) <= c * p <= bound * cube,
{
    assert(-(bound * cube) <= c * p <= bound * cube) by (nonlinear_arith)
        requires
            -bound <= c <= bound,
            0 <= p <= cube,
    ;
}

/// The Catmull–Rom value of one channel at step `k` of `s`.
pub fn catmull_rom_channel(v0: i32, v1: i32, v2: i32, v3: i32, k: u16, s: u16) -> (r: i32)
    requires
        -COORD_LIMIT <= v0 <= COORD_LIMIT,
        -COORD_LIMIT <= v1 <= COORD_LIMIT,
        -COORD_LIMIT <= v2 <= COORD_LIMIT,
        -COORD_LIMIT <= v3 <= COORD_LIMIT,
        k < s,
    ensures
        r as int == catmull_rom_value(v0 as int, v1 as int, v2 as int, v3 as int, k as int, s as int),
{
    let kk = k as i128;
    let ss = s as i128;
    proof {
        lemma_powers(k as int, s as int);
        assert(s * s <= 0x1_0000_0000 && s * s * s <= 0x1_0000_0000_0000) by (nonlinear_arith)
            requires
                s <= 0xffff,
        ;
        assert(k * s <= 0x1_0000_0000 && k * k <= 0x1_0000_0000) by (nonlinear_arith)
            requires
                k < s <= 0xffff,
        ;
    }
    let s3 = ss * ss * ss;
    let ks2 = kk * ss * ss;
    let k2s = kk * kk * ss;
    let k3 = kk * kk * kk;
    let c0 = 2 * v1 as i128;
    let c1 = v2 as i128 - v0 as i128;
    let c2 = 2 * v0 as i128 - 5 * v1 as i128 + 4 * v2 as i128 - v3 as i128;
    let c3 = 3 * v1 as i128 - v0 as i128 - 3 * v2 as i128 + v3 as i128;
    let ghost b: int = 0x1_0000_0000;
    proof {
        lemma_term_bound(c0 as int, s3 as int, b, s3 as int);
        lemma_term_bound(c1 as int, ks2 as int, b, s3 as int);
        lemma_term_bound(c2 as int, k2s as int, b, s3 as int);
        lemma_term_bound(c3 as int, k3 as int, b, s3 as int);
        lemma_term_bound(c0 as int, s3 as int, 2 * COORD_LIMIT as int, s3 as int);
        lemma_term_bound(c1 as int, ks2 as int, 2 * COORD_LIMIT as int, s3 as int);
        lemma_term_bound(c2 as int, k2s as int, 12 * COORD_LIMIT as int, s3 as int);
        lemma_term_bound(c3 as int, k3 as int, 8 * COORD_LIMIT as int, s3 as int);
    }
    let num = c0 * s3 + c1 * ks2 + c2 * k2s + c3 * k3;
    assert(num == catmull_rom_numerator(v0 as int, v1 as int, v2 as int, v3 as int, k as int, s as int));
    let x = num + s3;
    let d = 2 * s3;
    // Shift by a multiple of d so that the division is of a non-negative number.
    let shift: i128 = 0x8000_0000;
    proof {
        assert(-(24 * COORD_LIMIT as int) * s3 <= num <= 24 * COORD_LIMIT as int * s3) by (nonlinear_arith)
            requires
                num == c0 * s3 + c1 * ks2 + c2 * k2s + c3 * k3,
                -(2 * COORD_LIMIT as int * s3) <= c0 * s3 <= 2 * COORD_LIMIT as int * s3,
                -(2 * COORD_LIMIT as int * s3) <= c1 * ks2 <= 2 * COORD_LIMIT as int * s3,
                -(12 * COORD_LIMIT as int * s3) <= c2 * k2s <= 12 * COORD_LIMIT as int * s3,
                -(8 * COORD_LIMIT as int * s3) <= c3 * k3 <= 8 * COORD_LIMIT as int * s3,
        ;
        assert(x + shift * d >= 0) by (nonlinear_arith)
            requires
                x == num + s3,
                d == 2 * s3,
                s3 >= 1,
                shift == 0x8000_0000,
                -(24 * 134217728) * s3 <= num,
        ;
    }
    let y = (x + shift * d) as u128;
    let q = (y / (d as u128)) as i128;
    let res = q - shift;
    proof {
        let yi = y as int;
        let di = d as int;
        lemma_fundamental_div_mod(yi, di);
        lemma_mod_bound(yi, di);
        let rem = yi % di;
        assert(x as int == (res as int) * di + rem) by (nonlinear_arith)
            requires
                yi == di * (yi / di) + rem,
                q as int == yi / di,
                res == q - shift,
                yi == x + shift * d,
                di == d,
        ;
        lemma_fundamental_div_mod_converse_div(x as int, di, res as int, rem);
        assert(-0x6000_0000 <= res <= 0x6000_0001) by (nonlinear_arith)
            requires
                x as int == (res as int) * di + rem,
                0 <= rem < di,
                di == 2 * s3,
                s3 >= 1,
                x == num + s3,
                -(24 * 134217728) * s3 <= num <= 24 * 134217728 * s3,
        ;
    }
    res as i32
}

fn padded_point(points: &[Point], w: usize) -> (p: Point)
    requires
        points@.len() >= 1,
    ensures
        p == padded_at(points@, w as int),
{
    if w == 0 {
        points[0]
    } else if w > points.len() {
        points[points.len() - 1]
    } else {
        points[w - 1]
    }
}

/// Resamples a stroke along its Catmull–Rom curve, `segments` samples per span;
/// the curve passes through every input sample.
pub fn catmull_rom_spline(points: &[Point], segments: u16) -> (r: Vec<Point>)
    requires
        all_in_range(points@),
        (points@.len() - 1) * segments + 1 <= usize::MAX,
    ensures
        r@ == catmull_rom(points@, segments as int),
{
    let ghost pts = points@;
    let ghost s = segments as int;
    let n = points.len();
    let mut result: Vec<Point> = Vec::new();
    if n < 4 {
        let mut i: usize = 0;
        while i < n
            invariant
                n == pts.len(),
                pts == points@,
                0 <= i <= n,
                result@ == pts.subrange(0, i as int),
            decreases n - i,
        {
            result.push(points[i]);
            i += 1;
            assert(result@ =~= pts.subrange(0, i as int));
        }
        assert(result@ =~= pts);
        return result;
    }
    let mut w: usize = 1;
    while w < n
        invariant
            n == pts.len(),
            n >= 4,
            pts == points@,
            all_in_range(pts),
            s == segments,
            (n - 1) * s + 1 <= usize::MAX,
            1 <= w <= n,
            result@ == Seq::new(((w - 1) * s) as nat, |j: int| spline_sample(pts, s, j)),
        decreases n - w,
    {
        let a = padded_point(points, w - 1);
        let b = padded_point(points, w);
        let c = padded_point(points, w + 1);
        let d = if w + 1 < n { points[w + 1] } else { points[n - 1] };
        proof {
            assert(in_range(a) && in_range(b) && in_range(c) && in_range(d));
        }
        let mut k: u16 = 0;
        while k < segments
            invariant
                n == pts.len(),
                pts == points@,
                s == segments,
                1 <= w < n,
                0 <= k <= s,
                in_range(a) && in_range(b) && in_range(c) && in_range(d),
                a == padded_at(pts, w - 1),
                b == padded_at(pts, w as int),
                c == padded_at(pts, w + 1),
                d == padded_at(pts, w + 2),
                result@ == Seq::new(((w - 1) * s + k) as nat, |j: int| spline_sample(pts, s, j)),
            decreases segments - k,
        {
            let p = Point {
                x: catmull_rom_channel(a.x, b.x, c.x, d.x, k, segments),
                y: catmull_rom_channel(a.y, b.y, c.y, d.y, k, segments),
                r: catmull_rom_channel(a.r, b.r, c.r, d.r, k, segments),
            };
            proof {
                let j = (w - 1) * s + k;
                lemma_fundamental_div_mod_converse_div(j, s, (w - 1) as int, k as int);
                lemma_fundamental_div_mod_converse_mod(j, s, (w - 1) as int, k as int);
                assert(p == spline_sample(pts, s, j));
            }
            result.push(p);
            k += 1;
            assert(result@ =~= Seq::new(((w - 1) * s + k) as nat, |j: int| spline_sample(pts, s, j)));
        }
        assert((w - 1) * s + s == w * s) by (nonlinear_arith);
        w += 1;
        assert(result@ =~= Seq::new(((w - 1) * s) as nat, |j: int| spline_sample(pts, s, j)));
    }
    result.push(points[n - 1]);
    result
}

proof fn lemma_value_at_span_start(v0: int, v1: int, v2: int, v3: int, s: int)
    requires
        s >= 1,
    ensures
        catmull_rom_value(v0, v1, v2, v3, 0, s) == v1,
{
    let c = s * s * s;
    assert(c >= 1) by (nonlinear_arith)
        requires
            s >= 1,
            c == s * s * s,
    ;
    assert(catmull_rom_numerator(v0, v1, v2, v3, 0, s) + c == v1 * (2 * c) + c) by (nonlinear_arith)
        requires
            c == s * s * s,
    ;
    lemma_fundamental_div_mod_converse_div(v1 * (2 * c) + c, 2 * c, v1, c);
}

/// For four or more samples and `s` steps per span the smoothed stroke has
/// `(n - 1) s + 1` samples, and with `s >= 1` it passes through every input
/// sample: sample `j` of the stroke is sample `j s` of the result.
pub proof fn lemma_spline_interpolates(pts: Seq<Point>, s: int)
    requires
        pts.len() >= 4,
        s >= 0,
        all_in_range(pts),
    ensures
        catmull_rom(pts, s).len() == (pts.len() - 1) * s + 1,
        s >= 1 ==> forall|j: int| 0 <= j < pts.len() ==> #[trigger] catmull_rom(pts, s)[j * s] == pts[j],
{
    let n = pts.len() as int;
    let out = catmull_rom(pts, s);
    assert((n - 1) * s >= 0) by (nonlinear_arith)
        requires
            n >= 4,
            s >= 0,
    ;
    if s >= 1 {
        assert forall|j: int| 0 <= j < n implies #[trigger] out[j * s] == pts[j] by {
            if j == n - 1 {
                assert(out[j * s] == pts.last());
            } else {
                assert(0 <= j * s < (n - 1) * s) by (nonlinear_arith)
                    requires
                        0 <= j < n - 1,
                        s >= 1,
                ;
                lemma_fundamental_div_mod_converse_div(j * s, s, j, 0);
                lemma_fundamental_div_mod_converse_mod(j * s, s, j, 0);
                let p = pts[j];
                assert(in_range(p));
                let a = padded_at(pts, j);
                let c = padded_at(pts, j + 2);
                let d = padded_at(pts, j + 3);
                lemma_value_at_span_start(a.x as int, p.x as int, c.x as int, d.x as int, s);
                lemma_value_at_span_start(a.y as int, p.y as int, c.y as int, d.y as int, s);
                lemma_value_at_span_start(a.r as int, p.r as int, c.r as int, d.r as int, s);
                assert(out[j * s] == spline_sample(pts, s, j * s));
            }
        }
    }
}

} // verus!
