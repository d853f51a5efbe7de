use vstd::prelude::*;
use crate::point::{Point, all_in_range};
use crate::simplify::{ramer_douglas_peucker, rdp};

verus! {

/// Thinnest half-width a sample is given: half a pixel.
pub const MIN_RADIUS: i32 = 8;

/// An ordered sequence of samples; two strokes are equal when their samples are.
#[derive(Debug)]
pub struct Stroke {
    pub points: Vec<Point>,
}

impl View for Stroke {
    type V = Seq<Point>;

    open spec fn view(&self) -> Seq<Point> {
        self.points@
    }
}

/// Whether two sample sequences are equal, sample by sample.
pub fn same_points(a: &[Point], b: &[Point]) -> (r: bool)
    ensures
        r == (a@ == b@),
{
    if a.len() != b.len() {
        return false;
    }
    let mut i: usize = 0;
    while i < a.len()
        invariant
            a@.len() == b@.len(),
            0 <= i <= a@.len(),
            forall|j: int| 0 <= j < i ==> a@[j] == b@[j],
        decreases a@.len() - i,
    {
        if a[i] != b[i] {
            return false;
        }
        i += 1;
    }
    assert(a@ =~= b@);
    true
}

impl Stroke {
    pub fn new() -> (s: Stroke)
        ensures
            s@ == Seq::<Point>::empty(),
    {
        Stroke { points: Vec::new() }
    }

    /// Appends a sample whose half-width is at least `MIN_RADIUS`.
    pub fn add_point(&mut self, x: i32, y: i32, thickness: i32)
        ensures
            final(self)@ == old(self)@.push(
                Point { x, y, r: if thickness < MIN_RADIUS { MIN_RADIUS } else { thickness } },
            ),
    {
        let r = if thickness < MIN_RADIUS { MIN_RADIUS } else { thickness };
        self.points.push(Point { x, y, r });
    }

    /// Drops the samples that lie within `epsilon` of the simplified polyline.
    pub fn simplify(&mut self, epsilon: u32)
        requires
            all_in_range(old(self)@),
        ensures
            final(self)@ == rdp(old(self)@, epsilon as int),
    {
        self.points = ramer_douglas_peucker(self.points.as_slice(), epsilon);
    }

    /// A stroke with the same samples.
    pub fn duplicate(&self) -> (s: Stroke)
        ensures
            s@ == self@,
    {
        let mut points: Vec<Point> = Vec::new();
        let mut i: usize = 0;
        while i < self.points.len()
            invariant
                0 <= i <= self@.len(),
                points@ == self@.subrange(0, i as int),
            decreases self@.len() - i,
        {
            points.push(self.points[i]);
            i += 1;
            assert(points@ =~= self@.subrange(0, i as int));
        }
        assert(points@ =~= self@);
        Stroke { points }
    }
}

impl PartialEq for Stroke {
    fn eq(&self, other: &Stroke) -> (r: bool) {
        same_points(self.points.as_slice(), other.points.as_slice())
    }
}

impl vstd::std_specs::cmp::PartialEqSpecImpl for Stroke {
    open spec fn obeys_eq_spec() -> bool {
        true
    }

    open spec fn eq_spec(&self, other: &Stroke) -> bool {
        self@ == other@
    }
}

} // verus!
