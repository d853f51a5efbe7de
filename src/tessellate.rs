use vstd::prelude::*;
use crate::point::{Point, same_position};

verus! {

/// Wedges in the half-disk fan that closes a stroke end.
pub const CAP_SEGMENTS: usize = 8;

/// Vertices one cap adds: its center and `CAP_SEGMENTS + 1` points on its arc.
pub const CAP_VERTICES: usize = 10;

/// Most points a single chunk may hold so that every index fits in 16 bits.
pub const MAX_WINDOW_POINTS: usize = 32758;

/// Which rail of the ribbon a vertex lies on, seen along the stroke.
#[derive(Clone, Copy, Debug, PartialEq, Eq)]
pub enum Side {
    Left,
    Right,
}

/// How a mesh vertex is placed. Positions are real-valued, so a vertex is
/// described by the samples it derives from and is placed by the renderer.
#[derive(Clone, Copy, Debug, PartialEq, Eq)]
pub enum VertexSource {
    /// The sample `point` offset by its half-width along the perpendicular of the
    /// direction from sample `tangent.0` to sample `tangent.1` (to the left for
    /// `Side::Left`, to the right for `Side::Right`). With no tangent the
    /// direction is the positive x axis.
    Rail { point: usize, side: Side, tangent: Option<(usize, usize)> },
    /// Midpoint of the rail vertices with chunk indices `left` and `right`.
    CapCenter { left: u16, right: u16 },
    /// Point `step` of the half-turn arc around that midpoint, starting at the
    /// `left` rail vertex, of `CAP_SEGMENTS` equal steps.
    CapArc { left: u16, right: u16, step: u16 },
}

/// A triangle mesh over the samples `first..=last` of a stroke.
#[derive(Debug)]
pub struct MeshChunk {
    pub first: usize,
    pub last: usize,
    pub start_cap: bool,
    pub end_cap: bool,
    pub vertices: Vec<VertexSource>,
    pub indices: Vec<u16>,
}

/// The mathematical value of a `MeshChunk`.
pub struct ChunkModel {
    pub first: int,
    pub last: int,
    pub start_cap: bool,
    pub end_cap: bool,
    pub vertices: Seq<VertexSource>,
    pub indices: Seq<u16>,
}

impl View for MeshChunk {
    type V = ChunkModel;

    open spec fn view(&self) -> ChunkModel {
        ChunkModel {
            first: self.first as int,
            last: self.last as int,
            start_cap: self.start_cap,
            end_cap: self.end_cap,
            vertices: self.vertices@,
            indices: self.indices@,
        }
    }
}

pub open spec fn chunks_view(cs: Seq<MeshChunk>) -> Seq<ChunkModel> {
    cs.map_values(|c: MeshChunk| c@)
}

/// The pair of samples whose direction orients sample `p` in the window
/// `first..=last`: towards the next sample, or from the previous one at the end.
pub open spec fn base_tangent(p: int, last: int) -> (int, int) {
    if p == last {
        (p - 1, p)
    } else {
        (p, p + 1)
    }
}

/// The direction used at sample `p`: its own where the two samples differ, else
/// the one of the sample before it in the window, else none.
pub open spec fn tangent(pts: Seq<Point>, first: int, last: int, p: int) -> Option<(usize, usize)>
    decreases p - first,
{
    let (a, b) = base_tangent(p, last);
    if !same_position(pts[a], pts[b]) {
        Some((a as usize, b as usize))
    } else if p <= first {
        None
    } else {
        tangent(pts, first, last, p - 1)
    }
}

/// The rail vertices of the first `i` samples of the window, left then right.
pub open spec fn rails(pts: Seq<Point>, first: int, last: int, i: int) -> Seq<VertexSource>
    decreases i,
{
    if i <= 0 {
        Seq::empty()
    } else {
        let p = first + i - 1;
        let t = tangent(pts, first, last, p);
        rails(pts, first, last, i - 1).push(
            VertexSource::Rail { point: p as usize, side: Side::Left, tangent: t },
        ).push(VertexSource::Rail { point: p as usize, side: Side::Right, tangent: t })
    }
}

/// The indices of the first `i` ribbon segments: two triangles per segment.
pub open spec fn ribbon(i: int) -> Seq<u16>
    decreases i,
{
    if i <= 0 {
        Seq::empty()
    } else {
        let a = 2 * (i - 1);
        ribbon(i - 1) + seq![
            a as u16,
            (a + 1) as u16,
            (a + 2) as u16,
            (a + 2) as u16,
            (a + 1) as u16,
            (a + 3) as u16,
        ]
    }
}

/// The first `j` arc vertices of a cap.
pub open spec fn arc(left: u16, right: u16, j: int) -> Seq<VertexSource>
    decreases j,
{
    if j <= 0 {
        Seq::empty()
    } else {
        arc(left, right, j - 1).push(VertexSource::CapArc { left, right, step: (j - 1) as u16 })
    }
}

pub open spec fn cap_vertices(left: u16, right: u16) -> Seq<VertexSource> {
    seq![VertexSource::CapCenter { left, right }] + arc(left, right, CAP_SEGMENTS + 1)
}

/// The indices of the first `j` wedges of a cap whose center has index `base`.
pub open spec fn fan(base: int, j: int) -> Seq<u16>
    decreases j,
{
    if j <= 0 {
        Seq::empty()
    } else {
        fan(base, j - 1) + seq![base as u16, (base + j) as u16, (base + j + 1) as u16]
    }
}

/// The mesh of the window `first..=last` with the caps asked for.
pub open spec fn chunk_model(
    pts: Seq<Point>,
    first: int,
    last: int,
    start_cap: bool,
    end_cap: bool,
) -> ChunkModel {
    let m = last - first + 1;
    let start_vs = if start_cap { cap_vertices(0, 1) } else { Seq::empty() };
    let end_vs = if end_cap {
        cap_vertices((2 * m - 2) as u16, (2 * m - 1) as u16)
    } else {
        Seq::empty()
    };
    let start_is = if start_cap { fan(2 * m, CAP_SEGMENTS as int) } else { Seq::empty() };
    let end_base = 2 * m + if start_cap { CAP_VERTICES as int } else { 0 };
    let end_is = if end_cap { fan(end_base, CAP_SEGMENTS as int) } else { Seq::empty() };
    ChunkModel {
        first,
        last,
        start_cap,
        end_cap,
        vertices: rails(pts, first, last, m) + start_vs + end_vs,
        indices: ribbon(m - 1) + start_is + end_is,
    }
}

pub open spec fn cap_count(start_cap: bool, end_cap: bool) -> int {
    (if start_cap { 1int } else { 0int }) + (if end_cap { 1int } else { 0int })
}

pub proof fn lemma_rails_len(pts: Seq<Point>, first: int, last: int, i: int)
    requires
        i >= 0,
    ensures
        rails(pts, first, last, i).len() == 2 * i,
    decreases i,
{
    if i > 0 {
        lemma_rails_len(pts, first, last, i - 1);
    }
}

pub proof fn lemma_ribbon(i: int)
    requires
        0 <= i,
        2 * i + 1 <= u16::MAX,
    ensures
        ribbon(i).len() == 6 * i,
        forall|k: int| 0 <= k < ribbon(i).len() ==> (#[trigger] ribbon(i)[k]) <= 2 * i + 1,
    decreases i,
{
    if i > 0 {
        lemma_ribbon(i - 1);
        let a = 2 * (i - 1);
        assert forall|k: int| 0 <= k < ribbon(i).len() implies (#[trigger] ribbon(i)[k]) <= 2 * i
            + 1 by {
            if k < ribbon(i - 1).len() {
                assert(ribbon(i)[k] == ribbon(i - 1)[k]);
            }
        }
    }
}

pub proof fn lemma_arc_len(left: u16, right: u16, j: int)
    requires
        j >= 0,
    ensures
        arc(left, right, j).len() == j,
    decreases j,
{
    if j > 0 {
        lemma_arc_len(left, right, j - 1);
    }
}

pub proof fn lemma_fan(base: int, j: int)
    requires
        0 <= j,
        0 <= base,
        base + j + 1 <= u16::MAX,
    ensures
        fan(base, j).len() == 3 * j,
        forall|k: int|
            0 <= k < fan(base, j).len() ==> base <= (#[trigger] fan(base, j)[k]) <= base + j + 1,
    decreases j,
{
    if j > 0 {
        lemma_fan(base, j - 1);
        assert forall|k: int| 0 <= k < fan(base, j).len() implies base <= (#[trigger] fan(
            base,
            j,
        )[k]) <= base + j + 1 by {
            if k < fan(base, j - 1).len() {
                assert(fan(base, j)[k] == fan(base, j - 1)[k]);
            }
        }
    }
}

/// A chunk of `m` samples with `c` caps has `2m + 10c` vertices and
/// `6(m - 1) + 24c` indices, every one of them naming a vertex of the chunk.
pub proof fn lemma_chunk_counts(
    pts: Seq<Point>,
    first: int,
    last: int,
    start_cap: bool,
    end_cap: bool,
)
    requires
        first < last,
        last - first + 1 <= MAX_WINDOW_POINTS,
    ensures
        ({
            let c = chunk_model(pts, first, last, start_cap, end_cap);
            let m = last - first + 1;
            &&& c.vertices.len() == 2 * m + CAP_VERTICES * cap_count(start_cap, end_cap)
            &&& c.indices.len() == 6 * (m - 1) + 3 * CAP_SEGMENTS * cap_count(start_cap, end_cap)
            &&& c.indices.len() % 3 == 0
            &&& c.vertices.len() <= u16::MAX + 1
            &&& forall|k: int| 0 <= k < c.indices.len() ==> (#[trigger] c.indices[k]) < c.vertices.len()
        }),
{
    let c = chunk_model(pts, first, last, start_cap, end_cap);
    let m = last - first + 1;
    lemma_rails_len(pts, first, last, m);
    lemma_ribbon(m - 1);
    lemma_arc_len(0, 1, CAP_SEGMENTS + 1);
    lemma_arc_len((2 * m - 2) as u16, (2 * m - 1) as u16, CAP_SEGMENTS + 1);
    let end_base = 2 * m + if start_cap { CAP_VERTICES as int } else { 0 };
    lemma_fan(2 * m, CAP_SEGMENTS as int);
    lemma_fan(end_base, CAP_SEGMENTS as int);
    let r = ribbon(m - 1);
    let s = if start_cap { fan(2 * m, CAP_SEGMENTS as int) } else { Seq::<u16>::empty() };
    let e = if end_cap { fan(end_base, CAP_SEGMENTS as int) } else { Seq::<u16>::empty() };
    assert forall|k: int| 0 <= k < c.indices.len() implies (#[trigger] c.indices[k])
        < c.vertices.len() by {
        if k < r.len() {
            assert(c.indices[k] == r[k]);
        } else if k < r.len() + s.len() {
            assert(c.indices[k] == s[k - r.len()]);
        } else {
            assert(c.indices[k] == e[k - r.len() - s.len()]);
        }
    }
}

/// Appends a cap over the rail vertices `left` and `right`: its center, the
/// `CAP_SEGMENTS + 1` points of its arc and the fan of wedges between them.
pub fn draw_cap(vertices: &mut Vec<VertexSource>, indices: &mut Vec<u16>, left: u16, right: u16)
    requires
        old(vertices)@.len() + CAP_VERTICES <= u16::MAX + 1,
    ensures
        final(vertices)@ == old(vertices)@ + cap_vertices(left, right),
        final(indices)@ == old(indices)@ + fan(old(vertices)@.len() as int, CAP_SEGMENTS as int),
{
    let base = vertices.len() as u16;
    let ghost vs0 = vertices@;
    let ghost is0 = indices@;
    vertices.push(VertexSource::CapCenter { left, right });
    let mut j: u16 = 0;
    while j as usize <= CAP_SEGMENTS
        invariant
            0 <= j <= CAP_SEGMENTS + 1,
            vertices@ == vs0 + seq![VertexSource::CapCenter { left, right }] + arc(left, right, j as int),
        decreases CAP_SEGMENTS + 1 - j,
    {
        vertices.push(VertexSource::CapArc { left, right, step: j });
        j += 1;
        assert(vertices@ =~= vs0 + seq![VertexSource::CapCenter { left, right }] + arc(left, right, j as int));
    }
    assert(vertices@ =~= vs0 + cap_vertices(left, right));
    let mut w: u16 = 0;
    while (w as usize) < CAP_SEGMENTS
        invariant
            0 <= w <= CAP_SEGMENTS,
            base as int == vs0.len(),
            vs0.len() + CAP_VERTICES <= u16::MAX + 1,
            indices@ == is0 + fan(base as int, w as int),
        decreases CAP_SEGMENTS - w,
    {
        indices.push(base);
        indices.push(base + 1 + w);
        indices.push(base + 2 + w);
        w += 1;
        assert(indices@ =~= is0 + fan(base as int, w as int));
    }
}

/// Lays out the mesh of the samples `first..=last` of `points`: two rail vertices
/// per sample, two triangles per segment, and the caps asked for.
pub fn build_stroke_mesh_chunk(
    points: &[Point],
    first: usize,
    last: usize,
    draw_start_cap: bool,
    draw_end_cap: bool,
) -> (c: MeshChunk)
    requires
        first < last < points@.len(),
        last - first + 1 <= MAX_WINDOW_POINTS,
    ensures
        c@ == chunk_model(points@, first as int, last as int, draw_start_cap, draw_end_cap),
{
    let ghost pts = points@;
    let m = last - first + 1;
    let mut vertices: Vec<VertexSource> = Vec::new();
    let mut indices: Vec<u16> = Vec::new();
    let mut prev: Option<(usize, usize)> = None;
    let mut i: usize = 0;
    while i < m
        invariant
            m == last - first + 1,
            first < last < pts.len(),
            pts == points@,
            0 <= i <= m,
            vertices@ == rails(pts, first as int, last as int, i as int),
            i > 0 ==> prev == tangent(pts, first as int, last as int, first + i - 1),
        decreases m - i,
    {
        let p = first + i;
        let (a, b) = if p == last { (p - 1, p) } else { (p, p + 1) };
        let t = if points[a].x != points[b].x || points[a].y != points[b].y {
            Some((a, b))
        } else if i == 0 {
            None
        } else {
            prev
        };
        assert(t == tangent(pts, first as int, last as int, p as int));
        vertices.push(VertexSource::Rail { point: p, side: Side::Left, tangent: t });
        vertices.push(VertexSource::Rail { point: p, side: Side::Right, tangent: t });
        prev = t;
        i += 1;
    }
    proof {
        lemma_rails_len(pts, first as int, last as int, m as int);
    }
    let mut s: usize = 0;
    while s + 1 < m
        invariant
            m == last - first + 1,
            m <= MAX_WINDOW_POINTS,
            0 <= s < m,
            indices@ == ribbon(s as int),
        decreases m - s,
    {
        let a = (2 * s) as u16;
        indices.push(a);
        indices.push(a + 1);
        indices.push(a + 2);
        indices.push(a + 2);
        indices.push(a + 1);
        indices.push(a + 3);
        s += 1;
        assert(indices@ =~= ribbon(s as int));
    }
    proof {
        lemma_arc_len(0, 1, CAP_SEGMENTS + 1);
    }
    if draw_start_cap {
        draw_cap(&mut vertices, &mut indices, 0, 1);
    }
    if draw_end_cap {
        let l = (2 * m - 2) as u16;
        draw_cap(&mut vertices, &mut indices, l, l + 1);
    }
    let c = MeshChunk {
        first,
        last,
        start_cap: draw_start_cap,
        end_cap: draw_end_cap,
        vertices,
        indices,
    };
    proof {
        let model = chunk_model(pts, first as int, last as int, draw_start_cap, draw_end_cap);
        assert(c@.vertices =~= model.vertices);
        assert(c@.indices =~= model.indices);
    }
    c
}

/// The windows that cover the samples `start..n`, each of at most `k + 1`
/// samples, consecutive windows sharing their boundary sample.
pub open spec fn windows_from(n: int, k: int, start: int) -> Seq<(int, int)>
    decreases n - start,
{
    if k < 1 || start >= n - 1 {
        Seq::empty()
    } else {
        let end = if start + k < n - 1 { start + k } else { n - 1 };
        seq![(start, end)] + windows_from(n, k, end)
    }
}

/// The chunk over a window: only the stroke's very first sample gets a start cap
/// and only its very last sample an end cap.
pub open spec fn window_chunk(pts: Seq<Point>, w: (int, int)) -> ChunkModel {
    chunk_model(pts, w.0, w.1, w.0 == 0, w.1 == pts.len() - 1)
}

pub open spec fn window_chunks(pts: Seq<Point>, ws: Seq<(int, int)>) -> Seq<ChunkModel> {
    ws.map_values(|w: (int, int)| window_chunk(pts, w))
}

/// The chunks of a stroke tessellated `k` segments at a time.
pub open spec fn tessellation(pts: Seq<Point>, k: int) -> Seq<ChunkModel> {
    window_chunks(pts, windows_from(pts.len() as int, k, 0))
}

/// The samples of the chunks, the last sample of each left out.
pub open spec fn joined(pts: Seq<Point>, cs: Seq<ChunkModel>) -> Seq<Point>
    decreases cs.len(),
{
    if cs.len() == 0 {
        Seq::empty()
    } else {
        pts.subrange(cs[0].first, cs[0].last) + joined(pts, cs.drop_first())
    }
}

pub open spec fn caps_in(cs: Seq<ChunkModel>) -> int
    decreases cs.len(),
{
    if cs.len() == 0 {
        0
    } else {
        cap_count(cs[0].start_cap, cs[0].end_cap) + caps_in(cs.drop_first())
    }
}

proof fn lemma_windows_reassemble(pts: Seq<Point>, k: int, start: int)
    requires
        k >= 1,
        0 <= start < pts.len() - 1,
    ensures
        ({
            let cs = window_chunks(pts, windows_from(pts.len() as int, k, start));
            &&& joined(pts, cs) == pts.subrange(start, pts.len() - 1)
            &&& caps_in(cs) == (if start == 0 { 2int } else { 1int })
        }),
    decreases pts.len() - start,
{
    let n = pts.len() as int;
    let end = if start + k < n - 1 { start + k } else { n - 1 };
    let cs = window_chunks(pts, windows_from(n, k, start));
    let rest = window_chunks(pts, windows_from(n, k, end));
    assert(cs.drop_first() =~= rest);
    assert(cs[0] == window_chunk(pts, (start, end)));
    assert(joined(pts, cs) == pts.subrange(start, end) + joined(pts, rest));
    assert(caps_in(cs) == cap_count(start == 0, end == n - 1) + caps_in(rest));
    if end < n - 1 {
        lemma_windows_reassemble(pts, k, end);
        assert(pts.subrange(start, end) + pts.subrange(end, n - 1) =~= pts.subrange(start, n - 1));
    } else {
        assert(rest.len() == 0);
        assert(caps_in(rest) == 0);
        assert(joined(pts, rest) =~= Seq::<Point>::empty());
        assert(pts.subrange(start, end) + Seq::<Point>::empty() =~= pts.subrange(start, n - 1));
    }
}

/// Chunking loses nothing: stitching the chunks' sample ranges back together,
/// each shared boundary sample taken once, gives the stroke back; and across all
/// chunks there are exactly two caps, however many chunks there are.
pub proof fn lemma_chunks_reassemble(pts: Seq<Point>, k: int)
    requires
        pts.len() >= 2,
        k >= 1,
    ensures
        joined(pts, tessellation(pts, k)).push(pts.last()) == pts,
        caps_in(tessellation(pts, k)) == 2,
{
    lemma_windows_reassemble(pts, k, 0);
    assert(pts.subrange(0, pts.len() - 1).push(pts.last()) =~= pts);
}

/// Tessellates a stroke in chunks of at most `max_chunk_points + 1` samples that
/// overlap by one sample, so that every index buffer stays within 16 bits.
pub fn stroke_to_world_submeshes(points: &[Point], max_chunk_points: usize) -> (r: Vec<MeshChunk>)
    requires
        1 <= max_chunk_points,
        max_chunk_points + 1 <= MAX_WINDOW_POINTS,
    ensures
        chunks_view(r@) == tessellation(points@, max_chunk_points as int),
{
    let ghost pts = points@;
    let ghost k = max_chunk_points as int;
    let n = points.len();
    let mut result: Vec<MeshChunk> = Vec::new();
    if n < 2 {
        assert(chunks_view(result@) =~= tessellation(pts, k));
        return result;
    }
    let ghost mut done: Seq<(int, int)> = Seq::empty();
    let mut start: usize = 0;
    while start < n - 1
        invariant
            n == pts.len(),
            pts == points@,
            n >= 2,
            k == max_chunk_points,
            1 <= k,
            k + 1 <= MAX_WINDOW_POINTS,
            0 <= start <= n - 1,
            windows_from(n as int, k, 0) == done + windows_from(n as int, k, start as int),
            chunks_view(result@) == window_chunks(pts, done),
        decreases n - start,
    {
        let end = if n - 1 - start <= max_chunk_points { n - 1 } else { start + max_chunk_points };
        let chunk = build_stroke_mesh_chunk(points, start, end, start == 0, end == n - 1);
        proof {
            let w = (start as int, end as int);
            assert(windows_from(n as int, k, start as int) == seq![w] + windows_from(n as int, k, end as int));
            assert(done + windows_from(n as int, k, start as int) =~= done.push(w) + windows_from(n as int, k, end as int));
            assert(chunk@ == window_chunk(pts, w));
        }
        let ghost old_result = result@;
        result.push(chunk);
        proof {
            let w = (start as int, end as int);
            assert(chunks_view(result@) =~= chunks_view(old_result).push(chunk@));
            assert(window_chunks(pts, done.push(w)) =~= window_chunks(pts, done).push(window_chunk(pts, w)));
            done = done.push(w);
        }
        start = end;
    }
    assert(done + windows_from(n as int, k, start as int) =~= done);
    result
}

/// Tessellates a whole stroke as one chunk with both caps; none for fewer than
/// two samples.
pub fn stroke_to_world_mesh(points: &[Point]) -> (r: Option<MeshChunk>)
    requires
        points@.len() <= MAX_WINDOW_POINTS,
    ensures
        points@.len() < 2 ==> r.is_none(),
        points@.len() >= 2 ==> r.is_some()
            && r.unwrap()@ == chunk_model(points@, 0, points@.len() - 1, true, true),
{
    if points.len() < 2 {
        return None;
    }
    Some(build_stroke_mesh_chunk(points, 0, points.len() - 1, true, true))
}

} // verus!
