use vstd::prelude::*;
use crate::command::{Command, CommandModel, CommandStack};
use crate::point::{Point, COORD_LIMIT, all_in_range};
use crate::simplify::{rdp, lemma_rdp_in_range};
use crate::smooth::{catmull_rom, catmull_rom_spline};
use crate::stroke::{Stroke, MIN_RADIUS, same_points};
use crate::tessellate::{ChunkModel, MeshChunk, chunks_view, tessellation, stroke_to_world_submeshes};
use crate::visibility::{Zoom, stroke_in_view, stroke_intersect, is_stroke_visible, touches};

verus! {

/// Tolerance with which a finished stroke is simplified: half a pixel.
pub const SIMPLIFY_TOLERANCE: u32 = 8;

/// Samples per span with which a finished stroke is smoothed.
pub const SMOOTHING_SEGMENTS: u16 = 10;

/// Segments per mesh chunk of a cached stroke.
pub const MAX_CHUNK_POINTS: usize = 800;

#[derive(Clone, Copy, Debug, PartialEq, Eq, Structural)]
pub enum ToolMode {
    Pen,
    Eraser,
}

/// The drawing: its strokes, a mesh cache slot per stroke at the same position,
/// the stroke being drawn, the undo/redo history and the tool in use.
#[derive(Debug)]
pub struct InfiniteCanvas {
    strokes: Vec<Stroke>,
    stroke_cache: Vec<Option<Vec<MeshChunk>>>,
    current_stroke: Option<Stroke>,
    command_stack: CommandStack,
    tool_mode: ToolMode,
}

/// The mathematical value of an `InfiniteCanvas`.
pub struct CanvasModel {
    pub strokes: Seq<Seq<Point>>,
    pub cache: Seq<Option<Seq<ChunkModel>>>,
    pub current: Option<Seq<Point>>,
    pub undo: Seq<CommandModel>,
    pub redo: Seq<CommandModel>,
    pub tool: ToolMode,
}

pub open spec fn strokes_view(ss: Seq<Stroke>) -> Seq<Seq<Point>> {
    ss.map_values(|s: Stroke| s@)
}

pub open spec fn slot_view(o: Option<Vec<MeshChunk>>) -> Option<Seq<ChunkModel>> {
    match o {
        Some(v) => Some(chunks_view(v@)),
        None => None,
    }
}

pub open spec fn cache_view(c: Seq<Option<Vec<MeshChunk>>>) -> Seq<Option<Seq<ChunkModel>>> {
    c.map_values(|o: Option<Vec<MeshChunk>>| slot_view(o))
}

/// The cached meshes of a stroke.
pub open spec fn stroke_mesh(s: Seq<Point>) -> Seq<ChunkModel> {
    tessellation(s, MAX_CHUNK_POINTS as int)
}

/// One cache slot per stroke; a filled slot holds that stroke's meshes; the
/// stroke being drawn is in range.
pub open spec fn model_wf(m: CanvasModel) -> bool {
    &&& m.cache.len() == m.strokes.len()
    &&& forall|i: int|
        0 <= i < m.cache.len() && (#[trigger] m.cache[i]).is_some() ==> m.cache[i].unwrap()
            == stroke_mesh(m.strokes[i])
    &&& m.current matches Some(c) ==> all_in_range(c)
}

/// The first stroke equal to `s` sits at `i`.
pub open spec fn is_first_match(strokes: Seq<Seq<Point>>, s: Seq<Point>, i: int) -> bool {
    &&& 0 <= i < strokes.len()
    &&& strokes[i] == s
    &&& forall|j: int| 0 <= j < i ==> strokes[j] != s
}

pub open spec fn first_match(strokes: Seq<Seq<Point>>, s: Seq<Point>) -> Option<int> {
    if exists|i: int| is_first_match(strokes, s, i) {
        Some(choose|i: int| is_first_match(strokes, s, i))
    } else {
        None
    }
}

/// A stroke appended with its empty cache slot and its command.
pub open spec fn add_stroke_model(m: CanvasModel, s: Seq<Point>) -> CanvasModel {
    CanvasModel {
        strokes: m.strokes.push(s),
        cache: m.cache.push(None),
        undo: m.undo.push(CommandModel::Add(s)),
        ..m
    }
}

/// The stroke as it is kept once drawn: simplified, then smoothed.
pub open spec fn finished(s: Seq<Point>) -> Seq<Point> {
    catmull_rom(rdp(s, SIMPLIFY_TOLERANCE as int), SMOOTHING_SEGMENTS as int)
}

pub open spec fn finalize_model(m: CanvasModel) -> CanvasModel {
    match m.current {
        Some(s) => add_stroke_model(CanvasModel { current: None, ..m }, finished(s)),
        None => m,
    }
}

/// Takes out the first stroke equal to `s`, with its cache slot.
pub open spec fn remove_first(m: CanvasModel, s: Seq<Point>) -> CanvasModel {
    match first_match(m.strokes, s) {
        Some(i) => CanvasModel { strokes: m.strokes.remove(i), cache: m.cache.remove(i), ..m },
        None => m,
    }
}

/// Puts `s` back at the end with an empty cache slot.
pub open spec fn append(m: CanvasModel, s: Seq<Point>) -> CanvasModel {
    CanvasModel { strokes: m.strokes.push(s), cache: m.cache.push(None), ..m }
}

/// Undo: the last command is taken; an added stroke is taken out again (the
/// first equal one; where there is none the command is dropped), a removed
/// stroke is put back at the end; the command then goes to the redo stack.
pub open spec fn undo_model(m: CanvasModel) -> CanvasModel {
    if m.undo.len() == 0 {
        m
    } else {
        let c = m.undo.last();
        let m1 = CanvasModel { undo: m.undo.drop_last(), ..m };
        match c {
            CommandModel::Add(s) => if first_match(m.strokes, s).is_some() {
                CanvasModel { redo: m.redo.push(c), ..remove_first(m1, s) }
            } else {
                m1
            },
            CommandModel::Remove(s) => CanvasModel { redo: m.redo.push(c), ..append(m1, s) },
        }
    }
}

/// Redo: the last undone command is done again and goes back to the undo stack.
pub open spec fn redo_model(m: CanvasModel) -> CanvasModel {
    if m.redo.len() == 0 {
        m
    } else {
        let c = m.redo.last();
        let m1 = CanvasModel { redo: m.redo.drop_last(), ..m };
        match c {
            CommandModel::Add(s) => CanvasModel { undo: m.undo.push(c), ..append(m1, s) },
            CommandModel::Remove(s) => if first_match(m.strokes, s).is_some() {
                CanvasModel { undo: m.undo.push(c), ..remove_first(m1, s) }
            } else {
                m1
            },
        }
    }
}

/// The sample added to the stroke being drawn, one being started if there is none.
pub open spec fn add_point_model(m: CanvasModel, x: i32, y: i32, thickness: i32) -> CanvasModel {
    let p = Point { x, y, r: if thickness < MIN_RADIUS { MIN_RADIUS } else { thickness } };
    let pts = match m.current {
        Some(c) => c,
        None => Seq::empty(),
    };
    CanvasModel { current: Some(pts.push(p)), ..m }
}

/// Erasing: in order, every stroke with a sample in the eraser circle is taken
/// out with its cache slot and recorded for undo; the rest stay in order.
pub open spec fn erase_upto(m: CanvasModel, x: i32, y: i32, radius: u32, i: int) -> CanvasModel
    decreases i,
{
    if i <= 0 {
        CanvasModel { strokes: Seq::empty(), cache: Seq::empty(), ..m }
    } else {
        let e = erase_upto(m, x, y, radius, i - 1);
        let s = m.strokes[i - 1];
        if touches(s, x, y, radius) {
            CanvasModel { undo: e.undo.push(CommandModel::Remove(s)), ..e }
        } else {
            CanvasModel { strokes: e.strokes.push(s), cache: e.cache.push(m.cache[i - 1]), ..e }
        }
    }
}

pub open spec fn erase_model(m: CanvasModel, x: i32, y: i32, radius: u32) -> CanvasModel {
    erase_upto(m, x, y, radius, m.strokes.len() as int)
}

/// The cache after a frame: the meshes of every stroke in view, no others.
pub open spec fn culled_cache(
    m: CanvasModel,
    offset_x: i32,
    offset_y: i32,
    zoom: Zoom,
    screen_w: u32,
    screen_h: u32,
) -> Seq<Option<Seq<ChunkModel>>> {
    Seq::new(
        m.strokes.len(),
        |i: int|
            if stroke_in_view(m.strokes[i], offset_x as int, offset_y as int, zoom, screen_w as int, screen_h as int) {
                Some(stroke_mesh(m.strokes[i]))
            } else {
                None
            },
    )
}

proof fn lemma_erase_keeps(m: CanvasModel, x: i32, y: i32, radius: u32, i: int)
    ensures
        erase_upto(m, x, y, radius, i).redo == m.redo,
        erase_upto(m, x, y, radius, i).current == m.current,
        erase_upto(m, x, y, radius, i).tool == m.tool,
    decreases i,
{
    if i > 0 {
        lemma_erase_keeps(m, x, y, radius, i - 1);
    }
}

proof fn lemma_first_match_is(strokes: Seq<Seq<Point>>, s: Seq<Point>, i: int)
    requires
        is_first_match(strokes, s, i),
    ensures
        first_match(strokes, s) == Some(i),
{
    let j = choose|j: int| is_first_match(strokes, s, j);
    assert(is_first_match(strokes, s, j));
    if j < i {
        assert(strokes[j] != s);
    } else if j > i {
        assert(strokes[i] != s);
    }
}

proof fn lemma_strokes_push(ss: Seq<Stroke>, s: Stroke)
    ensures
        strokes_view(ss.push(s)) == strokes_view(ss).push(s@),
{
    assert(strokes_view(ss.push(s)) =~= strokes_view(ss).push(s@));
}

proof fn lemma_strokes_remove(ss: Seq<Stroke>, i: int)
    requires
        0 <= i < ss.len(),
    ensures
        strokes_view(ss.remove(i)) == strokes_view(ss).remove(i),
{
    assert(strokes_view(ss.remove(i)) =~= strokes_view(ss).remove(i));
}

proof fn lemma_cache_push(c: Seq<Option<Vec<MeshChunk>>>, o: Option<Vec<MeshChunk>>)
    ensures
        cache_view(c.push(o)) == cache_view(c).push(slot_view(o)),
{
    assert(cache_view(c.push(o)) =~= cache_view(c).push(slot_view(o)));
}

proof fn lemma_cache_remove(c: Seq<Option<Vec<MeshChunk>>>, i: int)
    requires
        0 <= i < c.len(),
    ensures
        cache_view(c.remove(i)) == cache_view(c).remove(i),
{
    assert(cache_view(c.remove(i)) =~= cache_view(c).remove(i));
}

proof fn lemma_cache_update(c: Seq<Option<Vec<MeshChunk>>>, i: int, o: Option<Vec<MeshChunk>>)
    requires
        0 <= i < c.len(),
    ensures
        cache_view(c.update(i, o)) == cache_view(c).update(i, slot_view(o)),
{
    assert(cache_view(c.update(i, o)) =~= cache_view(c).update(i, slot_view(o)));
}

/// On a drawing without strokes, adding A and then B and undoing leaves just A;
/// redoing then gives A and B back, in that order.
pub proof fn lemma_add_add_undo_redo(m: CanvasModel, a: Seq<Point>, b: Seq<Point>)
    requires
        m.strokes.len() == 0,
    ensures
        undo_model(add_stroke_model(add_stroke_model(m, a), b)).strokes == seq![a],
        redo_model(undo_model(add_stroke_model(add_stroke_model(m, a), b))).strokes == seq![a, b],
{
    let m2 = add_stroke_model(add_stroke_model(m, a), b);
    assert(m2.strokes =~= seq![a, b]);
    assert(m2.undo.last() == CommandModel::Add(b));
    if a == b {
        lemma_first_match_is(m2.strokes, b, 0);
    } else {
        lemma_first_match_is(m2.strokes, b, 1);
    }
    let u = undo_model(m2);
    assert(u.strokes =~= seq![a]);
    assert(u.redo.last() == CommandModel::Add(b));
    assert(redo_model(u).strokes =~= seq![a, b]);
}

/// The position of the first stroke with the samples of `s`.
fn find_stroke(strokes: &Vec<Stroke>, s: &Stroke) -> (r: Option<usize>)
    ensures
        match r {
            Some(i) => first_match(strokes_view(strokes@), s@) == Some(i as int),
            None => first_match(strokes_view(strokes@), s@).is_none(),
        },
{
    let ghost sv = strokes_view(strokes@);
    let mut i: usize = 0;
    while i < strokes.len()
        invariant
            sv == strokes_view(strokes@),
            0 <= i <= strokes@.len(),
            forall|j: int| 0 <= j < i ==> sv[j] != s@,
        decreases strokes@.len() - i,
    {
        if same_points(strokes[i].points.as_slice(), s.points.as_slice()) {
            proof {
                lemma_first_match_is(sv, s@, i as int);
            }
            return Some(i);
        }
        i += 1;
    }
    None
}

impl View for InfiniteCanvas {
    type V = CanvasModel;

    closed spec fn view(&self) -> CanvasModel {
        CanvasModel {
            strokes: strokes_view(self.strokes@),
            cache: cache_view(self.stroke_cache@),
            current: match self.current_stroke {
                Some(s) => Some(s@),
                None => None,
            },
            undo: self.command_stack.undo_view(),
            redo: self.command_stack.redo_view(),
            tool: self.tool_mode,
        }
    }
}

impl InfiniteCanvas {
    pub fn new() -> (c: InfiniteCanvas)
        ensures
            model_wf(c@),
            c@.strokes == Seq::<Seq<Point>>::empty(),
            c@.current.is_none(),
            c@.undo == Seq::<CommandModel>::empty(),
            c@.redo == Seq::<CommandModel>::empty(),
            c@.tool == ToolMode::Pen,
    {
        let c = InfiniteCanvas {
            strokes: Vec::new(),
            stroke_cache: Vec::new(),
            current_stroke: None,
            command_stack: CommandStack::new(),
            tool_mode: ToolMode::Pen,
        };
        assert(c@.strokes =~= Seq::<Seq<Point>>::empty());
        assert(c@.cache =~= Seq::<Option<Seq<ChunkModel>>>::empty());
        c
    }

    /// Appends a finished stroke with an empty cache slot and records it for undo.
    pub fn add_stroke(&mut self, stroke: Stroke)
        requires
            model_wf(old(self)@),
        ensures
            model_wf(final(self)@),
            final(self)@ == add_stroke_model(old(self)@, stroke@),
    {
        let copy = stroke.duplicate();
        proof {
            lemma_strokes_push(self.strokes@, copy);
            lemma_cache_push(self.stroke_cache@, None);
        }
        self.command_stack.push_undo(Command::AddStroke(stroke));
        self.strokes.push(copy);
        self.stroke_cache.push(None);
    }

    /// Takes out the first stroke with the samples of `stroke`, with its cache slot.
    fn remove_matching(&mut self, stroke: &Stroke) -> (found: bool)
        requires
            model_wf(old(self)@),
        ensures
            model_wf(final(self)@),
            found == first_match(old(self)@.strokes, stroke@).is_some(),
            final(self)@ == remove_first(old(self)@, stroke@),
    {
        match find_stroke(&self.strokes, stroke) {
            Some(idx) => {
                proof {
                    lemma_strokes_remove(self.strokes@, idx as int);
                    lemma_cache_remove(self.stroke_cache@, idx as int);
                }
                let ghost m0 = self@;
                self.strokes.remove(idx);
                self.stroke_cache.remove(idx);
                assert forall|i: int|
                    0 <= i < self@.cache.len() && (#[trigger] self@.cache[i]).is_some() implies self@.cache[i].unwrap()
                        == stroke_mesh(self@.strokes[i]) by {
                    if i >= idx {
                        assert(self@.cache[i] == m0.cache[i + 1]);
                        assert(self@.strokes[i] == m0.strokes[i + 1]);
                    } else {
                        assert(self@.cache[i] == m0.cache[i]);
                    }
                }
                true
            },
            None => false,
        }
    }

    /// Puts `stroke` at the end with an empty cache slot.
    fn append_stroke(&mut self, stroke: &Stroke)
        requires
            model_wf(old(self)@),
        ensures
            model_wf(final(self)@),
            final(self)@ == append(old(self)@, stroke@),
    {
        let copy = stroke.duplicate();
        proof {
            lemma_strokes_push(self.strokes@, copy);
            lemma_cache_push(self.stroke_cache@, None);
        }
        self.strokes.push(copy);
        self.stroke_cache.push(None);
    }

    /// Reverts the last command; see `undo_model`.
    pub fn undo(&mut self)
        requires
            model_wf(old(self)@),
        ensures
            model_wf(final(self)@),
            final(self)@ == undo_model(old(self)@),
    {
        match self.command_stack.pop_undo() {
            None => {},
            Some(Command::AddStroke(stroke)) => {
                if self.remove_matching(&stroke) {
                    self.command_stack.push_redo(Command::AddStroke(stroke));
                }
            },
            Some(Command::RemoveStroke(stroke)) => {
                self.append_stroke(&stroke);
                self.command_stack.push_redo(Command::RemoveStroke(stroke));
            },
        }
    }

    /// Does the last undone command again; see `redo_model`.
    pub fn redo(&mut self)
        requires
            model_wf(old(self)@),
        ensures
            model_wf(final(self)@),
            final(self)@ == redo_model(old(self)@),
    {
        match self.command_stack.pop_redo() {
            None => {},
            Some(Command::AddStroke(stroke)) => {
                self.append_stroke(&stroke);
                self.command_stack.push_undo(Command::AddStroke(stroke));
            },
            Some(Command::RemoveStroke(stroke)) => {
                if self.remove_matching(&stroke) {
                    self.command_stack.push_undo(Command::RemoveStroke(stroke));
                }
            },
        }
    }

    /// Adds a sample to the stroke being drawn, starting one if needed.
    pub fn add_point(&mut self, x: i32, y: i32, thickness: i32)
        requires
            model_wf(old(self)@),
            -COORD_LIMIT <= x <= COORD_LIMIT,
            -COORD_LIMIT <= y <= COORD_LIMIT,
            -COORD_LIMIT <= thickness <= COORD_LIMIT,
        ensures
            model_wf(final(self)@),
            final(self)@ == add_point_model(old(self)@, x, y, thickness),
    {
        let ghost m0 = self@;
        match self.current_stroke.take() {
            Some(mut s) => {
                s.add_point(x, y, thickness);
                self.current_stroke = Some(s);
            },
            None => {
                let mut s = Stroke::new();
                s.add_point(x, y, thickness);
                self.current_stroke = Some(s);
            },
        }
        assert(self@ == add_point_model(m0, x, y, thickness));
    }

    /// Finishes the stroke being drawn, if any: it is simplified, smoothed and
    /// added.
    pub fn finalize_stroke(&mut self)
        requires
            model_wf(old(self)@),
            old(self)@.current matches Some(c) ==> c.len() * (SMOOTHING_SEGMENTS as int) <= usize::MAX,
        ensures
            model_wf(final(self)@),
            final(self)@ == finalize_model(old(self)@),
    {
        match self.current_stroke.take() {
            Some(mut stroke) => {
                let ghost pts = stroke@;
                stroke.simplify(SIMPLIFY_TOLERANCE);
                proof {
                    lemma_rdp_in_range(pts, SIMPLIFY_TOLERANCE as int);
                }
                stroke.points = catmull_rom_spline(stroke.points.as_slice(), SMOOTHING_SEGMENTS);
                self.add_stroke(stroke);
            },
            None => {},
        }
    }

    /// Switches between pen and eraser and returns the new tool.
    pub fn toggle_eraser(&mut self) -> (t: ToolMode)
        requires
            model_wf(old(self)@),
        ensures
            model_wf(final(self)@),
            t == (if old(self)@.tool == ToolMode::Pen { ToolMode::Eraser } else { ToolMode::Pen }),
            final(self)@ == (CanvasModel { tool: t, ..old(self)@ }),
    {
        self.tool_mode = if self.tool_mode == ToolMode::Pen {
            ToolMode::Eraser
        } else {
            ToolMode::Pen
        };
        self.tool_mode
    }

    pub fn tool_mode(&self) -> (t: ToolMode)
        ensures
            t == self@.tool,
    {
        self.tool_mode
    }

    /// Takes out every stroke and its cache slot; the history stays.
    pub fn clear(&mut self)
        requires
            model_wf(old(self)@),
        ensures
            model_wf(final(self)@),
            final(self)@ == (CanvasModel {
                strokes: Seq::empty(),
                cache: Seq::empty(),
                ..old(self)@
            }),
    {
        self.stroke_cache.clear();
        self.strokes.clear();
        assert(self@.strokes =~= Seq::<Seq<Point>>::empty());
        assert(self@.cache =~= Seq::<Option<Seq<ChunkModel>>>::empty());
    }

    /// Replaces the drawing with loaded strokes and tool: every cache slot
    /// empty, the history cleared.
    pub fn load(&mut self, strokes: Vec<Stroke>, tool: ToolMode)
        requires
            model_wf(old(self)@),
        ensures
            model_wf(final(self)@),
            final(self)@ == (CanvasModel {
                strokes: strokes_view(strokes@),
                cache: Seq::new(strokes@.len(), |i: int| None),
                undo: Seq::empty(),
                redo: Seq::empty(),
                tool,
                ..old(self)@
            }),
    {
        let n = strokes.len();
        self.strokes = strokes;
        self.tool_mode = tool;
        let mut cache: Vec<Option<Vec<MeshChunk>>> = Vec::new();
        let mut i: usize = 0;
        while i < n
            invariant
                0 <= i <= n,
                cache_view(cache@) == Seq::new(i as nat, |k: int| None::<Seq<ChunkModel>>),
            decreases n - i,
        {
            proof {
                lemma_cache_push(cache@, None);
            }
            cache.push(None);
            i += 1;
            assert(cache_view(cache@) =~= Seq::new(i as nat, |k: int| None::<Seq<ChunkModel>>));
        }
        self.stroke_cache = cache;
        self.command_stack.clear();
        assert(self@.cache =~= Seq::new(n as nat, |k: int| None::<Seq<ChunkModel>>));
    }

    /// Erases every stroke with a sample within `radius` of (`x`, `y`); see
    /// `erase_model`.
    pub fn erase_stroke_at(&mut self, x: i32, y: i32, radius: u32)
        requires
            model_wf(old(self)@),
        ensures
            model_wf(final(self)@),
            final(self)@ == erase_model(old(self)@, x, y, radius),
    {
        let ghost m0 = self@;
        let ghost n = m0.strokes.len();
        let ghost mut j: int = 0;
        let mut i: usize = 0;
        while i < self.strokes.len()
            invariant
                model_wf(self@),
                model_wf(m0),
                n == m0.strokes.len(),
                0 <= j <= n,
                self@.strokes == erase_upto(m0, x, y, radius, j).strokes + m0.strokes.subrange(j, n as int),
                self@.cache == erase_upto(m0, x, y, radius, j).cache + m0.cache.subrange(j, n as int),
                self@.undo == erase_upto(m0, x, y, radius, j).undo,
                self@.redo == m0.redo,
                self@.current == m0.current,
                self@.tool == m0.tool,
                i == erase_upto(m0, x, y, radius, j).strokes.len(),
                i == erase_upto(m0, x, y, radius, j).cache.len(),
            decreases n - j,
        {
            let ghost e = erase_upto(m0, x, y, radius, j);
            let ghost e1 = erase_upto(m0, x, y, radius, j + 1);
            assert(self@.strokes[i as int] == m0.strokes[j]);
            assert(self@.cache[i as int] == m0.cache[j]);
            if stroke_intersect(self.strokes[i].points.as_slice(), x, y, radius) {
                proof {
                    lemma_strokes_remove(self.strokes@, i as int);
                    lemma_cache_remove(self.stroke_cache@, i as int);
                }
                let ghost before = self@;
                let st = self.strokes.remove(i);
                self.stroke_cache.remove(i);
                self.command_stack.push_undo(Command::RemoveStroke(st));
                assert(self@.strokes =~= e1.strokes + m0.strokes.subrange(j + 1, n as int));
                assert(self@.cache =~= e1.cache + m0.cache.subrange(j + 1, n as int));
                assert forall|k: int|
                    0 <= k < self@.cache.len() && (#[trigger] self@.cache[k]).is_some() implies self@.cache[k].unwrap()
                        == stroke_mesh(self@.strokes[k]) by {
                    if k >= i {
                        assert(self@.cache[k] == before.cache[k + 1]);
                        assert(self@.strokes[k] == before.strokes[k + 1]);
                    } else {
                        assert(self@.cache[k] == before.cache[k]);
                    }
                }
            } else {
                assert(self@.strokes =~= e1.strokes + m0.strokes.subrange(j + 1, n as int));
                assert(self@.cache =~= e1.cache + m0.cache.subrange(j + 1, n as int));
                i += 1;
            }
            proof {
                j = j + 1;
            }
        }
        proof {
            let e = erase_upto(m0, x, y, radius, j);
            lemma_erase_keeps(m0, x, y, radius, j);
            assert(j == n);
            assert(self@.strokes =~= e.strokes);
            assert(self@.cache =~= e.cache);
        }
    }

    /// Prepares a frame: fills the cache slot of every stroke in view that has
    /// none and empties the slots of strokes out of view.
    pub fn refresh_cache(
        &mut self,
        offset_x: i32,
        offset_y: i32,
        zoom: Zoom,
        screen_w: u32,
        screen_h: u32,
    )
        requires
            model_wf(old(self)@),
            zoom.wf(),
        ensures
            model_wf(final(self)@),
            final(self)@ == (CanvasModel {
                cache: culled_cache(old(self)@, offset_x, offset_y, zoom, screen_w, screen_h),
                ..old(self)@
            }),
    {
        let ghost m0 = self@;
        let ghost target = culled_cache(m0, offset_x, offset_y, zoom, screen_w, screen_h);
        let mut i: usize = 0;
        while i < self.strokes.len()
            invariant
                model_wf(self@),
                self@.strokes == m0.strokes,
                self@.undo == m0.undo,
                self@.redo == m0.redo,
                self@.current == m0.current,
                self@.tool == m0.tool,
                self@.cache.len() == m0.cache.len(),
                zoom.wf(),
                target == culled_cache(m0, offset_x, offset_y, zoom, screen_w, screen_h),
                0 <= i <= m0.strokes.len(),
                forall|k: int| 0 <= k < i ==> self@.cache[k] == #[trigger] target[k],
            decreases m0.strokes.len() - i,
        {
            proof {
                lemma_cache_update(self.stroke_cache@, i as int, None);
            }
            if is_stroke_visible(self.strokes[i].points.as_slice(), offset_x, offset_y, zoom, screen_w, screen_h) {
                if self.stroke_cache[i].is_none() {
                    let chunks = stroke_to_world_submeshes(self.strokes[i].points.as_slice(), MAX_CHUNK_POINTS);
                    proof {
                        lemma_cache_update(self.stroke_cache@, i as int, Some(chunks));
                    }
                    self.stroke_cache.set(i, Some(chunks));
                }
            } else {
                self.stroke_cache.set(i, None);
            }
            i += 1;
        }
        assert(self@.cache =~= target);
    }

    pub fn strokes(&self) -> (r: &Vec<Stroke>)
        ensures
            strokes_view(r@) == self@.strokes,
    {
        &self.strokes
    }

    /// The cache slot of stroke `i`.
    pub fn stroke_chunks(&self, i: usize) -> (r: &Option<Vec<MeshChunk>>)
        requires
            i < self@.strokes.len(),
            model_wf(self@),
        ensures
            slot_view(*r) == self@.cache[i as int],
    {
        &self.stroke_cache[i]
    }

    pub fn current_stroke(&self) -> (r: &Option<Stroke>)
        ensures
            match r {
                Some(s) => self@.current == Some(s@),
                None => self@.current.is_none(),
            },
    {
        &self.current_stroke
    }
}

} // verus!
