use inkcanvas::canvas::{InfiniteCanvas, ToolMode, MAX_CHUNK_POINTS};
use inkcanvas::command::{Command, CommandStack};
use inkcanvas::input::StylusButton;
use inkcanvas::point::Point;
use inkcanvas::stroke::Stroke;
use inkcanvas::visibility::Zoom;

fn stroke(pts: &[(i32, i32)]) -> Stroke {
    let mut s = Stroke::new();
    for &(x, y) in pts {
        s.add_point(x, y, 16);
    }
    s
}

fn points(c: &InfiniteCanvas) -> Vec<Vec<Point>> {
    c.strokes().iter().map(|s| s.points.clone()).collect()
}

#[test]
fn add_add_undo_redo() {
    let a = stroke(&[(0, 0), (10, 0)]);
    let b = stroke(&[(0, 50), (10, 50)]);
    let mut c = InfiniteCanvas::new();
    c.add_stroke(a.duplicate());
    c.add_stroke(b.duplicate());
    c.undo();
    assert_eq!(points(&c), vec![a.points.clone()]);
    c.redo();
    assert_eq!(points(&c), vec![a.points.clone(), b.points.clone()]);
}

#[test]
fn undo_of_erase_puts_stroke_back_at_end() {
    let a = stroke(&[(0, 0), (10, 0)]);
    let b = stroke(&[(1000, 1000), (1010, 1000)]);
    let mut c = InfiniteCanvas::new();
    c.add_stroke(a.duplicate());
    c.add_stroke(b.duplicate());
    c.erase_stroke_at(5, 0, 20);
    assert_eq!(points(&c), vec![b.points.clone()]);
    c.undo();
    assert_eq!(points(&c), vec![b.points.clone(), a.points.clone()]);
    c.redo();
    assert_eq!(points(&c), vec![b.points.clone()]);
}

#[test]
fn undo_with_empty_history_changes_nothing() {
    let mut c = InfiniteCanvas::new();
    c.undo();
    c.redo();
    assert!(c.strokes().is_empty());
}

#[test]
fn duplicate_strokes_undo_takes_the_first() {
    let a = stroke(&[(0, 0), (10, 0)]);
    let b = stroke(&[(5, 5), (6, 6)]);
    let mut c = InfiniteCanvas::new();
    c.add_stroke(a.duplicate());
    c.add_stroke(b.duplicate());
    c.add_stroke(a.duplicate());
    c.undo();
    assert_eq!(points(&c), vec![b.points.clone(), a.points.clone()]);
}

#[test]
fn cache_slots_follow_their_strokes() {
    let near = stroke(&[(0, 0), (100, 0), (200, 0)]);
    let far = stroke(&[(100000, 0), (100100, 0)]);
    let other = stroke(&[(0, 300), (50, 300)]);
    let mut c = InfiniteCanvas::new();
    c.add_stroke(near.duplicate());
    c.add_stroke(far.duplicate());
    c.add_stroke(other.duplicate());
    let zoom = Zoom { num: 1, den: 1 };
    c.refresh_cache(0, 0, zoom, 1000, 1000);
    assert!(c.stroke_chunks(0).is_some());
    assert!(c.stroke_chunks(1).is_none());
    assert!(c.stroke_chunks(2).is_some());
    c.erase_stroke_at(0, 0, 4);
    assert_eq!(c.strokes().len(), 2);
    assert!(c.stroke_chunks(0).is_none());
    let chunks = c.stroke_chunks(1).as_ref().unwrap();
    assert_eq!(chunks.len(), 1);
    assert_eq!((chunks[0].first, chunks[0].last), (0, 1));
    c.refresh_cache(100000, 0, zoom, 1000, 1000);
    assert!(c.stroke_chunks(0).is_some());
    assert!(c.stroke_chunks(1).is_none());
}

#[test]
fn long_stroke_is_cached_in_chunks() {
    let pts: Vec<(i32, i32)> = (0..2000).map(|i| (i, 0)).collect();
    let mut c = InfiniteCanvas::new();
    c.add_stroke(stroke(&pts));
    c.refresh_cache(0, 0, Zoom { num: 1, den: 1 }, 5000, 5000);
    let chunks = c.stroke_chunks(0).as_ref().unwrap();
    let ranges: Vec<(usize, usize)> = chunks.iter().map(|ch| (ch.first, ch.last)).collect();
    assert_eq!(ranges, vec![(0, MAX_CHUNK_POINTS), (800, 1600), (1600, 1999)]);
}

#[test]
fn finalize_simplifies_and_smooths() {
    let mut c = InfiniteCanvas::new();
    for &(x, y) in &[(0, 0), (160, 0), (320, 0), (320, 320), (640, 320)] {
        c.add_point(x, y, 2);
    }
    assert_eq!(c.current_stroke().as_ref().unwrap().points[0].r, 8);
    c.finalize_stroke();
    assert!(c.current_stroke().is_none());
    let s = &c.strokes()[0].points;
    // (160, 0) lies on the chord of its neighbours and is dropped: four samples
    // remain, smoothed at ten per span through each of them.
    assert_eq!(s.len(), 3 * 10 + 1);
    assert_eq!(s[0], Point { x: 0, y: 0, r: 8 });
    assert_eq!(s[10], Point { x: 320, y: 0, r: 8 });
    assert_eq!(s[20], Point { x: 320, y: 320, r: 8 });
    assert_eq!(s[30], Point { x: 640, y: 320, r: 8 });
    c.undo();
    assert!(c.strokes().is_empty());
}

#[test]
fn finalize_without_stroke_does_nothing() {
    let mut c = InfiniteCanvas::new();
    c.finalize_stroke();
    assert!(c.strokes().is_empty());
    c.undo();
    assert!(c.strokes().is_empty());
}

#[test]
fn clear_load_and_tools() {
    let mut c = InfiniteCanvas::new();
    assert_eq!(c.tool_mode(), ToolMode::Pen);
    assert_eq!(c.toggle_eraser(), ToolMode::Eraser);
    assert_eq!(c.toggle_eraser(), ToolMode::Pen);
    c.add_stroke(stroke(&[(0, 0), (1, 1)]));
    c.clear();
    assert!(c.strokes().is_empty());
    c.undo();
    assert!(c.strokes().is_empty());
    c.load(vec![stroke(&[(0, 0), (1, 1)]), stroke(&[(5, 5), (6, 6)])], ToolMode::Eraser);
    assert_eq!(c.strokes().len(), 2);
    assert!(c.stroke_chunks(0).is_none() && c.stroke_chunks(1).is_none());
    assert_eq!(c.tool_mode(), ToolMode::Eraser);
    c.undo();
    assert_eq!(c.strokes().len(), 2);
}

#[test]
fn stroke_equality_is_by_samples() {
    let a = stroke(&[(0, 0), (1, 1)]);
    assert!(a == a.duplicate());
    assert!(a != stroke(&[(0, 0), (1, 2)]));
    assert!(a != stroke(&[(0, 0)]));
}

#[test]
fn command_stack_push_and_pop() {
    let mut st = CommandStack::new();
    assert!(st.pop_undo().is_none());
    st.push_undo(Command::AddStroke(stroke(&[(1, 1)])));
    st.push_undo(Command::RemoveStroke(stroke(&[(2, 2)])));
    st.push_redo(Command::AddStroke(stroke(&[(3, 3)])));
    match st.pop_undo() {
        Some(Command::RemoveStroke(s)) => assert_eq!(s.points[0].x, 2),
        _ => panic!("remove command expected"),
    }
    match st.pop_redo() {
        Some(Command::AddStroke(s)) => assert_eq!(s.points[0].x, 3),
        _ => panic!("add command expected"),
    }
    assert!(st.pop_redo().is_none());
    st.clear();
    assert!(st.pop_undo().is_none());
}

#[test]
fn stylus_double_click() {
    let mut b = StylusButton::new();
    assert!(!b.press(1000));
    assert!(!b.press(1100));
    b.release();
    assert!(b.press(1250));
    b.release();
    assert!(!b.press(1600));
    b.release();
    assert!(b.press(1500));
}

#[test]
fn redo_entries_survive_new_strokes() {
    let a = stroke(&[(0, 0), (10, 0)]);
    let b = stroke(&[(0, 50), (10, 50)]);
    let mut c = InfiniteCanvas::new();
    c.add_stroke(a.duplicate());
    c.undo();
    c.add_stroke(b.duplicate());
    c.redo();
    assert_eq!(points(&c), vec![b.points.clone(), a.points.clone()]);
}
