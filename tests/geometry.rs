use inkcanvas::point::Point;
use inkcanvas::simplify::ramer_douglas_peucker;
use inkcanvas::smooth::{catmull_rom_channel, catmull_rom_spline};
use inkcanvas::tessellate::{
    build_stroke_mesh_chunk, stroke_to_world_mesh, stroke_to_world_submeshes, Side, VertexSource,
};
use inkcanvas::visibility::{
    is_stroke_visible, is_visible, stroke_bounding_box, stroke_intersect, BoundingBox, Zoom,
};

fn pt(x: i32, y: i32, r: i32) -> Point {
    Point { x, y, r }
}

#[test]
fn rdp_collinear_points_collapse_at_zero_tolerance() {
    let pts = vec![pt(0, 0, 5), pt(10, 0, 5), pt(20, 0, 5)];
    let out = ramer_douglas_peucker(&pts, 0);
    assert_eq!(out, vec![pt(0, 0, 5), pt(20, 0, 5)]);
}

#[test]
fn rdp_keeps_a_point_beyond_tolerance() {
    let pts = vec![pt(0, 0, 1), pt(10, 10, 2), pt(20, 0, 3)];
    assert_eq!(ramer_douglas_peucker(&pts, 9), pts);
    assert_eq!(ramer_douglas_peucker(&pts, 10), vec![pt(0, 0, 1), pt(20, 0, 3)]);
}

#[test]
fn rdp_short_input_unchanged() {
    let pts = vec![pt(3, 4, 1), pt(3, 4, 1)];
    assert_eq!(ramer_douglas_peucker(&pts, 100), pts);
    assert_eq!(ramer_douglas_peucker(&[], 0), Vec::<Point>::new());
}

#[test]
fn rdp_recurses_on_both_sides_and_keeps_ends() {
    let pts = vec![
        pt(0, 0, 1),
        pt(10, 1, 1),
        pt(20, 30, 1),
        pt(30, 1, 1),
        pt(40, 0, 1),
    ];
    // (10, 1) and (30, 1) lie about 7.77 off the chords through (20, 30).
    assert_eq!(ramer_douglas_peucker(&pts, 7), pts);
    let out = ramer_douglas_peucker(&pts, 8);
    assert_eq!(out, vec![pt(0, 0, 1), pt(20, 30, 1), pt(40, 0, 1)]);
    let loose = ramer_douglas_peucker(&pts, 1000);
    assert_eq!(loose, vec![pt(0, 0, 1), pt(40, 0, 1)]);
}

#[test]
fn rdp_degenerate_chord_measures_distance_to_endpoint() {
    let pts = vec![pt(0, 0, 1), pt(3, 4, 1), pt(0, 0, 1)];
    assert_eq!(ramer_douglas_peucker(&pts, 4), pts);
    assert_eq!(ramer_douglas_peucker(&pts, 5), vec![pt(0, 0, 1), pt(0, 0, 1)]);
}

#[test]
fn catmull_rom_channel_midpoint_value() {
    assert_eq!(catmull_rom_channel(0, 0, 16, 16, 5, 10), 8);
    assert_eq!(catmull_rom_channel(7, -3, 100, 9, 0, 10), -3);
}

#[test]
fn catmull_rom_length_and_interpolation() {
    let pts = vec![pt(0, 0, 4), pt(100, 0, 8), pt(200, 50, 8), pt(300, 50, 4), pt(400, 0, 4)];
    let out = catmull_rom_spline(&pts, 10);
    assert_eq!(out.len(), (pts.len() - 1) * 10 + 1);
    for (j, p) in pts.iter().enumerate() {
        assert_eq!(out[j * 10], *p);
    }
    assert_eq!(*out.last().unwrap(), pts[4]);
}

#[test]
fn catmull_rom_short_input_unchanged() {
    let pts = vec![pt(0, 0, 4), pt(100, 0, 8), pt(200, 50, 8)];
    assert_eq!(catmull_rom_spline(&pts, 10), pts);
}

#[test]
fn catmull_rom_zero_segments_keeps_last_only() {
    let pts = vec![pt(0, 0, 4), pt(1, 0, 4), pt(2, 0, 4), pt(3, 0, 4)];
    assert_eq!(catmull_rom_spline(&pts, 0), vec![pt(3, 0, 4)]);
}

fn line(n: i32) -> Vec<Point> {
    (0..n).map(|i| pt(i * 16, 0, 8)).collect()
}

#[test]
fn single_mesh_counts_with_two_caps() {
    let pts = line(5);
    let mesh = stroke_to_world_mesh(&pts).unwrap();
    assert_eq!(mesh.vertices.len(), 2 * 5 + 2 * 10);
    assert_eq!(mesh.indices.len(), 6 * 4 + 2 * 24);
    assert!(mesh.indices.iter().all(|&i| (i as usize) < mesh.vertices.len()));
    assert!(stroke_to_world_mesh(&pts[..1]).is_none());
}

#[test]
fn chunk_with_one_cap_counts() {
    let pts = line(6);
    let c = build_stroke_mesh_chunk(&pts, 0, 5, true, false);
    assert_eq!(c.vertices.len(), 2 * 6 + 10);
    assert_eq!(c.indices.len(), 6 * 5 + 24);
    assert_eq!(c.indices.len() % 3, 0);
    assert!(c.indices.iter().all(|&i| (i as usize) < c.vertices.len()));
}

#[test]
fn ribbon_and_cap_index_layout() {
    let pts = line(3);
    let c = build_stroke_mesh_chunk(&pts, 0, 2, true, true);
    assert_eq!(&c.indices[..12], &[0, 1, 2, 2, 1, 3, 2, 3, 4, 4, 3, 5]);
    assert_eq!(&c.indices[12..15], &[6, 7, 8]);
    assert_eq!(&c.indices[33..36], &[6, 14, 15]);
    assert_eq!(&c.indices[36..39], &[16, 17, 18]);
    assert_eq!(c.vertices[6], VertexSource::CapCenter { left: 0, right: 1 });
    assert_eq!(c.vertices[16], VertexSource::CapCenter { left: 4, right: 5 });
    assert_eq!(c.vertices[15], VertexSource::CapArc { left: 0, right: 1, step: 8 });
    assert_eq!(
        c.vertices[4],
        VertexSource::Rail { point: 2, side: Side::Left, tangent: Some((1, 2)) }
    );
    assert_eq!(
        c.vertices[1],
        VertexSource::Rail { point: 0, side: Side::Right, tangent: Some((0, 1)) }
    );
}

#[test]
fn coincident_samples_reuse_the_previous_direction() {
    let pts = vec![pt(0, 0, 8), pt(0, 0, 8), pt(10, 0, 8), pt(10, 0, 8)];
    let c = build_stroke_mesh_chunk(&pts, 0, 3, false, false);
    let tangents: Vec<Option<(usize, usize)>> = c
        .vertices
        .iter()
        .step_by(2)
        .map(|v| match v {
            VertexSource::Rail { tangent, .. } => *tangent,
            _ => panic!("rail vertex expected"),
        })
        .collect();
    assert_eq!(tangents, vec![None, Some((1, 2)), Some((1, 2)), Some((1, 2))]);
}

#[test]
fn chunks_overlap_by_one_point_and_hold_two_caps() {
    let pts = line(10);
    let chunks = stroke_to_world_submeshes(&pts, 3);
    let ranges: Vec<(usize, usize)> = chunks.iter().map(|c| (c.first, c.last)).collect();
    assert_eq!(ranges, vec![(0, 3), (3, 6), (6, 9)]);
    let caps: usize = chunks.iter().map(|c| c.start_cap as usize + c.end_cap as usize).sum();
    assert_eq!(caps, 2);
    assert!(chunks[0].start_cap && !chunks[0].end_cap);
    assert!(!chunks[1].start_cap && !chunks[1].end_cap);
    assert!(!chunks[2].start_cap && chunks[2].end_cap);
    let mut stitched: Vec<Point> = Vec::new();
    for c in &chunks {
        stitched.extend_from_slice(&pts[c.first..c.last]);
    }
    stitched.push(pts[9]);
    assert_eq!(stitched, pts);
}

#[test]
fn chunking_short_and_uneven_strokes() {
    assert!(stroke_to_world_submeshes(&line(1), 800).is_empty());
    let two = stroke_to_world_submeshes(&line(2), 800);
    assert_eq!(two.len(), 1);
    assert!(two[0].start_cap && two[0].end_cap);
    let uneven = stroke_to_world_submeshes(&line(8), 3);
    let ranges: Vec<(usize, usize)> = uneven.iter().map(|c| (c.first, c.last)).collect();
    assert_eq!(ranges, vec![(0, 3), (3, 6), (6, 7)]);
}

#[test]
fn bbox_far_right_of_viewport_is_not_visible() {
    let bbox = BoundingBox { min_x: 1000, max_x: 1100, min_y: 0, max_y: 100 };
    assert!(!is_visible(&bbox, 0, 0, Zoom { num: 1, den: 1 }, 500, 500));
}

#[test]
fn bbox_overlapping_viewport_is_visible() {
    let bbox = BoundingBox { min_x: 400, max_x: 600, min_y: 10, max_y: 20 };
    assert!(is_visible(&bbox, 0, 0, Zoom { num: 1, den: 1 }, 500, 500));
    let edge = BoundingBox { min_x: 500, max_x: 700, min_y: 500, max_y: 700 };
    assert!(is_visible(&edge, 0, 0, Zoom { num: 1, den: 1 }, 500, 500));
}

#[test]
fn zoom_widens_the_world_view() {
    let bbox = BoundingBox { min_x: 900, max_x: 950, min_y: 0, max_y: 10 };
    assert!(!is_visible(&bbox, 0, 0, Zoom { num: 1, den: 1 }, 500, 500));
    assert!(is_visible(&bbox, 0, 0, Zoom { num: 1, den: 2 }, 500, 500));
    assert!(!is_visible(&bbox, 1000, 0, Zoom { num: 1, den: 2 }, 500, 500));
}

#[test]
fn bounding_box_of_points() {
    let pts = vec![pt(5, -2, 1), pt(-7, 9, 1), pt(3, 4, 1)];
    assert_eq!(
        stroke_bounding_box(&pts),
        Some(BoundingBox { min_x: -7, max_x: 5, min_y: -2, max_y: 9 })
    );
    assert_eq!(stroke_bounding_box(&[]), None);
    assert!(!is_stroke_visible(&[], 0, 0, Zoom { num: 1, den: 1 }, 500, 500));
    assert!(is_stroke_visible(&pts, 0, 0, Zoom { num: 1, den: 1 }, 500, 500));
}

#[test]
fn eraser_circle_hits_within_radius() {
    let pts = vec![pt(0, 0, 1), pt(30, 40, 1)];
    assert!(stroke_intersect(&pts, 33, 44, 5));
    assert!(!stroke_intersect(&pts, 34, 44, 5));
    assert!(!stroke_intersect(&[], 0, 0, 100));
}
