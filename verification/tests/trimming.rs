use solid_diff::grid::{inside, largest, largest_first, CellBox, CellRun, SegGrid};
use solid_diff::mesh::Mesh;
use solid_diff::trim::{
    boundary_links, face_note, flood_inside, footing, keeps_any, plane_note, rewind, trimmed,
    FaceNote, Footing, Side,
};
use solid_diff::weld::{add_face, nearest_face, weld_faces, Patch, Welder};

fn bits(xs: &[f64]) -> Vec<u64> {
    xs.iter().map(|x| x.to_bits()).collect()
}

#[test]
fn every_segment_is_found_in_its_cells() {
    let b = |x0, x1, y0, y1| CellBox { x0, x1, y0, y1 };
    let grid = SegGrid::build(4, 3, &[b(0, 3, 0, 0), b(1, 1, 0, 2), b(3, 3, 2, 2)]);
    let run = |y, x0, x1| CellRun { y, x0, x1 };
    // Once each, however many cells are shared.
    assert_eq!(grid.visit(&[run(0, 0, 3)]), vec![0, 1]);
    assert_eq!(grid.visit(&[run(1, 0, 3)]), vec![1]);
    assert_eq!(grid.visit(&[run(2, 3, 3), run(2, 0, 1)]), vec![2, 1]);
    assert!(grid.visit(&[run(1, 2, 3)]).is_empty());
    assert!(grid.visit(&[]).is_empty());
}

#[test]
fn points_are_inside_by_vote() {
    // No loop bounds the face: everything is inside.
    assert!(inside(true, false, false, &[1, 1, 1]));
    assert!(inside(false, false, false, &[]));
    // Each ray votes: an even count keeps the side of the anchor.
    assert!(inside(false, false, true, &[0, 2, 1]));
    assert!(!inside(false, false, true, &[1, 1, 2]));
    assert!(inside(false, false, false, &[1, 3, 2]));
    // A tie is outside.
    assert!(!inside(false, false, true, &[0, 1]));
    // The heuristic asks one ray alone.
    assert!(inside(false, true, false, &[1, 2, 2]));
    assert!(!inside(false, true, false, &[2, 1, 1]));
}

#[test]
fn the_longest_come_first() {
    let lens = bits(&[1.0, 4.0, 2.0, 4.0]);
    assert_eq!(largest_first(&lens, 3), vec![1, 3, 2]);
    assert_eq!(largest_first(&lens, 9), vec![1, 3, 2, 0]);
    assert!(largest_first(&lens, 0).is_empty());
}

#[test]
fn the_largest_is_the_first_of_the_largest() {
    assert_eq!(largest(&bits(&[0.5, 2.0, 2.0])), Some(1));
    assert_eq!(largest(&bits(&[0.0, -1.0])), None);
    assert_eq!(largest(&[]), None);
}

fn side(next: Option<usize>, wall: bool) -> Side {
    Side { next, wall }
}

/// Four triangles in a row, with a wall between the second and the third.
fn row() -> Vec<[Side; 3]> {
    let none = side(None, false);
    vec![
        [side(Some(1), false), none, none],
        [side(Some(0), false), side(Some(2), true), none],
        [side(Some(1), true), side(Some(3), false), none],
        [side(Some(2), false), none, none],
    ]
}

#[test]
fn a_flood_changes_sides_at_walls() {
    assert_eq!(
        flood_inside(&row(), Some((0, true))),
        vec![true, true, false, false]
    );
    // A wrong seed gives the complement.
    assert_eq!(
        flood_inside(&row(), Some((0, false))),
        vec![false, false, true, true]
    );
    assert_eq!(flood_inside(&row(), None), vec![false; 4]);
    assert!(keeps_any(&[false, true]));
    assert!(!keeps_any(&[false, false]));
    assert!(!keeps_any(&[]));
}

#[test]
fn trimming_that_keeps_nothing_keeps_the_rest() {
    let tris = [[0, 1, 2], [1, 2, 3], [2, 3, 4]];
    let t = trimmed(&tris, &[true, false, true]).unwrap();
    assert_eq!(t.triangles, vec![[0, 1, 2], [2, 3, 4]]);
    assert!(!t.flipped);
    let t = trimmed(&tris, &[false; 3]).unwrap();
    assert_eq!(t.triangles, tris.to_vec());
    assert!(t.flipped);
    assert!(trimmed(&[], &[]).is_none());
}

#[test]
fn rewinding_turns_triangles_over() {
    let mut tris = vec![[0, 1, 2], [3, 4, 5]];
    rewind(&mut tris);
    assert_eq!(tris.len(), 2);
    assert_ne!(tris[0], [0, 1, 2]);
    rewind(&mut tris);
    assert_eq!(tris, vec![[0, 1, 2], [3, 4, 5]]);
}

#[test]
fn loops_are_linked_and_closed() {
    assert_eq!(
        boundary_links(&[3, 2], &[true, false]),
        vec![(0, 1), (1, 2), (2, 0), (3, 4)]
    );
    assert!(boundary_links(&[], &[]).is_empty());
}

#[test]
fn faces_are_told_apart_before_meshing() {
    assert_eq!(footing(true, 0, true), Footing::Surface);
    assert_eq!(footing(true, 2, false), Footing::Surface);
    assert_eq!(
        footing(true, 0, false),
        Footing::Skipped(FaceNote::OpenSurface)
    );
    assert_eq!(footing(false, 1, false), Footing::Plane);
    assert_eq!(
        footing(false, 0, true),
        Footing::Skipped(FaceNote::NoSurface)
    );
}

#[test]
fn notes_name_the_face() {
    assert!(face_note(-7, FaceNote::NoSurface).starts_with("face #-7"));
    assert_eq!(
        plane_note(12, Some("BLENDED_EDGE")),
        "face #12 (BLENDED_EDGE): best-fit-plane fallback"
    );
    assert_eq!(
        plane_note(12, None),
        "face #12 (?): best-fit-plane fallback"
    );
    let notes = [
        FaceNote::NoSurface,
        FaceNote::OpenSurface,
        FaceNote::TooFewPoints,
        FaceNote::NoTriangulation,
        FaceNote::FloodKeptNothing,
        FaceNote::NothingSurvived,
        FaceNote::AnchorFlipped,
    ];
    let mut words: Vec<String> = notes.iter().map(|n| face_note(1, *n)).collect();
    words.sort();
    words.dedup();
    assert_eq!(words.len(), 7);
}

#[test]
fn equal_keys_are_one_vertex() {
    let mut w = Welder::new();
    assert_eq!(w.weld([1, 2, 3]), 0);
    assert_eq!(w.weld([1, 2, 4]), 1);
    assert_eq!(w.weld([1, 2, 3]), 0);
    assert_eq!(w.len(), 2);
    assert_eq!(w.find(&[1, 2, 4]), Some(1));
    assert_eq!(w.find(&[3, 2, 1]), None);
}

#[test]
fn faces_share_their_welded_vertices() {
    let mut mesh = Mesh::default();
    let mut w = Welder::new();
    let p = |x: f64| [x.to_bits(), 0, 0];
    add_face(
        &mut mesh,
        &mut w,
        5,
        &[p(0.0), p(1.0), p(2.0)],
        &[[0, 0, 0], [1, 0, 0], [2, 0, 0]],
        &[[0, 1, 2]],
        false,
    );
    add_face(
        &mut mesh,
        &mut w,
        6,
        &[p(2.0), p(1.0), p(3.0), p(1.0)],
        &[[2, 0, 0], [1, 0, 0], [3, 0, 0], [1, 0, 0]],
        // The second triangle welds down to a line and is dropped.
        &[[0, 1, 2], [1, 3, 2]],
        true,
    );
    assert_eq!(mesh.vertices, vec![p(0.0), p(1.0), p(2.0), p(3.0)]);
    assert_eq!(mesh.triangles.len(), 2);
    assert_eq!(mesh.face_ids, vec![5, 6]);
    let mut second = mesh.triangles[1];
    second.sort();
    assert_eq!(second, [1, 2, 3]);
    // Both use the edge 1-2, the second one turned over.
    assert_eq!(mesh.boundary_edge_count(), 4);
}

#[test]
fn a_body_is_welded_from_its_faces() {
    let p = |x: f64| [x.to_bits(), 0, 0];
    let patches = vec![
        Patch {
            face: 5,
            color: Some(p(0.5)),
            points: vec![p(0.0), p(1.0), p(2.0)],
            keys: vec![[0, 0, 0], [1, 0, 0], [2, 0, 0]],
            tris: vec![[0, 1, 2]],
        },
        Patch {
            face: 6,
            color: None,
            points: vec![p(2.0), p(1.0), p(3.0), p(1.0)],
            keys: vec![[2, 0, 0], [1, 0, 0], [3, 0, 0], [1, 0, 0]],
            tris: vec![[0, 1, 2], [1, 3, 2]],
        },
    ];
    let mesh = weld_faces(&patches);
    assert_eq!(mesh.vertices, vec![p(0.0), p(1.0), p(2.0), p(3.0)]);
    assert_eq!(mesh.triangles, vec![[0, 1, 2], [2, 1, 3]]);
    assert_eq!(mesh.face_ids, vec![5, 6]);
    assert_eq!(mesh.colors.len(), 1);
    assert_eq!(mesh.colors[&5], p(0.5));
    assert!(mesh.warnings.is_empty());
    assert!(weld_faces(&[]).is_empty());
}

#[test]
fn the_nearest_face_takes_the_point() {
    let d = |x: f64| Some(x.to_bits());
    assert_eq!(nearest_face(&[(3, d(0.5)), (4, d(0.1)), (5, d(0.1))], 9), 4);
    assert_eq!(nearest_face(&[(3, None)], 9), 9);
    assert_eq!(nearest_face(&[], 9), 9);
}
