use std::collections::HashMap;

use solid_diff::edges::{edge_table, table_keys};
use solid_diff::files::{obj_file, stl_file, Coords};
use solid_diff::mesh::{EdgeReport, Enclosure, Mesh, Pieces};

fn bits(v: [f64; 3]) -> [u64; 3] {
    [v[0].to_bits(), v[1].to_bits(), v[2].to_bits()]
}

fn mesh_of(vertices: &[[f64; 3]], triangles: Vec<[u32; 3]>, face_ids: Vec<i16>) -> Mesh {
    Mesh {
        vertices: vertices.iter().map(|v| bits(*v)).collect(),
        triangles,
        face_ids,
        ..Default::default()
    }
}

/// Closed, consistently-wound tetrahedron.
fn tetra() -> Mesh {
    mesh_of(
        &[
            [0.0, 0.0, 0.0],
            [1.0, 0.0, 0.0],
            [0.0, 1.0, 0.0],
            [0.0, 0.0, 1.0],
        ],
        vec![[0, 2, 1], [0, 1, 3], [0, 3, 2], [1, 2, 3]],
        vec![1, 2, 3, 4],
    )
}

fn at(m: &Mesh, i: u32) -> [f64; 3] {
    let v = m.vertices[i as usize];
    [
        f64::from_bits(v[0]),
        f64::from_bits(v[1]),
        f64::from_bits(v[2]),
    ]
}

fn volume_of(m: &Mesh, t: &[u32; 3]) -> f64 {
    let (a, b, c) = (at(m, t[0]), at(m, t[1]), at(m, t[2]));
    let n = [
        b[1] * c[2] - b[2] * c[1],
        b[2] * c[0] - b[0] * c[2],
        b[0] * c[1] - b[1] * c[0],
    ];
    (a[0] * n[0] + a[1] * n[1] + a[2] * n[2]) / 6.0
}

fn signed_volume(m: &Mesh) -> f64 {
    m.triangles.iter().map(|t| volume_of(m, t)).sum()
}

/// What each piece encloses, given which pieces lie inside another.
fn claims(m: &Mesh, pieces: &Pieces, nested: &[bool]) -> Vec<Enclosure> {
    let mut vol = vec![0.0; pieces.size.len()];
    for (i, t) in m.triangles.iter().enumerate() {
        vol[pieces.piece[i]] += volume_of(m, t);
    }
    vol.iter()
        .zip(nested)
        .map(|(v, n)| {
            if v.abs() < 1e-9 {
                Enclosure::Flat
            } else {
                Enclosure::Solid {
                    positive: *v > 0.0,
                    nested: *n,
                }
            }
        })
        .collect()
}

fn orient(m: &mut Mesh, nested: &[bool]) {
    let pieces = m.make_consistent();
    let c = claims(m, &pieces, nested);
    m.orient(&pieces, &c);
}

#[test]
fn merge_overlays_bodies_with_offset_indices() {
    let mut a = mesh_of(
        &[[0.0; 3], [1.0, 0.0, 0.0], [0.0, 1.0, 0.0]],
        vec![[0, 1, 2]],
        vec![7],
    );
    let b = mesh_of(
        &[[5.0; 3], [6.0, 5.0, 5.0], [5.0, 6.0, 5.0]],
        vec![[0, 1, 2]],
        vec![9],
    );
    a.merge(b);
    assert_eq!(a.vertices.len(), 6);
    assert_eq!(a.triangles, vec![[0, 1, 2], [3, 4, 5]]);
    assert_eq!(a.face_ids, vec![7, 9]);
}

#[test]
fn merging_keeps_colours_and_warnings() {
    let mut a = tetra();
    a.colors.insert(1, bits([0.1, 0.2, 0.3]));
    a.colors.insert(2, bits([0.4, 0.5, 0.6]));
    a.warnings.push("first".to_string());
    let mut b = tetra();
    b.colors.insert(2, bits([0.7, 0.8, 0.9]));
    b.warnings.push("second".to_string());
    a.merge(b);
    assert_eq!(a.colors.len(), 2);
    assert_eq!(a.colors[&1], bits([0.1, 0.2, 0.3]));
    assert_eq!(a.colors[&2], bits([0.7, 0.8, 0.9]));
    assert_eq!(a.warnings, vec!["first", "second"]);
}

#[test]
fn closed_solid_has_no_defective_edges() {
    let r = tetra().edge_report();
    assert_eq!(
        r,
        EdgeReport {
            triangles: 4,
            ..Default::default()
        },
        "{}",
        r.message()
    );
}

#[test]
fn a_missing_triangle_shows_up_as_open_edges() {
    let mut m = tetra();
    m.triangles.pop();
    m.face_ids.pop();
    let r = m.edge_report();
    assert_eq!(
        r.open,
        3,
        "the three edges of the missing face: {}",
        r.message()
    );
    assert_eq!(r.reversed, 0);
}

#[test]
fn a_reversed_neighbour_is_caught_though_no_edge_is_missing() {
    // Undirected counting cannot see this: every edge still has exactly
    // two users. Only the direction reveals the flip.
    let mut m = tetra();
    m.triangles[3] = [1, 3, 2];
    let r = m.edge_report();
    assert_eq!(
        r.reversed,
        3,
        "3 edges now traversed the same way twice: {}",
        r.message()
    );
    assert_eq!(
        m.boundary_edge_count(),
        0,
        "the naive check calls this closed"
    );
}

#[test]
fn overshared_and_degenerate_are_reported() {
    let mut m = tetra();
    m.vertices.push(bits([1.0, 1.0, 1.0]));
    m.triangles.push([0, 1, 4]); // a fin on an existing edge
    m.face_ids.push(5);
    m.triangles.push([2, 2, 3]); // degenerate
    m.face_ids.push(6);
    let r = m.edge_report();
    assert_eq!(r.degenerate, 1, "{}", r.message());
    assert!(
        r.overshared >= 1,
        "edge 0-1 now has three users: {}",
        r.message()
    );
    assert_eq!(r.overshared, 1);
    assert_eq!(r.open, 2, "the other two edges of the fin");
    assert_eq!(
        r.message(),
        "edges: 2 open, 0 reversed, 1 shared>2, 1 degenerate (of 6 triangles)"
    );
}

#[test]
fn one_reversed_face_is_repaired() {
    let mut m = tetra();
    m.triangles[2].swap(1, 2);
    assert_eq!(m.edge_report().reversed, 3, "setup: three bad edges");
    orient(&mut m, &[false]);
    let r = m.edge_report();
    assert_eq!(
        r.reversed,
        0,
        "orient must make neighbours agree: {}",
        r.message()
    );
    assert_eq!(r.open, 0, "{}", r.message());
}

#[test]
fn an_already_correct_mesh_is_left_alone() {
    let before = tetra();
    let mut after = tetra();
    orient(&mut after, &[false]);
    assert_eq!(before.triangles, after.triangles);
    assert!(signed_volume(&after) > 0.0);
}

#[test]
fn a_lone_inverted_shell_is_turned_right_side_out() {
    // A mesh that is one closed component with negative volume can only
    // be inside out: a genuine void needs an enclosing shell, and there
    // is none here.
    let mut m = tetra();
    for t in &mut m.triangles {
        t.swap(1, 2);
    }
    assert!(signed_volume(&m) < 0.0);
    orient(&mut m, &[false]);
    assert_eq!(m.edge_report().reversed, 0);
    assert!(
        signed_volume(&m) > 0.0,
        "a lone closed shell must enclose positive volume"
    );
}

#[test]
fn consistency_then_convention_fixes_the_sign() {
    // Three of four faces reversed: flood fill makes the shell
    // consistent, then the nesting convention turns it outward.
    let mut m = tetra();
    for i in [0, 1, 2] {
        m.triangles[i].swap(1, 2);
    }
    orient(&mut m, &[false]);
    assert_eq!(m.edge_report().reversed, 0);
    assert!(signed_volume(&m) > 0.0);
}

#[test]
fn a_void_inside_a_shell_stays_a_void() {
    // Outer tetra plus a smaller inverted tetra inside it.
    let mut m = tetra();
    let base = m.vertices.len() as u32;
    let inner = tetra();
    for i in 0..4 {
        let v = at(&inner, i);
        m.vertices.push(bits([
            0.25 + v[0] * 0.2,
            0.25 + v[1] * 0.2,
            0.25 + v[2] * 0.2,
        ]));
    }
    for t in tetra().triangles {
        // inverted: a void's normals point into the enclosed material
        m.triangles.push([base + t[0], base + t[2], base + t[1]]);
        m.face_ids.push(9);
    }
    let before = signed_volume(&m);
    assert!(before > 0.0, "outer minus void is still positive");
    orient(&mut m, &[false, true]);
    assert!(
        (signed_volume(&m) - before).abs() < 1e-12,
        "orientation of a consistent outer+void pair must not change"
    );
}

#[test]
fn an_open_sheet_makes_no_claim() {
    let mut m = tetra();
    m.triangles.truncate(2);
    m.face_ids.truncate(2);
    let before = m.triangles.clone();
    let pieces = m.make_consistent();
    assert_eq!(pieces.piece, vec![0, 0]);
    assert_eq!(pieces.size, vec![2]);
    assert_eq!(pieces.open, vec![4]);
    m.orient(
        &pieces,
        &[Enclosure::Solid {
            positive: false,
            nested: false,
        }],
    );
    assert_eq!(m.triangles, before);
}

#[test]
fn orientation_is_settled_after_one_pass() {
    // Every winding of a tetrahedron ends closed and outwards, and stays so.
    for marks in 0..16u32 {
        let mut m = tetra();
        for (i, t) in m.triangles.iter_mut().enumerate() {
            if marks >> i & 1 == 1 {
                t.swap(1, 2);
            }
        }
        orient(&mut m, &[false]);
        let r = m.edge_report();
        assert_eq!((r.open, r.reversed, r.overshared), (0, 0, 0));
        assert!(signed_volume(&m) > 0.0);
        let once = m.triangles.clone();
        orient(&mut m, &[false]);
        assert_eq!(m.triangles, once, "marks {marks:04b}");
    }
}

#[test]
fn a_one_sided_strip_is_flooded_from_its_first_triangle() {
    // Five triangles around five vertices: a Moebius strip, which no turning
    // of triangles can make agree everywhere.
    let mut m = mesh_of(
        &[[0.0; 3]; 5],
        vec![[0, 1, 2], [1, 2, 3], [2, 3, 4], [3, 4, 0], [4, 0, 1]],
        vec![1; 5],
    );
    let p = m.make_consistent();
    assert_eq!(p.piece, vec![0; 5]);
    assert_eq!(p.flipped, vec![false, true, false, true, true]);
    assert_eq!(p.size, vec![5]);
    assert_eq!(p.open, vec![5]);
    assert_eq!(m.triangles[1], [1, 3, 2]);
    assert_eq!(m.edge_report().reversed, 1);
}

#[test]
fn turning_faces_over_opens_no_edge() {
    let mut m = tetra();
    m.triangles.pop();
    m.triangles[0].swap(1, 2);
    let before = m.edge_report();
    m.make_consistent();
    let after = m.edge_report();
    assert_eq!(before.open, 3);
    assert_eq!(after.open, 3);
    assert_eq!(after.overshared, before.overshared);
    assert_eq!(after.reversed, 0);
}

#[test]
fn an_empty_mesh_is_empty() {
    let mut m = Mesh::default();
    assert!(m.is_empty());
    assert!(!tetra().is_empty());
    assert_eq!(m.boundary_edge_count(), 0);
    assert_eq!(m.edge_report(), EdgeReport::default());
    assert_eq!(m.obj_faces(), "");
    let p = m.make_consistent();
    assert!(p.size.is_empty());
}

#[test]
fn obj_faces_are_grouped_and_count_from_one() {
    let m = mesh_of(
        &[[0.0; 3]; 4],
        vec![[0, 1, 2], [1, 2, 3], [0, 1, 3]],
        vec![7, 7, -9],
    );
    assert_eq!(
        m.obj_faces(),
        "g face_7\nf 1 2 3\nf 2 3 4\ng face_-9\nf 1 2 4\n"
    );
}

#[test]
fn every_edge_is_in_the_table_once() {
    let table = edge_table(&tetra().triangles);
    let mut keys = table_keys(&table);
    keys.sort();
    let mut want: Vec<u64> = Vec::new();
    for (a, b) in [(0u64, 1u64), (0, 2), (0, 3), (1, 2), (1, 3), (2, 3)] {
        want.push(a * 0x1_0000_0000 + b);
    }
    assert_eq!(keys, want);
    let uses: HashMap<u64, u64> = keys.iter().map(|k| (*k, table[k].count as u64)).collect();
    assert!(uses.values().all(|n| *n == 2));
}

#[test]
fn obj_files_hold_vertices_and_faces() {
    let m = Mesh {
        vertices: vec![[0; 3]; 3],
        triangles: vec![[0, 1, 2]],
        face_ids: vec![7],
        ..Default::default()
    };
    let coords: Vec<Coords> = [[0.0, 0.0, 0.0], [1.0, 0.0, 0.0], [0.0, 0.5, 0.0]]
        .iter()
        .map(|v: &[f64; 3]| Coords {
            x: format!("{:.9}", v[0]),
            y: format!("{:.9}", v[1]),
            z: format!("{:.9}", v[2]),
        })
        .collect();
    assert_eq!(
        obj_file(&m, &coords),
        "# solid-diff brep2mesh\n\
         v 0.000000000 0.000000000 0.000000000\n\
         v 1.000000000 0.000000000 0.000000000\n\
         v 0.000000000 0.500000000 0.000000000\n\
         g face_7\nf 1 2 3\n"
    );
}

#[test]
fn stl_files_are_framed_little_endian() {
    let mut facet = [0u32; 12];
    facet[2] = 1.0f32.to_bits();
    facet[11] = 0x01020304;
    let data = stl_file(&[facet, facet]);
    assert_eq!(data.len(), 84 + 2 * 50);
    assert_eq!(&data[..20], b"solid-diff brep2mesh");
    assert!(data[20..80].iter().all(|b| *b == 0));
    assert_eq!(&data[80..84], &[2, 0, 0, 0]);
    assert_eq!(&data[92..96], &1.0f32.to_le_bytes());
    assert_eq!(&data[128..134], &[4, 3, 2, 1, 0, 0]);
    assert_eq!(&data[84..134], &data[134..184]);
    assert_eq!(stl_file(&[]).len(), 84);
}
