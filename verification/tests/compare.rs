use std::collections::HashMap;

use solid_diff::diff::{diff, pair_unchanged, paint, surface_params, Change, FaceSig, Param, Sig};
use solid_diff::mesh::Mesh;
use solid_diff::value::{Node, Value};

fn face(id: i16, surface: &str, params: &[i64], at: i64) -> FaceSig {
    FaceSig {
        id,
        sig: Sig {
            surface: surface.to_string(),
            params: params.to_vec(),
            extent: [at, at, at, at + 1, at + 1, at + 1],
        },
    }
}

fn part() -> Vec<FaceSig> {
    vec![
        face(1, "PLANE", &[1, 2], 0),
        face(2, "PLANE", &[1, 2], 5),
        face(3, "CYLINDER", &[7], 9),
        face(4, "PLANE", &[1, 2], 0),
    ]
}

fn apart(n: usize, m: usize) -> Vec<Vec<Option<u64>>> {
    vec![vec![None; m]; n]
}

#[test]
fn the_same_faces_do_not_differ() {
    let d = diff(&part(), &part(), &apart(4, 4));
    assert!(d.is_identical(), "{}", d.summary());
    assert_eq!(d.summary(), "4 unchanged, 0 moved, 0 added, 0 removed");
}

#[test]
fn every_face_gets_a_verdict() {
    let old = part();
    let mut new = part();
    // 3 is gone, 2 is elsewhere, and a sphere came.
    new.remove(2);
    new[1] = face(22, "PLANE", &[1, 2], 6);
    new.push(face(30, "SPHERE", &[1], 0));
    let mut gaps = apart(4, 4);
    gaps[1][1] = Some(0.5f64.to_bits());
    let d = diff(&old, &new, &gaps);
    assert_eq!(d.old.len(), 4);
    assert_eq!(d.new.len(), 4);
    assert_eq!(d.old[&1], Change::Unchanged);
    assert_eq!(d.old[&4], Change::Unchanged);
    assert_eq!(d.old[&2], Change::Moved);
    assert_eq!(d.new[&22], Change::Moved);
    assert_eq!(d.old[&3], Change::Removed);
    assert_eq!(d.new[&30], Change::Added);
    assert!(!d.is_identical());
    assert_eq!(d.summary(), "2 unchanged, 1 moved, 1 added, 1 removed");
    assert_eq!(d.count(&d.new, Change::Unchanged), 2);
    assert_eq!(
        d.count(&d.old, Change::Moved),
        d.count(&d.new, Change::Moved)
    );
}

#[test]
fn a_moved_face_is_the_nearest_of_its_kind() {
    let old = vec![face(1, "CYLINDER", &[1], 0)];
    let new = vec![
        face(5, "CYLINDER", &[2], 0),
        face(6, "CYLINDER", &[3], 0),
        face(7, "PLANE", &[4], 0),
    ];
    let near = |x: f64| Some(x.to_bits());
    let d = diff(&old, &new, &[vec![near(2.0), near(1.0), near(0.1)]]);
    assert_eq!(d.new[&6], Change::Moved);
    assert_eq!(d.new[&5], Change::Added);
    assert_eq!(d.new[&7], Change::Added, "a plane is no cylinder");
    // Out of reach nothing has moved.
    let d = diff(&old, &new, &apart(1, 3));
    assert_eq!(d.old[&1], Change::Removed);
}

#[test]
fn equal_faces_are_paired_once() {
    let one = vec![face(1, "PLANE", &[1], 0)];
    let two = vec![face(5, "PLANE", &[1], 0), face(6, "PLANE", &[1], 0)];
    let p = pair_unchanged(&one, &two);
    assert_eq!(p.old, vec![true]);
    assert_eq!(p.new.iter().filter(|x| **x).count(), 1);
    let d = diff(&one, &two, &apart(1, 2));
    assert_eq!(d.count(&d.new, Change::Added), 1);
}

#[test]
fn changes_have_words_and_colours() {
    let all = [
        Change::Unchanged,
        Change::Moved,
        Change::Added,
        Change::Removed,
    ];
    let labels: Vec<&str> = all.iter().map(|c| c.label()).collect();
    assert_eq!(labels, vec!["unchanged", "moved", "added", "removed"]);
    let c = Change::Removed.color();
    assert_eq!(
        c,
        [0.97f64.to_bits(), 0.46f64.to_bits(), 0.56f64.to_bits()]
    );
    assert_eq!(
        Change::Unchanged.color(),
        [0.62f64.to_bits(), 0.66f64.to_bits(), 0.76f64.to_bits()]
    );
    assert_eq!(
        Change::Moved.color(),
        [0.88f64.to_bits(), 0.69f64.to_bits(), 0.41f64.to_bits()]
    );
    assert_eq!(
        Change::Added.color(),
        [0.62f64.to_bits(), 0.81f64.to_bits(), 0.42f64.to_bits()]
    );
}

#[test]
fn faces_are_painted_by_their_verdict() {
    let mut mesh = Mesh {
        triangles: vec![[0, 1, 2], [0, 1, 2]],
        face_ids: vec![3, 4],
        ..Default::default()
    };
    mesh.colors.insert(3, [0, 0, 0]);
    let mut status = HashMap::new();
    status.insert(3, Change::Added);
    paint(&mut mesh, &status);
    assert_eq!(mesh.colors[&3], Change::Added.color());
}

#[test]
fn parameters_are_those_of_the_surface() {
    let n = Node {
        node_type: 0,
        name: "CYLINDER".to_string(),
        id: 1,
        count: None,
        fields: vec![
            ("radius".to_string(), Value::F64(0.5f64.to_bits())),
            ("node_id".to_string(), Value::I32(77)),
        ],
    };
    let params = surface_params(&n);
    assert!(params.contains(&Param::Real(0.5f64.to_bits())), "{params:?}");
    // Where a node sits in its file says nothing of the shape.
    let mut other = n;
    other.fields[1].1 = Value::I32(78);
    other.id = 2;
    assert_eq!(surface_params(&other), params);
}
