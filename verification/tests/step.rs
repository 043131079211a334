use std::collections::HashMap;

use solid_diff::graph::Graph;
use solid_diff::step::export::{export, export_faces, FacePlan};
use solid_diff::step::rims::{face_runs, rim_pairs, run_trace, Winding};
use solid_diff::step::surface::{
    nurbs_surface, polyline_bspline, surface_entity, Net, Polyline, Shapes,
};
use solid_diff::step::writer::{compress_knots, format_real, list_f, list_i, list_u32, Writer};
use solid_diff::value::{Node, Value};

fn fr(x: f64) -> String {
    format_real(x.is_finite(), &format!("{x:E}"), &format!("{x:?}"))
}

#[test]
fn reals_always_carry_a_decimal_point() {
    // STEP parsers reject `1E-7`; the mantissa must contain '.'.
    for (x, want_dot) in [
        (1.0, true),
        (0.5, true),
        (1e-7, true),
        (1e12, true),
        (-3.25e-9, true),
        (std::f64::consts::TAU, true),
    ] {
        let s = fr(x);
        assert!(
            s.contains('.'),
            "{x} formatted as {s:?} which has no decimal point"
        );
        let _ = want_dot;
        // And it must round-trip.
        let back: f64 = s.parse().unwrap();
        assert!(
            (back - x).abs() <= 1e-15 * (1.0 + x.abs()),
            "{x} -> {s} -> {back}"
        );
    }
    assert_eq!(fr(1e-7), "1.0E-7");
    assert_eq!(fr(1e7), "1.0E7");
    assert_eq!(fr(1e6), "1000000.0");
    assert_eq!(fr(1e-4), "0.0001");
    assert_eq!(fr(f64::NAN), "0.0");
}

#[test]
fn knot_compression_round_trips() {
    let expanded = [0.0f64, 0.0, 0.0, 0.5, 1.0, 1.0, 1.0];
    let bits: Vec<u64> = expanded.iter().map(|x| x.to_bits()).collect();
    let mut near = vec![false; 7];
    for i in 1..7 {
        near[i] =
            (expanded[i] - expanded[i - 1]).abs() <= 1e-12 * (1.0 + expanded[i].abs());
    }
    let (k, m) = compress_knots(&bits, &near);
    let k: Vec<f64> = k.into_iter().map(f64::from_bits).collect();
    assert_eq!(k, vec![0.0, 0.5, 1.0]);
    assert_eq!(m, vec![3, 1, 3]);
    assert_eq!(m.iter().sum::<usize>(), expanded.len());
}

fn numbers() -> HashMap<u64, String> {
    [0.0f64, 1.0, 2.0, -1.0, 0.5]
        .iter()
        .map(|x| (x.to_bits(), fr(*x)))
        .collect()
}

fn p(x: f64, y: f64, z: f64) -> [u64; 3] {
    [x.to_bits(), y.to_bits(), z.to_bits()]
}

#[test]
fn lists_are_in_brackets() {
    assert_eq!(list_u32(&[1, 22]), "(#1,#22)");
    assert_eq!(list_u32(&[]), "()");
    assert_eq!(list_i(&[2, 1, 2]), "(2,1,2)");
    assert_eq!(
        list_f(&numbers(), &[0.5f64.to_bits(), 1.0f64.to_bits()]),
        "(0.5,1.0)"
    );
}

#[test]
fn entities_are_numbered() {
    let mut w = Writer::new();
    assert_eq!(w.add("FIRST()"), 1);
    assert_eq!(w.cart(&numbers(), p(0.0, 1.0, -1.0)), 2);
    assert_eq!(
        w.ax2(&numbers(), p(0.0, 0.0, 0.0), p(0.0, 0.0, 1.0), p(1.0, 0.0, 0.0)),
        6
    );
    assert!(w.body.starts_with("#1=FIRST();\n#2=CARTESIAN_POINT('',(0.0,1.0,-1.0));\n"));
    assert!(w.body.contains("#4=DIRECTION('',(0.0,0.0,1.0));"), "{}", w.body);
    assert!(w.body.ends_with("#6=AXIS2_PLACEMENT_3D('',#3,#4,#5);\n"), "{}", w.body);
}

#[test]
fn a_polyline_is_a_spline_of_degree_one() {
    let mut w = Writer::new();
    let line = Polyline {
        points: vec![p(0.0, 0.0, 0.0), p(1.0, 0.0, 0.0), p(1.0, 1.0, 0.0)],
        knots: vec![0.0f64.to_bits(), 1.0f64.to_bits(), 2.0f64.to_bits()],
    };
    assert_eq!(polyline_bspline(&mut w, &numbers(), &line), Some(4));
    assert!(w.body.ends_with(
        "#4=B_SPLINE_CURVE_WITH_KNOTS('',1,(#1,#2,#3),.POLYLINE_FORM.,.F.,.F.,(2,1,2),(0.0,1.0,2.0),.UNSPECIFIED.);\n"
    ), "{}", w.body);
    let short = Polyline {
        points: vec![p(0.0, 0.0, 0.0)],
        knots: vec![0],
    };
    assert_eq!(polyline_bspline(&mut w, &numbers(), &short), None);
}

#[test]
fn an_incomplete_net_is_no_surface() {
    let mut w = Writer::new();
    let net = |complete| Net {
        u_degree: 1,
        v_degree: 1,
        rational: false,
        rows: vec![
            vec![p(0.0, 0.0, 0.0), p(0.0, 1.0, 0.0)],
            vec![p(1.0, 0.0, 0.0), p(1.0, 1.0, 0.0)],
        ],
        weights: vec![],
        complete,
        u_mults: vec![2, 2],
        v_mults: vec![2, 2],
        u_knots: vec![0.0f64.to_bits(), 1.0f64.to_bits()],
        v_knots: vec![0.0f64.to_bits(), 1.0f64.to_bits()],
    };
    assert_eq!(nurbs_surface(&mut w, &numbers(), &net(true)), Some(5));
    assert!(w.body.contains("#5=B_SPLINE_SURFACE_WITH_KNOTS('',1,1,((#1,#2),(#3,#4))"), "{}", w.body);
    assert_eq!(nurbs_surface(&mut w, &numbers(), &net(false)), None);
}

fn node(id: i16, name: &str, fields: Vec<(&str, Value)>) -> Node {
    Node {
        node_type: 0,
        name: name.to_string(),
        id,
        count: None,
        fields: fields
            .into_iter()
            .map(|(n, v)| (n.to_string(), v))
            .collect(),
    }
}

fn ptr(id: i16) -> Value {
    Value::Ptr(Some(id))
}

fn sense(positive: bool) -> Value {
    Value::Char(if positive { "+" } else { "-" }.to_string())
}

fn plane(id: i16) -> Node {
    node(
        id,
        "PLANE",
        vec![
            ("sense", sense(true)),
            ("pvec", Value::Vec3(p(0.0, 0.0, 0.0))),
            ("normal", Value::Vec3(p(0.0, 0.0, 1.0))),
            ("x_axis", Value::Vec3(p(1.0, 0.0, 0.0))),
        ],
    )
}

/// Two triangles that share the edge 1-2: faces 1 and 2, loops 11 and 12,
/// halfedges 21.. and 31.., edges 41.., vertices 51...
fn two_faces() -> Graph {
    let he = |id, edge, next, other, vertex, plus| {
        node(
            id,
            "HALFEDGE",
            vec![
                ("backward", ptr(next)),
                ("other", ptr(other)),
                ("edge", ptr(edge)),
                ("vertex", ptr(vertex)),
                ("sense", sense(plus)),
            ],
        )
    };
    let edge = |id, he| node(id, "EDGE", vec![("halfedge", ptr(he))]);
    Graph::new(vec![
        node(
            1,
            "FACE",
            vec![("surface", ptr(60)), ("loop", ptr(11)), ("sense", sense(true))],
        ),
        node(
            2,
            "FACE",
            vec![("surface", ptr(60)), ("loop", ptr(12)), ("sense", sense(false))],
        ),
        node(3, "FACE", vec![("loop", ptr(11))]),
        node(11, "LOOP", vec![("halfedge", ptr(21))]),
        node(12, "LOOP", vec![("halfedge", ptr(31))]),
        he(21, 41, 22, 31, 51, true),
        he(22, 42, 23, 72, 52, true),
        he(23, 43, 21, 73, 53, true),
        he(31, 41, 32, 21, 52, false),
        he(32, 44, 33, 74, 51, true),
        he(33, 45, 31, 75, 54, true),
        // The other sides of the open edges.
        he(72, 42, 72, 22, 53, false),
        he(73, 43, 73, 23, 51, false),
        he(74, 44, 74, 32, 54, false),
        he(75, 45, 75, 33, 52, false),
        edge(41, 21),
        edge(42, 22),
        edge(43, 23),
        edge(44, 32),
        edge(45, 33),
        node(51, "VERTEX", vec![]),
        node(52, "VERTEX", vec![]),
        node(53, "VERTEX", vec![]),
        node(54, "VERTEX", vec![]),
        plane(60),
        node(99, "BODY", vec![("body_type", Value::U8(1))]),
    ])
}

fn shapes(edges: &[i16]) -> Shapes {
    Shapes {
        numbers: numbers(),
        curves: HashMap::new(),
        angles: HashMap::new(),
        nets: HashMap::new(),
        grids: HashMap::new(),
        edges: edges
            .iter()
            .map(|e| {
                (
                    *e,
                    Polyline {
                        points: vec![p(0.0, 0.0, 0.0), p(1.0, 0.0, 0.0)],
                        knots: vec![0.0f64.to_bits(), 1.0f64.to_bits()],
                    },
                )
            })
            .collect(),
    }
}

fn count(s: &str, needle: &str) -> usize {
    s.matches(needle).count()
}

#[test]
fn faces_share_their_edges() {
    let g = two_faces();
    let s = shapes(&[41, 42, 43, 44, 45]);
    let ex = export(&g, &s, &HashMap::new());
    assert_eq!(ex.faces, vec![1, 2]);
    assert_eq!(ex.skipped, 1, "a face without a surface is left out");
    assert!(ex.text.starts_with("ISO-10303-21;\nHEADER;\n"));
    assert!(ex.text.ends_with("ENDSEC;\nEND-ISO-10303-21;\n"));
    // Five edges and four vertices for six halfedges.
    assert_eq!(count(&ex.text, "=EDGE_CURVE("), 5);
    assert_eq!(count(&ex.text, "=VERTEX_POINT("), 4);
    assert_eq!(count(&ex.text, "=ORIENTED_EDGE("), 6);
    assert_eq!(count(&ex.text, "=FACE_BOUND("), 2);
    assert_eq!(count(&ex.text, "=CLOSED_SHELL("), 1);
    assert_eq!(count(&ex.text, "=MANIFOLD_SOLID_BREP("), 1);
    assert!(ex.text.contains("ADVANCED_FACE('f1',"));
    // The second face's sense differs from its surface's.
    let line = ex.text.lines().find(|l| l.contains("'f2'")).unwrap();
    assert!(line.ends_with(",.F.);"), "{line}");
    // Entities are numbered without gaps.
    let numbered: Vec<u64> = ex
        .text
        .lines()
        .filter_map(|l| l.strip_prefix('#'))
        .map(|l| l.split('=').next().unwrap().parse().unwrap())
        .collect();
    assert_eq!(numbered, (1..=numbered.len() as u64).collect::<Vec<_>>());
}

#[test]
fn an_export_can_be_restricted() {
    let g = two_faces();
    let s = shapes(&[41, 42, 43, 44, 45]);
    let ex = export_faces(&g, &s, &HashMap::new(), Some(&[2]));
    assert_eq!(ex.faces, vec![2]);
    assert_eq!(ex.skipped, 0);
    assert_eq!(count(&ex.text, "=EDGE_CURVE("), 3);
}

#[test]
fn a_sheet_gets_an_open_shell() {
    let g = Graph::new(vec![node(9, "BODY", vec![("body_type", Value::U8(2))])]);
    let ex = export(&g, &shapes(&[]), &HashMap::new());
    assert_eq!(count(&ex.text, "=OPEN_SHELL('',());"), 1);
    assert!(ex.text.contains("MANIFOLD_SURFACE_SHAPE_REPRESENTATION("));
    // Without a body there is a solid.
    let none = export(&Graph::new(vec![]), &shapes(&[]), &HashMap::new());
    assert!(none.text.contains("ADVANCED_BREP_SHAPE_REPRESENTATION("));
}

/// A face with two rims: loops 11 and 12, each one closed edge.
fn band() -> Graph {
    let he = |id: i16, edge, other| {
        node(
            id,
            "HALFEDGE",
            vec![
                ("backward", ptr(id)),
                ("other", ptr(other)),
                ("edge", ptr(edge)),
                ("sense", sense(id < 30)),
            ],
        )
    };
    Graph::new(vec![
        node(
            1,
            "FACE",
            vec![("surface", ptr(60)), ("loop", ptr(11)), ("sense", sense(true))],
        ),
        node(11, "LOOP", vec![("halfedge", ptr(21)), ("next", ptr(12))]),
        node(12, "LOOP", vec![("halfedge", ptr(22))]),
        he(21, 41, 31),
        he(22, 42, 32),
        he(31, 41, 21),
        he(32, 42, 22),
        node(41, "EDGE", vec![("halfedge", ptr(21))]),
        node(42, "EDGE", vec![("halfedge", ptr(22))]),
        plane(60),
    ])
}

#[test]
fn rims_are_joined_by_a_seam() {
    let g = band();
    let s = shapes(&[41, 42]);
    let seam = || Polyline {
        points: vec![p(0.0, 0.0, 0.0), p(0.0, 1.0, 0.0)],
        knots: vec![0.0f64.to_bits(), 1.0f64.to_bits()],
    };
    let plan = |alike: bool| {
        let mut m = HashMap::new();
        m.insert(
            1i16,
            FacePlan {
                windings: vec![
                    Some(Winding {
                        dim: 0,
                        positive: true,
                    }),
                    Some(Winding {
                        dim: 0,
                        positive: alike,
                    }),
                ],
                pairs: vec![(0, 1)],
                seams: vec![seam()],
            },
        );
        m
    };
    let ex = export(&g, &s, &plan(true));
    assert_eq!(count(&ex.text, "=FACE_BOUND("), 1);
    assert_eq!(count(&ex.text, "=EDGE_CURVE("), 3);
    let oriented: Vec<&str> = ex
        .text
        .lines()
        .filter(|l| l.contains("=ORIENTED_EDGE("))
        .map(|l| &l[l.len() - 5..l.len() - 2])
        .collect();
    // The second rim runs the other way round: it wound like the first.
    assert_eq!(oriented, vec![".T.", ".T.", ".F.", ".F."]);
    let ex = export(&g, &s, &plan(false));
    let oriented: Vec<&str> = ex
        .text
        .lines()
        .filter(|l| l.contains("=ORIENTED_EDGE("))
        .map(|l| &l[l.len() - 5..l.len() - 2])
        .collect();
    assert_eq!(oriented, vec![".T.", ".T.", ".T.", ".F."]);
    // Without a plan each rim is a bound of its own.
    let ex = export(&g, &s, &HashMap::new());
    assert_eq!(count(&ex.text, "=FACE_BOUND("), 2);
    // A plan for loops that are not there is passed over.
    let mut bad = plan(true);
    bad.get_mut(&1).unwrap().pairs = vec![(0, 7)];
    let ex = export(&g, &s, &bad);
    assert_eq!(count(&ex.text, "=FACE_BOUND("), 2);
}

#[test]
fn runs_pass_over_edges_without_samples() {
    let g = two_faces();
    let edges = shapes(&[41, 43]).edges;
    let runs = face_runs(&g, &edges, g.get(1).unwrap());
    assert_eq!(runs.len(), 1);
    let ids: Vec<(i16, bool)> = runs[0].steps.iter().map(|(n, f)| (n.id, *f)).collect();
    assert_eq!(ids, vec![(41, true), (43, true)]);
    assert_eq!(run_trace(&edges, &runs[0]).len(), 4);
    let runs = face_runs(&g, &edges, g.get(2).unwrap());
    let ids: Vec<(i16, bool)> = runs[0].steps.iter().map(|(n, f)| (n.id, *f)).collect();
    assert_eq!(ids, vec![(41, false)]);
    // Backwards, the samples come in the other order.
    assert_eq!(
        run_trace(&edges, &runs[0]),
        vec![p(1.0, 0.0, 0.0), p(0.0, 0.0, 0.0)]
    );
}

#[test]
fn each_rim_is_joined_with_the_nearest_free_one() {
    let w = |dim| {
        Some(Winding {
            dim,
            positive: true,
        })
    };
    let gap = |rows: &[&[f64]]| -> Vec<Vec<u64>> {
        rows.iter()
            .map(|r| r.iter().map(|x| x.to_bits()).collect())
            .collect()
    };
    let far = gap(&[
        &[0.0, 9.0, 1.0, 5.0],
        &[9.0, 0.0, 5.0, 2.0],
        &[1.0, 5.0, 0.0, 9.0],
        &[5.0, 2.0, 9.0, 0.0],
    ]);
    let none: Vec<Vec<bool>> = vec![vec![false; 4]; 4];
    assert_eq!(
        rim_pairs(&[w(0), w(0), w(0), w(0)], &far, &none),
        vec![(0, 2), (1, 3)]
    );
    // Only loops that wind the same period are joined.
    assert_eq!(
        rim_pairs(&[w(0), None, w(1), w(0)], &far, &none),
        vec![(0, 3)]
    );
    // A seam that would cross a loop is not drawn.
    let mut crossed = none.clone();
    crossed[0][2] = true;
    assert_eq!(
        rim_pairs(&[w(0), w(0), w(0), w(0)], &far, &crossed),
        vec![(1, 3)]
    );
}

#[test]
fn surfaces_without_their_fields_are_not_written() {
    let g = Graph::new(vec![
        plane(60),
        node(61, "PLANE", vec![]),
        node(
            62,
            "OFFSET_SURF",
            vec![
                ("surface", ptr(60)),
                ("offset", Value::F64(0.5f64.to_bits())),
                ("sense", sense(true)),
            ],
        ),
        node(63, "OFFSET_SURF", vec![("surface", ptr(63))]),
        node(
            64,
            "OFFSET_SURF",
            vec![("surface", ptr(64)), ("offset", Value::F64(0.5f64.to_bits()))],
        ),
    ]);
    let s = shapes(&[]);
    let at = |id: i16| {
        let mut w = Writer::new();
        let r = surface_entity(&mut w, &s, &g, 1, g.get(id).unwrap());
        (r.is_some(), w.body)
    };
    assert!(at(60).0);
    assert!(at(60).1.contains("=PLANE('',"));
    assert!(!at(61).0);
    assert!(at(62).0);
    assert!(at(62).1.contains("=OFFSET_SURFACE('',"));
    assert!(!at(63).0);
    // A surface that hangs from itself ends nowhere.
    assert!(!at(64).0);
}
