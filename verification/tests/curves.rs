use solid_diff::double::{from_int, is_less, truncate};
use solid_diff::graph::Graph;
use solid_diff::nurbs::{
    curve_shape, expand_knots, expand_loosely, knot_span, split_vertices, surface_shape,
};
use solid_diff::sample::{
    edge_ends, edge_range, face_edges, is_exact_surface, line_parts, meeting_surfaces, next_parts,
    pin_ends, unusable_edge, Chain, EdgeRange, EdgeSampler, Join, MAX_EDGE_SAMPLES,
};
use solid_diff::value::{Node, Value};

fn b(xs: &[f64]) -> Vec<u64> {
    xs.iter().map(|x| x.to_bits()).collect()
}

fn p(x: f64) -> [u64; 3] {
    [x.to_bits(), 0, 0]
}

#[test]
fn numbers_are_ordered_by_their_bits() {
    let xs = [f64::NEG_INFINITY, -2.5, -0.0, 1e-300, 3.0, f64::INFINITY];
    for (i, a) in xs.iter().enumerate() {
        for (k, c) in xs.iter().enumerate() {
            assert_eq!(is_less(a.to_bits(), c.to_bits()), i < k, "{a} < {c}");
        }
    }
    assert!(!is_less((-0.0f64).to_bits(), 0.0f64.to_bits()));
    assert!(!is_less(f64::NAN.to_bits(), 1.0f64.to_bits()));
    assert!(!is_less(1.0f64.to_bits(), f64::NAN.to_bits()));
}

#[test]
fn whole_numbers_round_trip() {
    for n in [0, 1, -1, 7, -32768, i32::MAX, i32::MIN] {
        assert_eq!(from_int(n), (n as f64).to_bits());
        assert_eq!(truncate(from_int(n)), n as i64);
    }
    for x in [0.9, -0.9, 2.5, -1e10, 1e300, -1e300, f64::NAN, f64::INFINITY] {
        assert_eq!(truncate(x.to_bits()), x as i64, "{x}");
    }
}

#[test]
fn knots_are_expanded_by_their_multiplicities() {
    assert_eq!(
        expand_knots(&b(&[0.0, 0.5, 1.0]), &[2, 1, 2]),
        Some(b(&[0.0, 0.0, 0.5, 1.0, 1.0]))
    );
    assert_eq!(expand_knots(&b(&[0.0]), &[1, 2]), None);
    assert_eq!(expand_knots(&[], &[]), None);
    assert_eq!(expand_knots(&b(&[0.0]), &[0]), None);
    assert_eq!(expand_knots(&b(&[0.0]), &[-1]), None);
    assert_eq!(
        expand_loosely(&b(&[0.0, 1.0]), &[2]),
        Some(b(&[0.0, 0.0]))
    );
    // A curve or a surface that is evaluated repeats no knot more than a
    // million times; a list of knots that is only written down may.
    assert_eq!(expand_knots(&b(&[0.5]), &[1_000_001]), None);
    assert_eq!(
        expand_loosely(&b(&[0.5]), &[1_000_001]),
        Some(vec![0.5f64.to_bits(); 1_000_001])
    );
    assert_eq!(expand_loosely(&b(&[0.5]), &[0]), Some(vec![]));
    assert_eq!(expand_loosely(&b(&[0.5]), &[-1]), None);
    assert_eq!(expand_loosely(&b(&[0.5, 1.0]), &[1, i64::MAX]), None);
}

#[test]
fn spans_hold_their_parameter() {
    let knots = b(&[0.0, 0.0, 0.0, 1.0, 2.0, 2.0, 2.0]);
    assert_eq!(knot_span(&knots, 2, 4, 0.5f64.to_bits()), 2);
    assert_eq!(knot_span(&knots, 2, 4, 1.5f64.to_bits()), 3);
    assert_eq!(knot_span(&knots, 2, 4, 2.0f64.to_bits()), 3);
    assert_eq!(knot_span(&knots, 2, 4, 9.0f64.to_bits()), 3);
    assert_eq!(knot_span(&knots, 2, 4, (-1.0f64).to_bits()), 2);
}

#[test]
fn control_points_come_with_their_weights() {
    let one = 1.0f64.to_bits();
    let plain = split_vertices(&b(&[1.0, 2.0, 3.0, 4.0, 5.0, 6.0]), 3, false).unwrap();
    assert_eq!(plain.len(), 2);
    assert_eq!(plain[1], [4.0f64.to_bits(), 5.0f64.to_bits(), 6.0f64.to_bits(), one]);
    let weighted = split_vertices(&b(&[1.0, 2.0, 3.0, 0.5]), 4, true).unwrap();
    assert_eq!(weighted[0][3], 0.5f64.to_bits());
}

fn node(id: i16, name: &str, fields: Vec<(&str, Value)>) -> Node {
    Node {
        node_type: 0,
        name: name.to_string(),
        id,
        count: None,
        fields: fields
            .into_iter()
            .map(|(n, v)| (n.to_string(), v))
            .collect(),
    }
}

fn ptr(id: i16) -> Value {
    Value::Ptr(Some(id))
}

fn reals(xs: &[f64]) -> Value {
    Value::Array(xs.iter().map(|x| Value::F64(x.to_bits())).collect())
}

fn ints(xs: &[i16]) -> Value {
    Value::Array(xs.iter().map(|x| Value::I16(*x)).collect())
}

#[test]
fn a_curve_is_gathered_from_its_nodes() {
    let build = |mult: &[i16]| {
        Graph::new(vec![
            node(1, "B_CURVE", vec![("nurbs", ptr(2))]),
            node(
                2,
                "NURBS_CURVE",
                vec![
                    ("degree", Value::I16(1)),
                    ("n_vertices", Value::I32(2)),
                    ("vertex_dim", Value::I16(3)),
                    ("rational", Value::Bool(false)),
                    ("closed", Value::Bool(false)),
                    ("bspline_vertices", ptr(3)),
                    ("knots", ptr(4)),
                    ("knot_mult", ptr(5)),
                ],
            ),
            node(
                3,
                "BSPLINE_VERTICES",
                vec![("vertices", reals(&[0.0, 0.0, 0.0, 1.0, 0.0, 0.0]))],
            ),
            node(4, "KNOT_SET", vec![("knots", reals(&[0.0, 1.0]))]),
            node(5, "KNOT_MULT", vec![("mult", ints(mult))]),
        ])
    };
    let g = build(&[2, 2]);
    let c = curve_shape(&g, g.get(1).unwrap()).unwrap();
    assert_eq!(c.degree, 1);
    assert_eq!(c.points.len(), 2);
    assert_eq!(c.knots, b(&[0.0, 0.0, 1.0, 1.0]));
    assert!(!c.rational && !c.closed);
    // Knots that do not fit the points make no curve.
    let g = build(&[1, 1]);
    assert!(curve_shape(&g, g.get(1).unwrap()).is_none());
    assert!(curve_shape(&g, g.get(3).unwrap()).is_none());
    assert!(surface_shape(&g, g.get(1).unwrap()).is_none());
}

/// An edge from 0 to 1 between two faces on planes.
fn edged() -> Graph {
    let point = |id, x: f64| node(id, "POINT", vec![("pvec", Value::Vec3(p(x)))]);
    let plus = Value::Char("+".to_string());
    let minus = Value::Char("-".to_string());
    Graph::new(vec![
        node(1, "EDGE", vec![("halfedge", ptr(3))]),
        node(
            2,
            "HALFEDGE",
            vec![
                ("other", ptr(3)),
                ("edge", ptr(1)),
                ("vertex", ptr(4)),
                ("loop", ptr(10)),
                ("backward", ptr(2)),
                ("sense", plus),
            ],
        ),
        node(
            3,
            "HALFEDGE",
            vec![
                ("other", ptr(2)),
                ("edge", ptr(1)),
                ("vertex", ptr(5)),
                ("loop", ptr(11)),
                ("sense", minus),
            ],
        ),
        node(4, "VERTEX", vec![("point", ptr(6))]),
        node(5, "VERTEX", vec![("point", ptr(7))]),
        point(6, 0.0),
        point(7, 1.0),
        node(10, "LOOP", vec![("face", ptr(12)), ("halfedge", ptr(2))]),
        node(11, "LOOP", vec![("face", ptr(13))]),
        node(12, "FACE", vec![("surface", ptr(14)), ("loop", ptr(10))]),
        node(13, "FACE", vec![("surface", ptr(15))]),
        node(14, "PLANE", vec![]),
        node(15, "SPHERE", vec![]),
    ])
}

#[test]
fn edges_run_with_their_positive_halfedge() {
    let g = edged();
    let e = g.get(1).unwrap();
    assert_eq!(edge_ends(&g, e), (Some(p(0.0)), Some(p(1.0))));
    let ids: Vec<i16> = face_edges(&g, g.get(12).unwrap())
        .iter()
        .map(|n| n.id)
        .collect();
    assert_eq!(ids, vec![1]);
    assert_eq!(edge_ends(&g, g.get(4).unwrap()), (None, None));
}

#[test]
fn edges_meet_two_surfaces() {
    let g = edged();
    let (a, c) = meeting_surfaces(&g, g.get(1).unwrap()).unwrap();
    let mut ids = [a.id, c.id];
    ids.sort();
    assert_eq!(ids, [14, 15]);
    assert!(is_exact_surface("PLANE"));
    assert!(!is_exact_surface("BLENDED_EDGE"));
}

#[test]
fn edges_are_sampled_between_their_ends() {
    assert_eq!(
        edge_range(Some(p(0.0)), Some(p(1.0)), false, false),
        Some(EdgeRange::Line(p(0.0), p(1.0)))
    );
    assert_eq!(
        edge_range(Some(p(0.0)), Some(p(1.0)), true, true),
        Some(EdgeRange::Between(p(0.0), p(1.0)))
    );
    assert_eq!(edge_range(None, None, true, true), Some(EdgeRange::Whole));
    assert_eq!(edge_range(None, Some(p(0.0)), true, false), None);
    assert_eq!(edge_range(None, None, false, true), None);
}

#[test]
fn samples_are_doubled_until_they_are_fine() {
    assert_eq!(next_parts(8, false), Some(16));
    assert_eq!(next_parts(8, true), None);
    assert_eq!(next_parts(MAX_EDGE_SAMPLES, false), None);
    assert_eq!(line_parts(None), 1);
    assert_eq!(line_parts(Some(0)), 1);
    assert_eq!(line_parts(Some(9)), 9);
    assert_eq!(line_parts(Some(1000)), 64);
    let mut pts = vec![p(0.1), p(0.5), p(0.9)];
    pin_ends(&mut pts, Some(p(0.0)), Some(p(1.0)));
    assert_eq!(pts, vec![p(0.0), p(0.5), p(1.0)]);
    pin_ends(&mut pts, None, Some(p(7.0)));
    assert_eq!(pts, vec![p(0.0), p(0.5), p(1.0)]);
}

#[test]
fn the_finest_request_is_served() {
    let mut s = EdgeSampler::new();
    assert_eq!(f64::from_bits(s.spacing_of(3)), f64::INFINITY);
    s.request(3, 0.5f64.to_bits());
    s.request(3, 2.0f64.to_bits());
    assert_eq!(f64::from_bits(s.spacing_of(3)), 0.5);
    assert!(s.get(3).is_none());
    s.keep(3, vec![p(0.0), p(1.0)]);
    assert_eq!(s.get(3), Some(&vec![p(0.0), p(1.0)]));
    assert!(s.get(4).is_none());
    // A finer request makes the samples stale.
    s.request(3, 0.25f64.to_bits());
    assert!(s.get(3).is_none());
}

#[test]
fn faces_share_the_samples_of_their_edge() {
    let g = edged();
    let e = g.by_type("EDGE")[0];
    let mut s = EdgeSampler::new();
    s.keep_along(&g, e, vec![p(0.1), p(0.5), p(0.9)]);
    let kept = vec![p(0.0), p(0.5), p(1.0)];
    assert_eq!(s.get(e.id), Some(&kept));
    // What happens to other edges changes nothing.
    s.request(e.id + 100, 0.5f64.to_bits());
    s.keep(e.id + 100, vec![p(3.0), p(4.0)]);
    assert_eq!(s.get(e.id), Some(&kept));
}

#[test]
fn runs_are_chained_into_a_ring() {
    let mut c = Chain::new();
    assert_eq!(c.tail(), None);
    assert_eq!(c.offer(&vec![p(0.0), p(1.0)], false, false), Join::Begun);
    assert_eq!(c.offer(&vec![p(2.0), p(1.0)], false, true), Join::Turned);
    assert_eq!(c.tail(), Some(p(2.0)));
    assert_eq!(c.offer(&vec![p(2.0), p(0.0)], true, false), Join::Along);
    assert_eq!(c.points, vec![p(0.0), p(1.0), p(2.0), p(0.0)]);
    assert_eq!(c.close(true), Some(vec![p(0.0), p(1.0), p(2.0)]));
    let mut short = Chain::new();
    short.offer(&vec![p(0.0), p(1.0)], false, false);
    assert_eq!(short.close(false), None);
    assert!(unusable_edge(-4).contains("-4"));
}
