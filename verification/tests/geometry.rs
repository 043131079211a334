//! What the file says of its curves and surfaces.

use solid_diff::geometry::{curve_source, surface_source, CurveSource, SurfaceSource};
use solid_diff::graph::Graph;
use solid_diff::step::surface::{needed_by_surface, Need};
use solid_diff::value::{Node, NodeId, Value};

fn node(id: NodeId, name: &str, fields: Vec<(&str, Value)>) -> Node {
    Node {
        node_type: 0,
        name: name.to_string(),
        id,
        count: None,
        fields: fields
            .into_iter()
            .map(|(k, v)| (k.to_string(), v))
            .collect(),
    }
}

fn bits3(p: [f64; 3]) -> [u64; 3] {
    p.map(f64::to_bits)
}

fn v3(x: f64, y: f64, z: f64) -> Value {
    Value::Vec3(bits3([x, y, z]))
}

fn f(x: f64) -> Value {
    Value::F64(x.to_bits())
}

fn arr_f(xs: &[f64]) -> Value {
    Value::Array(xs.iter().map(|x| f(*x)).collect())
}

fn ptr(id: NodeId) -> Value {
    Value::Ptr(Some(id))
}

fn plane_node(id: NodeId, p: [f64; 3], n: [f64; 3], x: [f64; 3]) -> Node {
    node(
        id,
        "PLANE",
        vec![
            ("pvec", v3(p[0], p[1], p[2])),
            ("normal", v3(n[0], n[1], n[2])),
            ("x_axis", v3(x[0], x[1], x[2])),
        ],
    )
}

fn line_node(id: NodeId) -> Node {
    node(
        id,
        "LINE",
        vec![
            ("pvec", v3(3.0, 0.0, 0.0)),
            ("direction", v3(0.0, 0.0, 1.0)),
        ],
    )
}

#[test]
fn unsupported_and_broken_nodes_return_none() {
    let nodes = vec![
        node(1, "PE_CURVE", vec![("pvec", v3(0.0, 0.0, 0.0))]),
        node(2, "LINE", vec![("pvec", v3(0.0, 0.0, 0.0))]), // missing direction
        node(3, "B_CURVE", vec![("nurbs", Value::Ptr(None))]),
        node(4, "CIRCLE", vec![("centre", v3(0.0, 0.0, 0.0))]),
        node(5, "SPHERE", vec![("radius", f(1.0))]),
        node(6, "PLANE", vec![("pvec", v3(0.0, 0.0, 0.0))]),
        node(7, "FOO_SURF", vec![]),
        node(8, "B_SURFACE", vec![("nurbs", ptr(99))]), // dangling
    ];
    let g = Graph::new(nodes);
    for id in [1, 2, 3, 4] {
        assert!(curve_source(&g, g.get(id).unwrap()).is_none(), "curve {id}");
    }
    for id in [5, 6, 7, 8] {
        assert!(
            surface_source(&g, g.get(id).unwrap()).is_none(),
            "surface {id}"
        );
    }
}

#[test]
fn lines_and_circles_are_read_field_by_field() {
    let g = Graph::new(vec![
        line_node(1),
        node(
            2,
            "CIRCLE",
            vec![
                ("centre", v3(1.0, 2.0, 3.0)),
                ("normal", v3(0.0, 0.0, 1.0)),
                ("x_axis", v3(1.0, 0.0, 0.0)),
                ("radius", f(2.5)),
            ],
        ),
        node(
            3,
            "ELLIPSE",
            vec![
                ("centre", v3(1.0, 2.0, 3.0)),
                ("normal", v3(0.0, 0.0, 1.0)),
                ("x_axis", v3(1.0, 0.0, 0.0)),
                ("major_radius", f(2.0)),
                ("minor_radius", f(-0.0)),
            ],
        ),
    ]);
    match curve_source(&g, g.get(1).unwrap()) {
        Some(CurveSource::Line { point, direction }) => {
            assert_eq!(point, bits3([3.0, 0.0, 0.0]));
            assert_eq!(direction, bits3([0.0, 0.0, 1.0]));
        }
        _ => panic!("not a line"),
    }
    match curve_source(&g, g.get(2).unwrap()) {
        Some(CurveSource::Circle {
            centre,
            normal,
            x_axis,
            radius,
        }) => {
            assert_eq!(centre, bits3([1.0, 2.0, 3.0]));
            assert_eq!(normal, bits3([0.0, 0.0, 1.0]));
            assert_eq!(x_axis, bits3([1.0, 0.0, 0.0]));
            assert_eq!(f64::from_bits(radius), 2.5);
        }
        _ => panic!("not a circle"),
    }
    // An ellipse without a width is none.
    assert!(curve_source(&g, g.get(3).unwrap()).is_none());
}

/// The point of a line at parameter `t`.
fn on_line(g: &Graph, line: &Node, t: f64) -> [f64; 3] {
    match curve_source(g, line) {
        Some(CurveSource::Line { point, direction }) => [0, 1, 2]
            .map(|i: usize| f64::from_bits(point[i]) + t * f64::from_bits(direction[i])),
        _ => panic!("not a line"),
    }
}

#[test]
fn trimmed_curve_range_and_delegation() {
    let g = Graph::new(vec![
        node(
            1,
            "TRIMMED_CURVE",
            vec![
                ("basis_curve", ptr(2)),
                ("parm_1", f(0.5)),
                ("parm_2", f(2.0)),
                ("point_1", v3(0.5, 0.0, 0.0)),
                ("point_2", v3(2.0, 0.0, 0.0)),
            ],
        ),
        node(
            2,
            "LINE",
            vec![
                ("pvec", v3(0.0, 0.0, 0.0)),
                ("direction", v3(1.0, 0.0, 0.0)),
            ],
        ),
    ]);
    match curve_source(&g, g.get(1).unwrap()) {
        Some(CurveSource::Trimmed {
            basis, from, to, ..
        }) => {
            assert_eq!((f64::from_bits(from), f64::from_bits(to)), (0.5, 2.0));
            assert_eq!(on_line(&g, basis, 1.25), [1.25, 0.0, 0.0]);
            assert_eq!(on_line(&g, basis, 1.75), [1.75, 0.0, 0.0]);
        }
        _ => panic!("not trimmed"),
    }
}

#[test]
fn trimmed_curves_lead_to_their_basis() {
    let g = Graph::new(vec![
        node(
            1,
            "TRIMMED_CURVE",
            vec![
                ("basis_curve", ptr(2)),
                ("parm_1", f(0.5)),
                ("parm_2", f(2.0)),
                ("point_1", v3(0.5, 0.0, 0.0)),
            ],
        ),
        line_node(2),
    ]);
    match curve_source(&g, g.get(1).unwrap()) {
        Some(CurveSource::Trimmed {
            basis,
            from,
            to,
            start,
            end,
        }) => {
            assert_eq!(basis.id, 2);
            assert_eq!((f64::from_bits(from), f64::from_bits(to)), (0.5, 2.0));
            assert_eq!(start, bits3([0.5, 0.0, 0.0]));
            assert_eq!(end, bits3([0.0; 3]), "a missing end is the origin");
        }
        _ => panic!("not trimmed"),
    }
}

/// A chart of four points between two surfaces.
fn chart(first: Node, second: Node) -> Graph {
    let hvec = Value::Array(vec![
        v3(0.0, 0.0, 0.0),
        v3(1.0, 0.0, 0.0),
        v3(1.0, 2.0, 0.0),
        v3(1.0, 2.0, 2.0),
    ]);
    let surfaces = Value::Array(vec![ptr(first.id), ptr(second.id)]);
    Graph::new(vec![
        node(1, "INTERSECTION", vec![("chart", ptr(2)), ("surface", surfaces)]),
        node(2, "CHART", vec![("hvec", hvec), ("chordal_error", f(0.25))]),
        first,
        second,
    ])
}

#[test]
fn charts_name_their_surfaces_where_both_are_exact() {
    let flat = |id| plane_node(id, [0.0; 3], [0.0, 0.0, 1.0], [1.0, 0.0, 0.0]);
    let g = chart(flat(3), flat(4));
    match curve_source(&g, g.get(1).unwrap()) {
        Some(CurveSource::Chart {
            points,
            error,
            beside,
        }) => {
            assert_eq!(points.len(), 4);
            assert_eq!(points[2], bits3([1.0, 2.0, 0.0]));
            assert_eq!(error.map(f64::from_bits), Some(0.25));
            let (a, b) = beside.expect("both surfaces are planes");
            assert_eq!((a.id, b.id), (3, 4));
        }
        _ => panic!("not a chart"),
    }
    let g = chart(flat(3), node(4, "BLENDED_EDGE", vec![]));
    match curve_source(&g, g.get(1).unwrap()) {
        Some(CurveSource::Chart { beside, .. }) => assert!(beside.is_none()),
        _ => panic!("not a chart"),
    }
}

#[test]
fn a_chart_of_one_point_is_none() {
    let g = Graph::new(vec![
        node(1, "INTERSECTION", vec![("chart", ptr(2))]),
        node(2, "CHART", vec![("hvec", arr_f(&[0.0, 1.0, 2.0, 3.0, 4.0]))]),
    ]);
    assert!(curve_source(&g, g.get(1).unwrap()).is_none());
}

#[test]
fn spun_surf_accepts_both_field_spellings() {
    // Some files spell these `section`/`pvec`; the 13006 schema says
    // `profile`/`base`. Both must work.
    let g = Graph::new(vec![
        node(
            1,
            "SPUN_SURF",
            vec![
                ("section", ptr(2)),
                ("pvec", v3(0.0, 0.0, 0.0)),
                ("axis", v3(0.0, 0.0, 1.0)),
            ],
        ),
        line_node(2),
    ]);
    match surface_source(&g, g.get(1).unwrap()) {
        // Not turned yet, the surface is its profile.
        Some(SurfaceSource::Spun { profile, .. }) => {
            assert_eq!(on_line(&g, profile, 0.5), [3.0, 0.0, 0.5]);
        }
        _ => panic!("not spun"),
    }
}

#[test]
fn spun_surfaces_go_by_either_spelling() {
    let spun = |curve: &'static str, place: &'static str| {
        Graph::new(vec![
            node(
                1,
                "SPUN_SURF",
                vec![
                    (curve, ptr(2)),
                    (place, v3(0.0, 0.0, 7.0)),
                    ("axis", v3(0.0, 0.0, 1.0)),
                ],
            ),
            line_node(2),
        ])
    };
    for (curve, place) in [("profile", "base"), ("section", "pvec")] {
        let g = spun(curve, place);
        match surface_source(&g, g.get(1).unwrap()) {
            Some(SurfaceSource::Spun {
                profile,
                point,
                axis,
            }) => {
                assert_eq!(profile.id, 2);
                assert_eq!(point, bits3([0.0, 0.0, 7.0]));
                assert_eq!(axis, bits3([0.0, 0.0, 1.0]));
            }
            _ => panic!("not spun"),
        }
    }
}

#[test]
fn plane_sense_flag() {
    let mut n = plane_node(1, [0.0; 3], [0.0, 0.0, 1.0], [1.0, 0.0, 0.0]);
    n.fields
        .push(("sense".to_string(), Value::Char("-".to_string())));
    let g = Graph::new(vec![n]);
    let plane = g.get(1).unwrap();
    assert!(surface_source(&g, plane).is_some());
    let sense_sign = if plane.sense_positive() { 1.0 } else { -1.0 };
    assert_eq!(sense_sign, -1.0);
}

#[test]
fn the_sense_of_an_offset_turns_it_round() {
    for (sense, distance) in [("+", 0.5), ("-", -0.5)] {
        let g = Graph::new(vec![
            node(
                1,
                "OFFSET_SURF",
                vec![
                    ("surface", ptr(2)),
                    ("offset", f(0.5)),
                    ("sense", Value::Char(sense.to_string())),
                ],
            ),
            plane_node(2, [0.0; 3], [0.0, 0.0, 1.0], [1.0, 0.0, 0.0]),
        ]);
        match surface_source(&g, g.get(1).unwrap()) {
            Some(SurfaceSource::Offset { base, distance: d }) => {
                assert_eq!(base.id, 2);
                assert_eq!(f64::from_bits(d), distance);
            }
            _ => panic!("not an offset"),
        }
    }
}

#[test]
fn cones_have_no_right_half_angle() {
    let cone = |cos: f64| {
        Graph::new(vec![node(
            1,
            "CONE",
            vec![
                ("pvec", v3(0.0, 0.0, 0.0)),
                ("axis", v3(0.0, 0.0, 1.0)),
                ("x_axis", v3(1.0, 0.0, 0.0)),
                ("radius", f(1.0)),
                ("sin_half_angle", f(0.6)),
                ("cos_half_angle", f(cos)),
            ],
        )])
    };
    let g = cone(0.8);
    match surface_source(&g, g.get(1).unwrap()) {
        Some(SurfaceSource::Cone { sine, cosine, .. }) => {
            assert_eq!((f64::from_bits(sine), f64::from_bits(cosine)), (0.6, 0.8));
        }
        _ => panic!("not a cone"),
    }
    for cos in [0.0, -0.0] {
        let g = cone(cos);
        assert!(surface_source(&g, g.get(1).unwrap()).is_none());
    }
}

/// A ball of radius 1 in the corner of two planes, with the first support given
/// as `support`.
fn blend_nodes(support: NodeId, range: &[f64]) -> Vec<Node> {
    vec![
        node(
            1,
            "BLENDED_EDGE",
            vec![
                ("blend_type", Value::Char("R".to_string())),
                ("range", arr_f(range)),
                ("spine", ptr(2)),
                ("surface", Value::Array(vec![ptr(support), ptr(4)])),
            ],
        ),
        node(
            2,
            "LINE",
            vec![
                ("pvec", v3(1.0, 1.0, 0.0)),
                ("direction", v3(0.0, 0.0, 1.0)),
            ],
        ),
        // wall 1: the plane y = 0
        plane_node(3, [0.0; 3], [0.0, 1.0, 0.0], [1.0, 0.0, 0.0]),
        // wall 2: the plane x = 0
        plane_node(4, [0.0; 3], [1.0, 0.0, 0.0], [0.0, 1.0, 0.0]),
        node(5, "OFFSET_SURF", vec![("surface", ptr(3)), ("offset", f(1.0))]),
    ]
}

fn walls(nodes: Vec<Node>) -> Option<(f64, NodeId, NodeId, NodeId)> {
    let g = Graph::new(nodes);
    match surface_source(&g, g.get(1).unwrap()) {
        Some(SurfaceSource::Blend {
            radius,
            spine,
            first,
            second,
        }) => Some((f64::from_bits(radius), spine.id, first.id, second.id)),
        _ => None,
    }
}

#[test]
fn blends_roll_along_walls() {
    assert_eq!(walls(blend_nodes(3, &[1.0, 1.0])), Some((1.0, 2, 3, 4)));
    // A support moved by the radius stands for the wall it was moved from.
    assert_eq!(walls(blend_nodes(5, &[1.0, 1.0])), Some((1.0, 2, 3, 4)));
    // The sign of the radius is no side.
    assert_eq!(walls(blend_nodes(3, &[-1.0, 1.0])), Some((1.0, 2, 3, 4)));
    assert_eq!(walls(blend_nodes(3, &[0.0, 1.0])), None);
    assert_eq!(walls(blend_nodes(3, &[f64::INFINITY, 1.0])), None);
    assert_eq!(walls(blend_nodes(3, &[f64::NAN, 1.0])), None);
    assert_eq!(walls(blend_nodes(9, &[1.0, 1.0])), None);
}

/// Where the ball touches its two walls when its centre is at the spine's
/// parameter `t`. Both walls are planes.
fn touches(nodes: Vec<Node>, t: f64) -> [[f64; 3]; 2] {
    let g = Graph::new(nodes);
    match surface_source(&g, g.get(1).unwrap()) {
        Some(SurfaceSource::Blend {
            radius,
            spine,
            first,
            second,
        }) => {
            let centre = on_line(&g, spine, t);
            [first, second].map(|wall| match surface_source(&g, wall) {
                Some(SurfaceSource::Plane { point, normal, .. }) => {
                    let (o, n) = (point.map(f64::from_bits), normal.map(f64::from_bits));
                    let above: f64 = (0..3).map(|i| (centre[i] - o[i]) * n[i]).sum();
                    let step = -f64::from_bits(radius) * above.signum();
                    [0, 1, 2].map(|i| centre[i] + step * n[i])
                }
                _ => panic!("not a plane"),
            })
        }
        _ => panic!("not a blend"),
    }
}

#[test]
fn blended_edge_uses_offset_support_base() {
    // support given as the centre-locus OFFSET_SURF: identical geometry
    let [a, b] = touches(blend_nodes(5, &[1.0, 1.0]), 0.0);
    assert_eq!(a, [1.0, 0.0, 0.0]);
    assert_eq!(b, [0.0, 1.0, 0.0]);
}

#[test]
fn blended_edge_negative_range_is_a_magnitude() {
    let [a, b] = touches(blend_nodes(3, &[-1.0, 1.0]), 0.0);
    assert_eq!(a, [1.0, 0.0, 0.0]);
    assert_eq!(b, [0.0, 1.0, 0.0]);
}

#[test]
fn blended_edge_requires_two_supports() {
    let mut nodes = blend_nodes(3, &[1.0, 1.0]);
    nodes[0] = node(
        1,
        "BLENDED_EDGE",
        vec![
            ("range", arr_f(&[1.0, 1.0])),
            ("spine", ptr(2)),
            ("surface", ptr(3)),
        ],
    );
    let g = Graph::new(nodes);
    assert!(surface_source(&g, g.get(1).unwrap()).is_none());
}

#[test]
fn the_surface_below_offsets_says_what_is_needed() {
    let g = Graph::new(vec![
        node(1, "OFFSET_SURF", vec![("surface", ptr(2))]),
        node(2, "OFFSET_SURF", vec![("surface", ptr(3))]),
        node(3, "CONE", vec![]),
        node(4, "BLENDED_EDGE", vec![]),
        node(5, "SWEPT_SURF", vec![("section", ptr(7))]),
        node(6, "SPUN_SURF", vec![("profile", ptr(8))]),
        node(7, "B_CURVE", vec![]),
        node(8, "CIRCLE", vec![]),
        node(9, "B_SURFACE", vec![]),
        node(10, "OFFSET_SURF", vec![("surface", ptr(10))]),
    ]);
    let need = |id: NodeId| needed_by_surface(&g, g.get(id).unwrap());
    assert!(matches!(need(1), Need::Angle(n) if n.id == 3));
    assert!(matches!(need(4), Need::Grid(n) if n.id == 4));
    assert!(matches!(need(5), Need::Samples(n) if n.id == 7));
    assert!(matches!(need(6), Need::Nothing));
    assert!(matches!(need(9), Need::Net(n) if n.id == 9));
    // A surface that hangs from itself needs nothing.
    assert!(matches!(need(10), Need::Nothing));
}
