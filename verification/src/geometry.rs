//! What the file says of its curves and surfaces: which kind each is, and the
//! numbers, curves and surfaces that it is made of.
//!
//! Nothing is evaluated here. A node that lacks a part of what its kind needs,
//! or is of a kind without a definition here, has none.

use vstd::prelude::*;

use crate::double::{nan, rank, SIGN_BIT};
use crate::graph::{found_views, Graph, GraphView};
use crate::nurbs::{
    curve_shape, curve_shape_of, finite, is_finite, reals_at, reals_of, surface_shape,
    surface_shape_of, CurveShape, CurveShapeView, SurfaceShape, SurfaceShapeView,
};
use crate::sample::{exact_surface, is_exact_surface, Point};
use crate::text::same_text;
use crate::value::{Node, NodeId, NodeView};

verus! {

// ---- numbers and points in fields ----

/// The number in a field.
pub open spec fn number_in(node: NodeView, name: Seq<char>) -> Option<u64> {
    match node.field(name) {
        Some(v) => v.real_number(),
        None => None,
    }
}

/// The point or direction in a field.
pub open spec fn place_in(node: NodeView, name: Seq<char>) -> Option<Seq<u64>> {
    match node.field(name) {
        Some(v) => v.coordinates(),
        None => None,
    }
}

/// Zero, of either sign.
pub open spec fn zero(bits: u64) -> bool {
    bits == 0 || bits == SIGN_BIT
}

/// The number without its sign.
pub open spec fn magnitude(bits: u64) -> u64 {
    if bits >= SIGN_BIT {
        (bits - SIGN_BIT) as u64
    } else {
        bits
    }
}

/// The number with the other sign.
pub open spec fn negated(bits: u64) -> u64 {
    if bits >= SIGN_BIT {
        (bits - SIGN_BIT) as u64
    } else {
        (bits + SIGN_BIT) as u64
    }
}

/// Turn a number round.
pub fn negate(bits: u64) -> (r: u64)
    ensures
        r == negated(bits),
{
    if bits >= SIGN_BIT {
        bits - SIGN_BIT
    } else {
        bits + SIGN_BIT
    }
}

// ---- curves ----

/// A curve, as the file defines it.
pub enum CurveSource<'a> {
    Line { point: Point, direction: Point },
    Circle { centre: Point, normal: Point, x_axis: Point, radius: u64 },
    Ellipse { centre: Point, normal: Point, x_axis: Point, major: u64, minor: u64 },
    Nurbs(CurveShape),
    /// Part of another curve, between two of its parameters.
    Trimmed { basis: &'a Node, from: u64, to: u64, start: Point, end: Point },
    /// Samples of the curve in which two surfaces meet, the tolerance they were
    /// taken to, and the surfaces where both have a closed form.
    Chart { points: Vec<Point>, error: Option<u64>, beside: Option<(&'a Node, &'a Node)> },
}

/// The contents of a curve.
#[verifier::ext_equal]
pub enum CurveView {
    Line { point: Seq<u64>, direction: Seq<u64> },
    Circle { centre: Seq<u64>, normal: Seq<u64>, x_axis: Seq<u64>, radius: u64 },
    Ellipse { centre: Seq<u64>, normal: Seq<u64>, x_axis: Seq<u64>, major: u64, minor: u64 },
    Nurbs(CurveShapeView),
    Trimmed { basis: NodeView, from: u64, to: u64, start: Seq<u64>, end: Seq<u64> },
    Chart { points: Seq<Seq<u64>>, error: Option<u64>, beside: Option<(NodeView, NodeView)> },
}

/// The coordinates of points.
pub open spec fn coordinates_of(points: Seq<Point>) -> Seq<Seq<u64>> {
    points.map_values(|p: Point| p@)
}

impl<'a> View for CurveSource<'a> {
    type V = CurveView;

    open spec fn view(&self) -> CurveView {
        match *self {
            CurveSource::Line { point, direction } => CurveView::Line {
                point: point@,
                direction: direction@,
            },
            CurveSource::Circle { centre, normal, x_axis, radius } => CurveView::Circle {
                centre: centre@,
                normal: normal@,
                x_axis: x_axis@,
                radius,
            },
            CurveSource::Ellipse { centre, normal, x_axis, major, minor } => CurveView::Ellipse {
                centre: centre@,
                normal: normal@,
                x_axis: x_axis@,
                major,
                minor,
            },
            CurveSource::Nurbs(shape) => CurveView::Nurbs(shape@),
            CurveSource::Trimmed { basis, from, to, start, end } => CurveView::Trimmed {
                basis: basis@,
                from,
                to,
                start: start@,
                end: end@,
            },
            CurveSource::Chart { points, error, beside } => CurveView::Chart {
                points: coordinates_of(points@),
                error,
                beside: match beside {
                    Some(pair) => Some((pair.0@, pair.1@)),
                    None => None,
                },
            },
        }
    }
}

/// The same definition, once as a value and once as its contents.
pub open spec fn same_curve(r: Option<CurveSource>, s: Option<CurveView>) -> bool {
    match r {
        Some(c) => s == Some(c@),
        None => s is None,
    }
}

pub open spec fn line_of(node: NodeView) -> Option<CurveView> {
    match (place_in(node, "pvec"@), place_in(node, "direction"@)) {
        (Some(point), Some(direction)) => Some(CurveView::Line { point, direction }),
        _ => None,
    }
}

fn line(node: &Node) -> (r: Option<CurveSource<'static>>)
    ensures
        same_curve(r, line_of(node@)),
{
    match (node.vec3("pvec"), node.vec3("direction")) {
        (Some(point), Some(direction)) => Some(CurveSource::Line { point, direction }),
        _ => None,
    }
}

pub open spec fn circle_of(node: NodeView) -> Option<CurveView> {
    match (
        place_in(node, "centre"@),
        place_in(node, "normal"@),
        place_in(node, "x_axis"@),
        number_in(node, "radius"@),
    ) {
        (Some(centre), Some(normal), Some(x_axis), Some(radius)) => Some(
            CurveView::Circle { centre, normal, x_axis, radius },
        ),
        _ => None,
    }
}

fn circle(node: &Node) -> (r: Option<CurveSource<'static>>)
    ensures
        same_curve(r, circle_of(node@)),
{
    match (node.vec3("centre"), node.vec3("normal"), node.vec3("x_axis"), node.f64_bits("radius")) {
        (Some(centre), Some(normal), Some(x_axis), Some(radius)) => Some(
            CurveSource::Circle { centre, normal, x_axis, radius },
        ),
        _ => None,
    }
}

/// An ellipse has two radii, and neither is zero.
pub open spec fn ellipse_of(node: NodeView) -> Option<CurveView> {
    match (
        place_in(node, "centre"@),
        place_in(node, "normal"@),
        place_in(node, "x_axis"@),
        number_in(node, "major_radius"@),
        number_in(node, "minor_radius"@),
    ) {
        (Some(centre), Some(normal), Some(x_axis), Some(major), Some(minor)) => if zero(major)
            || zero(minor) {
            None
        } else {
            Some(CurveView::Ellipse { centre, normal, x_axis, major, minor })
        },
        _ => None,
    }
}

fn ellipse(node: &Node) -> (r: Option<CurveSource<'static>>)
    ensures
        same_curve(r, ellipse_of(node@)),
{
    match (
        node.vec3("centre"),
        node.vec3("normal"),
        node.vec3("x_axis"),
        node.f64_bits("major_radius"),
        node.f64_bits("minor_radius"),
    ) {
        (Some(centre), Some(normal), Some(x_axis), Some(major), Some(minor)) => if major == 0
            || major == SIGN_BIT || minor == 0 || minor == SIGN_BIT {
            None
        } else {
            Some(CurveSource::Ellipse { centre, normal, x_axis, major, minor })
        },
        _ => None,
    }
}

/// The point in a field, or the origin.
pub open spec fn place_or_origin(node: NodeView, name: Seq<char>) -> Seq<u64> {
    match place_in(node, name) {
        Some(p) => p,
        None => seq![0u64, 0u64, 0u64],
    }
}

fn point_or_origin(node: &Node, name: &str) -> (r: Point)
    ensures
        r@ == place_or_origin(node@, name@),
{
    match node.vec3(name) {
        Some(p) => p,
        None => {
            let p: Point = [0, 0, 0];
            assert(p@ =~= seq![0u64, 0u64, 0u64]);
            p
        },
    }
}

pub open spec fn trimmed_of(g: GraphView, node: NodeView) -> Option<CurveView> {
    match (
        g.follow(node, "basis_curve"@),
        number_in(node, "parm_1"@),
        number_in(node, "parm_2"@),
    ) {
        (Some(basis), Some(from), Some(to)) => Some(
            CurveView::Trimmed {
                basis,
                from,
                to,
                start: place_or_origin(node, "point_1"@),
                end: place_or_origin(node, "point_2"@),
            },
        ),
        _ => None,
    }
}

fn trimmed<'a>(graph: &'a Graph, node: &'a Node) -> (r: Option<CurveSource<'a>>)
    ensures
        same_curve(r, trimmed_of(graph@, node@)),
{
    match (graph.deref(node, "basis_curve"), node.f64_bits("parm_1"), node.f64_bits("parm_2")) {
        (Some(basis), Some(from), Some(to)) => Some(
            CurveSource::Trimmed {
                basis,
                from,
                to,
                start: point_or_origin(node, "point_1"),
                end: point_or_origin(node, "point_2"),
            },
        ),
        _ => None,
    }
}

/// Numbers three by three; one or two at the end are left out.
pub open spec fn triples(flat: Seq<u64>) -> Seq<Seq<u64>> {
    Seq::new(
        flat.len() / 3,
        |i: int| seq![flat[3 * i], flat[3 * i + 1], flat[3 * i + 2]],
    )
}

fn points_of(flat: &Vec<u64>) -> (r: Vec<Point>)
    ensures
        coordinates_of(r@) == triples(flat@),
{
    let mut out: Vec<Point> = Vec::new();
    let mut at: usize = 0;
    while flat.len() - at >= 3
        invariant
            at <= flat@.len(),
            at == 3 * out@.len(),
            forall|i: int|
                0 <= i < out@.len() ==> (#[trigger] out@[i])@ == seq![
                    flat@[3 * i],
                    flat@[3 * i + 1],
                    flat@[3 * i + 2],
                ],
        decreases flat@.len() - at,
    {
        let p: Point = [flat[at], flat[at + 1], flat[at + 2]];
        assert(p@ =~= seq![flat@[at as int], flat@[at + 1], flat@[at + 2]]);
        out.push(p);
        at += 3;
    }
    assert(coordinates_of(out@) =~= triples(flat@));
    out
}

/// Those of the nodes that there are.
pub open spec fn present(g: GraphView, ids: Seq<NodeId>) -> Seq<NodeView>
    decreases ids.len(),
{
    if ids.len() == 0 {
        Seq::empty()
    } else {
        let before = present(g, ids.drop_last());
        if g.nodes.contains_key(ids.last()) {
            before.push(g.nodes[ids.last()])
        } else {
            before
        }
    }
}

fn nodes_present<'a>(graph: &'a Graph, ids: &Vec<NodeId>) -> (r: Vec<&'a Node>)
    ensures
        found_views(r@) == present(graph@, ids@),
{
    let mut out: Vec<&'a Node> = Vec::new();
    let mut i: usize = 0;
    assert(found_views(out@) =~= present(graph@, ids@.take(0)));
    while i < ids.len()
        invariant
            i <= ids@.len(),
            found_views(out@) == present(graph@, ids@.take(i as int)),
        decreases ids@.len() - i,
    {
        assert(ids@.take(i + 1).drop_last() =~= ids@.take(i as int));
        let ghost before = out@;
        if let Some(n) = graph.get(ids[i]) {
            out.push(n);
            assert(found_views(out@) =~= found_views(before).push(n@));
        }
        i += 1;
    }
    assert(ids@.take(i as int) =~= ids@);
    out
}

/// The two surfaces that a curve runs along, where it names two and both have
/// a closed form. A blend is a reconstruction, not the stored surface, so
/// pulling a curve onto one would move it onto a locus that is itself wrong.
pub open spec fn exact_pair(g: GraphView, node: NodeView) -> Option<(NodeView, NodeView)> {
    let nodes = present(g, node.pointers("surface"@));
    if nodes.len() == 2 && exact_surface(nodes[0].name) && exact_surface(nodes[1].name) {
        Some((nodes[0], nodes[1]))
    } else {
        None
    }
}

/// A chart has two samples at least.
pub open spec fn chart_of(g: GraphView, node: NodeView) -> Option<CurveView> {
    match (g.follow(node, "chart"@), reals_at(g, node, "chart"@, "hvec"@)) {
        (Some(chart), Some(flat)) => if flat.len() < 6 {
            None
        } else {
            Some(
                CurveView::Chart {
                    points: triples(flat),
                    error: number_in(chart, "chordal_error"@),
                    beside: exact_pair(g, node),
                },
            )
        },
        _ => None,
    }
}

fn chart<'a>(graph: &'a Graph, node: &'a Node) -> (r: Option<CurveSource<'a>>)
    ensures
        same_curve(r, chart_of(graph@, node@)),
{
    match (graph.deref(node, "chart"), reals_of(graph, node, "chart", "hvec")) {
        (Some(chart), Some(flat)) => {
            if flat.len() < 6 {
                return None;
            }
            let nodes = nodes_present(graph, &node.ptrs("surface"));
            let ghost views = found_views(nodes@);
            let beside: Option<(&'a Node, &'a Node)> = if nodes.len() == 2 && is_exact_surface(
                nodes[0].name.as_str(),
            ) && is_exact_surface(nodes[1].name.as_str()) {
                Some((nodes[0], nodes[1]))
            } else {
                None
            };
            proof {
                if views.len() == 2 {
                    assert(views[0] == nodes@[0]@ && views[1] == nodes@[1]@);
                }
            }
            Some(
                CurveSource::Chart {
                    points: points_of(&flat),
                    error: chart.f64_bits("chordal_error"),
                    beside,
                },
            )
        },
        _ => None,
    }
}

/// The definition of a curve.
pub open spec fn curve_of(g: GraphView, node: NodeView) -> Option<CurveView> {
    if node.name == "LINE"@ {
        line_of(node)
    } else if node.name == "CIRCLE"@ {
        circle_of(node)
    } else if node.name == "ELLIPSE"@ {
        ellipse_of(node)
    } else if node.name == "B_CURVE"@ {
        match curve_shape_of(g, node) {
            Some(shape) => Some(CurveView::Nurbs(shape)),
            None => None,
        }
    } else if node.name == "TRIMMED_CURVE"@ {
        trimmed_of(g, node)
    } else if node.name == "INTERSECTION"@ {
        chart_of(g, node)
    } else {
        None
    }
}

/// The definition of a curve, where the node is one and states all of it.
pub fn curve_source<'a>(graph: &'a Graph, node: &'a Node) -> (r: Option<CurveSource<'a>>)
    ensures
        same_curve(r, curve_of(graph@, node@)),
{
    let name = node.name.as_str();
    if same_text(name, "LINE") {
        line(node)
    } else if same_text(name, "CIRCLE") {
        circle(node)
    } else if same_text(name, "ELLIPSE") {
        ellipse(node)
    } else if same_text(name, "B_CURVE") {
        match curve_shape(graph, node) {
            Some(shape) => Some(CurveSource::Nurbs(shape)),
            None => None,
        }
    } else if same_text(name, "TRIMMED_CURVE") {
        trimmed(graph, node)
    } else if same_text(name, "INTERSECTION") {
        chart(graph, node)
    } else {
        None
    }
}

// ---- surfaces ----

/// A surface, as the file defines it.
pub enum SurfaceSource<'a> {
    Plane { point: Point, normal: Point, x_axis: Point },
    Cylinder { point: Point, axis: Point, x_axis: Point, radius: u64 },
    /// The radius is that at the point; sine and cosine are of the half angle.
    Cone { point: Point, axis: Point, x_axis: Point, radius: u64, sine: u64, cosine: u64 },
    Sphere { centre: Point, axis: Point, x_axis: Point, radius: u64 },
    Torus { centre: Point, axis: Point, x_axis: Point, major: u64, minor: u64 },
    /// A curve moved along a direction.
    Swept { section: &'a Node, sweep: Point },
    /// A curve turned about an axis.
    Spun { profile: &'a Node, point: Point, axis: Point },
    /// A surface moved along its normals, backwards where the distance is
    /// negative.
    Offset { base: &'a Node, distance: u64 },
    Nurbs(SurfaceShape),
    /// A ball rolled along a curve between two walls.
    Blend { radius: u64, spine: &'a Node, first: &'a Node, second: &'a Node },
}

/// The contents of a surface.
#[verifier::ext_equal]
pub enum SurfaceView {
    Plane { point: Seq<u64>, normal: Seq<u64>, x_axis: Seq<u64> },
    Cylinder { point: Seq<u64>, axis: Seq<u64>, x_axis: Seq<u64>, radius: u64 },
    Cone {
        point: Seq<u64>,
        axis: Seq<u64>,
        x_axis: Seq<u64>,
        radius: u64,
        sine: u64,
        cosine: u64,
    },
    Sphere { centre: Seq<u64>, axis: Seq<u64>, x_axis: Seq<u64>, radius: u64 },
    Torus { centre: Seq<u64>, axis: Seq<u64>, x_axis: Seq<u64>, major: u64, minor: u64 },
    Swept { section: NodeView, sweep: Seq<u64> },
    Spun { profile: NodeView, point: Seq<u64>, axis: Seq<u64> },
    Offset { base: NodeView, distance: u64 },
    Nurbs(SurfaceShapeView),
    Blend { radius: u64, spine: NodeView, first: NodeView, second: NodeView },
}

impl<'a> View for SurfaceSource<'a> {
    type V = SurfaceView;

    open spec fn view(&self) -> SurfaceView {
        match *self {
            SurfaceSource::Plane { point, normal, x_axis } => SurfaceView::Plane {
                point: point@,
                normal: normal@,
                x_axis: x_axis@,
            },
            SurfaceSource::Cylinder { point, axis, x_axis, radius } => SurfaceView::Cylinder {
                point: point@,
                axis: axis@,
                x_axis: x_axis@,
                radius,
            },
            SurfaceSource::Cone { point, axis, x_axis, radius, sine, cosine } => SurfaceView::Cone {
                point: point@,
                axis: axis@,
                x_axis: x_axis@,
                radius,
                sine,
                cosine,
            },
            SurfaceSource::Sphere { centre, axis, x_axis, radius } => SurfaceView::Sphere {
                centre: centre@,
                axis: axis@,
                x_axis: x_axis@,
                radius,
            },
            SurfaceSource::Torus { centre, axis, x_axis, major, minor } => SurfaceView::Torus {
                centre: centre@,
                axis: axis@,
                x_axis: x_axis@,
                major,
                minor,
            },
            SurfaceSource::Swept { section, sweep } => SurfaceView::Swept {
                section: section@,
                sweep: sweep@,
            },
            SurfaceSource::Spun { profile, point, axis } => SurfaceView::Spun {
                profile: profile@,
                point: point@,
                axis: axis@,
            },
            SurfaceSource::Offset { base, distance } => SurfaceView::Offset {
                base: base@,
                distance,
            },
            SurfaceSource::Nurbs(shape) => SurfaceView::Nurbs(shape@),
            SurfaceSource::Blend { radius, spine, first, second } => SurfaceView::Blend {
                radius,
                spine: spine@,
                first: first@,
                second: second@,
            },
        }
    }
}

/// The same definition, once as a value and once as its contents.
pub open spec fn same_surface(r: Option<SurfaceSource>, s: Option<SurfaceView>) -> bool {
    match r {
        Some(c) => s == Some(c@),
        None => s is None,
    }
}

pub open spec fn plane_of(node: NodeView) -> Option<SurfaceView> {
    match (place_in(node, "pvec"@), place_in(node, "normal"@), place_in(node, "x_axis"@)) {
        (Some(point), Some(normal), Some(x_axis)) => Some(
            SurfaceView::Plane { point, normal, x_axis },
        ),
        _ => None,
    }
}

fn plane(node: &Node) -> (r: Option<SurfaceSource<'static>>)
    ensures
        same_surface(r, plane_of(node@)),
{
    match (node.vec3("pvec"), node.vec3("normal"), node.vec3("x_axis")) {
        (Some(point), Some(normal), Some(x_axis)) => Some(
            SurfaceSource::Plane { point, normal, x_axis },
        ),
        _ => None,
    }
}

pub open spec fn cylinder_of(node: NodeView) -> Option<SurfaceView> {
    match (
        place_in(node, "pvec"@),
        place_in(node, "axis"@),
        place_in(node, "x_axis"@),
        number_in(node, "radius"@),
    ) {
        (Some(point), Some(axis), Some(x_axis), Some(radius)) => Some(
            SurfaceView::Cylinder { point, axis, x_axis, radius },
        ),
        _ => None,
    }
}

fn cylinder(node: &Node) -> (r: Option<SurfaceSource<'static>>)
    ensures
        same_surface(r, cylinder_of(node@)),
{
    match (node.vec3("pvec"), node.vec3("axis"), node.vec3("x_axis"), node.f64_bits("radius")) {
        (Some(point), Some(axis), Some(x_axis), Some(radius)) => Some(
            SurfaceSource::Cylinder { point, axis, x_axis, radius },
        ),
        _ => None,
    }
}

/// A cone is a cylinder with a half angle, which is not a right one.
pub open spec fn cone_of(node: NodeView) -> Option<SurfaceView> {
    match (
        cylinder_of(node),
        number_in(node, "sin_half_angle"@),
        number_in(node, "cos_half_angle"@),
    ) {
        (
            Some(SurfaceView::Cylinder { point, axis, x_axis, radius }),
            Some(sine),
            Some(cosine),
        ) => if zero(cosine) {
            None
        } else {
            Some(SurfaceView::Cone { point, axis, x_axis, radius, sine, cosine })
        },
        _ => None,
    }
}

fn cone(node: &Node) -> (r: Option<SurfaceSource<'static>>)
    ensures
        same_surface(r, cone_of(node@)),
{
    match (cylinder(node), node.f64_bits("sin_half_angle"), node.f64_bits("cos_half_angle")) {
        (
            Some(SurfaceSource::Cylinder { point, axis, x_axis, radius }),
            Some(sine),
            Some(cosine),
        ) => if cosine == 0 || cosine == SIGN_BIT {
            None
        } else {
            Some(SurfaceSource::Cone { point, axis, x_axis, radius, sine, cosine })
        },
        _ => None,
    }
}

pub open spec fn sphere_of(node: NodeView) -> Option<SurfaceView> {
    match (
        place_in(node, "centre"@),
        place_in(node, "axis"@),
        place_in(node, "x_axis"@),
        number_in(node, "radius"@),
    ) {
        (Some(centre), Some(axis), Some(x_axis), Some(radius)) => Some(
            SurfaceView::Sphere { centre, axis, x_axis, radius },
        ),
        _ => None,
    }
}

fn sphere(node: &Node) -> (r: Option<SurfaceSource<'static>>)
    ensures
        same_surface(r, sphere_of(node@)),
{
    match (node.vec3("centre"), node.vec3("axis"), node.vec3("x_axis"), node.f64_bits("radius")) {
        (Some(centre), Some(axis), Some(x_axis), Some(radius)) => Some(
            SurfaceSource::Sphere { centre, axis, x_axis, radius },
        ),
        _ => None,
    }
}

pub open spec fn torus_of(node: NodeView) -> Option<SurfaceView> {
    match (
        place_in(node, "centre"@),
        place_in(node, "axis"@),
        place_in(node, "x_axis"@),
        number_in(node, "major_radius"@),
        number_in(node, "minor_radius"@),
    ) {
        (Some(centre), Some(axis), Some(x_axis), Some(major), Some(minor)) => Some(
            SurfaceView::Torus { centre, axis, x_axis, major, minor },
        ),
        _ => None,
    }
}

fn torus(node: &Node) -> (r: Option<SurfaceSource<'static>>)
    ensures
        same_surface(r, torus_of(node@)),
{
    match (
        node.vec3("centre"),
        node.vec3("axis"),
        node.vec3("x_axis"),
        node.f64_bits("major_radius"),
        node.f64_bits("minor_radius"),
    ) {
        (Some(centre), Some(axis), Some(x_axis), Some(major), Some(minor)) => Some(
            SurfaceSource::Torus { centre, axis, x_axis, major, minor },
        ),
        _ => None,
    }
}

pub open spec fn swept_of(g: GraphView, node: NodeView) -> Option<SurfaceView> {
    match (g.follow(node, "section"@), place_in(node, "sweep"@)) {
        (Some(section), Some(sweep)) => Some(SurfaceView::Swept { section, sweep }),
        _ => None,
    }
}

fn swept<'a>(graph: &'a Graph, node: &'a Node) -> (r: Option<SurfaceSource<'a>>)
    ensures
        same_surface(r, swept_of(graph@, node@)),
{
    match (graph.deref(node, "section"), node.vec3("sweep")) {
        (Some(section), Some(sweep)) => Some(SurfaceSource::Swept { section, sweep }),
        _ => None,
    }
}

/// The profile of a spun surface: what `profile` points to, and only where that
/// points nowhere, what `section` points to.
pub open spec fn profile_of(g: GraphView, node: NodeView) -> Option<NodeView> {
    if node.pointer("profile"@) is Some {
        g.follow(node, "profile"@)
    } else {
        g.follow(node, "section"@)
    }
}

/// A spun surface; schemas differ in what they call its parts.
pub open spec fn spun_of(g: GraphView, node: NodeView) -> Option<SurfaceView> {
    let place = match place_in(node, "base"@) {
        Some(p) => Some(p),
        None => place_in(node, "pvec"@),
    };
    match (profile_of(g, node), place, place_in(node, "axis"@)) {
        (Some(profile), Some(point), Some(axis)) => Some(
            SurfaceView::Spun { profile, point, axis },
        ),
        _ => None,
    }
}

fn spun<'a>(graph: &'a Graph, node: &'a Node) -> (r: Option<SurfaceSource<'a>>)
    ensures
        same_surface(r, spun_of(graph@, node@)),
{
    let profile: Option<&'a Node> = match node.ptr("profile") {
        Some(_) => graph.deref(node, "profile"),
        None => graph.deref(node, "section"),
    };
    let place: Option<Point> = match node.vec3("base") {
        Some(p) => Some(p),
        None => node.vec3("pvec"),
    };
    match (profile, place, node.vec3("axis")) {
        (Some(profile), Some(point), Some(axis)) => Some(
            SurfaceSource::Spun { profile, point, axis },
        ),
        _ => None,
    }
}

/// An offset surface; its own sense turns the distance round.
pub open spec fn offset_of(g: GraphView, node: NodeView) -> Option<SurfaceView> {
    match (g.follow(node, "surface"@), number_in(node, "offset"@)) {
        (Some(base), Some(o)) => Some(
            SurfaceView::Offset {
                base,
                distance: if node.positive() {
                    o
                } else {
                    negated(o)
                },
            },
        ),
        _ => None,
    }
}

fn offset<'a>(graph: &'a Graph, node: &'a Node) -> (r: Option<SurfaceSource<'a>>)
    ensures
        same_surface(r, offset_of(graph@, node@)),
{
    match (graph.deref(node, "surface"), node.f64_bits("offset")) {
        (Some(base), Some(o)) => {
            let distance: u64 = if node.sense_positive() {
                o
            } else {
                negate(o)
            };
            Some(SurfaceSource::Offset { base, distance })
        },
        _ => None,
    }
}

/// The wall that a blend rolls along. Supports are stored as the walls moved by
/// the radius of the ball, so that the wall is the base of the offset.
pub open spec fn wall_of(g: GraphView, id: NodeId) -> Option<NodeView> {
    if !g.nodes.contains_key(id) {
        None
    } else if g.nodes[id].name == "OFFSET_SURF"@ {
        g.follow(g.nodes[id], "surface"@)
    } else {
        Some(g.nodes[id])
    }
}

fn wall<'a>(graph: &'a Graph, id: NodeId) -> (r: Option<&'a Node>)
    ensures
        match r {
            Some(n) => wall_of(graph@, id) == Some(n@),
            None => wall_of(graph@, id) is None,
        },
{
    match graph.get(id) {
        Some(n) => if same_text(n.name.as_str(), "OFFSET_SURF") {
            graph.deref(n, "surface")
        } else {
            Some(n)
        },
        None => None,
    }
}

/// The radius of a blend. `range` holds the radii at its two ends; the sign
/// tells convexity, not a side.
pub open spec fn ball_radius(node: NodeView) -> Option<u64> {
    match node.field("range"@) {
        Some(v) => match v.reals() {
            Some(range) => if range.len() > 0 && finite(range[0]) && !zero(range[0]) {
                Some(magnitude(range[0]))
            } else {
                None
            },
            None => None,
        },
        None => None,
    }
}

/// A blend has a radius above zero, a spine and two supports.
pub open spec fn blend_of(g: GraphView, node: NodeView) -> Option<SurfaceView> {
    let ids = node.pointers("surface"@);
    if ids.len() != 2 {
        None
    } else {
        match (
            ball_radius(node),
            g.follow(node, "spine"@),
            wall_of(g, ids[0]),
            wall_of(g, ids[1]),
        ) {
            (Some(radius), Some(spine), Some(first), Some(second)) => Some(
                SurfaceView::Blend { radius, spine, first, second },
            ),
            _ => None,
        }
    }
}

fn blend<'a>(graph: &'a Graph, node: &'a Node) -> (r: Option<SurfaceSource<'a>>)
    ensures
        same_surface(r, blend_of(graph@, node@)),
{
    let ids = node.ptrs("surface");
    if ids.len() != 2 {
        return None;
    }
    let radius: Option<u64> = match node.f64_vec("range") {
        Some(range) => if range.len() > 0 && is_finite(range[0]) && range[0] != 0 && range[0]
            != SIGN_BIT {
            if range[0] >= SIGN_BIT {
                Some(range[0] - SIGN_BIT)
            } else {
                Some(range[0])
            }
        } else {
            None
        },
        None => None,
    };
    match (radius, graph.deref(node, "spine"), wall(graph, ids[0]), wall(graph, ids[1])) {
        (Some(radius), Some(spine), Some(first), Some(second)) => Some(
            SurfaceSource::Blend { radius, spine, first, second },
        ),
        _ => None,
    }
}

/// The definition of a surface.
pub open spec fn surface_of(g: GraphView, node: NodeView) -> Option<SurfaceView> {
    if node.name == "PLANE"@ {
        plane_of(node)
    } else if node.name == "CYLINDER"@ {
        cylinder_of(node)
    } else if node.name == "CONE"@ {
        cone_of(node)
    } else if node.name == "SPHERE"@ {
        sphere_of(node)
    } else if node.name == "TORUS"@ {
        torus_of(node)
    } else if node.name == "SWEPT_SURF"@ {
        swept_of(g, node)
    } else if node.name == "SPUN_SURF"@ {
        spun_of(g, node)
    } else if node.name == "OFFSET_SURF"@ {
        offset_of(g, node)
    } else if node.name == "B_SURFACE"@ {
        match surface_shape_of(g, node) {
            Some(shape) => Some(SurfaceView::Nurbs(shape)),
            None => None,
        }
    } else if node.name == "BLENDED_EDGE"@ {
        blend_of(g, node)
    } else {
        None
    }
}

/// The definition of a surface, where the node is one and states all of it.
pub fn surface_source<'a>(graph: &'a Graph, node: &'a Node) -> (r: Option<SurfaceSource<'a>>)
    ensures
        same_surface(r, surface_of(graph@, node@)),
{
    let name = node.name.as_str();
    if same_text(name, "PLANE") {
        plane(node)
    } else if same_text(name, "CYLINDER") {
        cylinder(node)
    } else if same_text(name, "CONE") {
        cone(node)
    } else if same_text(name, "SPHERE") {
        sphere(node)
    } else if same_text(name, "TORUS") {
        torus(node)
    } else if same_text(name, "SWEPT_SURF") {
        swept(graph, node)
    } else if same_text(name, "SPUN_SURF") {
        spun(graph, node)
    } else if same_text(name, "OFFSET_SURF") {
        offset(graph, node)
    } else if same_text(name, "B_SURFACE") {
        match surface_shape(graph, node) {
            Some(shape) => Some(SurfaceSource::Nurbs(shape)),
            None => None,
        }
    } else if same_text(name, "BLENDED_EDGE") {
        blend(graph, node)
    } else {
        None
    }
}

// ---- laws ----

/// Turning a number round twice gives it back, and once gives the other side of
/// zero.
pub proof fn lemma_negated_twice(bits: u64)
    ensures
        negated(negated(bits)) == bits,
        !nan(bits) ==> rank(negated(bits)) == -rank(bits),
{
}

/// The radius of a blend is a magnitude: it is finite and above zero whatever
/// the sign of what is stored.
pub proof fn lemma_ball_radius_is_a_magnitude(node: NodeView)
    ensures
        ball_radius(node) matches Some(r) ==> finite(r) && !nan(r) && rank(r) > 0,
{
}

/// Surfaces with a closed form have a definition of their own, and a blend is
/// none of them.
pub proof fn lemma_blends_are_not_exact(g: GraphView, node: NodeView)
    ensures
        surface_of(g, node) matches Some(SurfaceView::Blend { .. }) ==> !exact_surface(node.name),
        surface_of(g, node) is Some && !(surface_of(g, node)->0 is Blend) ==> exact_surface(
            node.name,
        ),
{
}

} // verus!
