//! What the nodes of a part say, field by field: of values, curves and surfaces,
//! of the ends of edges and the course of loops, and of the attributes of faces.

use vstd::prelude::*;

use crate::double::rank;
use crate::geometry::{curve_of, surface_of, CurveView, SurfaceView};
use crate::graph::{
    color_in, color_in_values, points_among, AttributeView, GraphView, Search,
};
use crate::nurbs::{
    controls, expanded, knot_vector, loose_knots, span_of, splits_at, sum, surface_shape_of,
};
use crate::sample::{
    closed_up, edges_along, edges_around, end_point, exact_surface, join_of, joined, start_point,
    surfaces_across, Point,
};
use crate::step::rims::trace_of;
use crate::step::surface::{net_fields_of, Polyline};
use crate::value::{flat_reals, NodeId, NodeView, ValueView};

verus! {

// ---- values ----

/// A pointer leads to the node of its id. One that is null, one that leads
/// nowhere, and a field that is no pointer lead to none.
pub proof fn lemma_pointers_are_followed(g: GraphView, node: NodeView, name: Seq<char>)
    ensures
        match node.field(name) {
            Some(ValueView::Ptr(Some(id))) => {
                &&& g.nodes.contains_key(id) ==> g.follow(node, name) == Some(g.nodes[id])
                &&& !g.nodes.contains_key(id) ==> g.follow(node, name) is None
            },
            _ => g.follow(node, name) is None,
        },
{
}

/// A field that is null is as good as none; any other has the value that the
/// first field of its name holds.
pub proof fn lemma_fields_are_found_by_name(node: NodeView, name: Seq<char>, k: int)
    requires
        0 <= k < node.fields.len(),
        node.fields[k].0 == name,
        forall|i: int| 0 <= i < k ==> (#[trigger] node.fields[i]).0 != name,
    ensures
        node.field(name) == if node.fields[k].1 is Null {
            None
        } else {
            Some(node.fields[k].1)
        },
{
    crate::value::lemma_first_field_is_found(node.fields, name, k);
}

/// Three numbers in an array are coordinates as a vector is.
pub proof fn lemma_three_numbers_are_coordinates(x: u64, y: u64, z: u64)
    ensures
        ValueView::Array(
            seq![ValueView::F64(x), ValueView::F64(y), ValueView::F64(z)],
        ).coordinates() == Some(seq![x, y, z]),
        ValueView::Vec3(seq![x, y, z]).coordinates() == Some(seq![x, y, z]),
        ValueView::F64(x).coordinates() is None,
{
}

/// Only texts have characters, only pointers a target, only numbers a value.
pub proof fn lemma_scalars_are_what_they_are(v: ValueView)
    ensures
        match v {
            ValueView::U8(n) => v.integer() == Some(n as i64) && v.truth() == Some(n != 0),
            ValueView::I16(n) => v.integer() == Some(n as i64) && v.truth() == Some(n != 0),
            ValueView::I32(n) => v.integer() == Some(n as i64) && v.truth() is None,
            ValueView::Bool(b) => v.truth() == Some(b) && v.integer() == Some(
                if b {
                    1i64
                } else {
                    0i64
                },
            ) && v.real_number() is None,
            ValueView::F64(x) => v.real_number() == Some(x) && v.truth() is None,
            ValueView::Char(s) => v.text() == Some(s) && v.integer() is None,
            ValueView::Utf16(s) => v.text() == Some(s) && v.integer() is None,
            ValueView::Ptr(p) => v.pointer() == p && v.integer() is None,
            _ => v.text() is None && v.pointer() is None && v.truth() is None
                && v.integer() is None && v.real_number() is None,
        },
        v.text() is Some ==> v is Char || v is Utf16,
        v.pointer() is Some ==> v is Ptr,
{
}

/// The numbers of vectors in a row come one vector after another.
proof fn lemma_flat(items: Seq<ValueView>, points: Seq<Seq<u64>>)
    requires
        items.len() == points.len(),
        forall|i: int|
            0 <= i < items.len() ==> #[trigger] items[i] == ValueView::Vec3(points[i])
                && points[i].len() == 3,
    ensures
        flat_reals(items) is Some,
        flat_reals(items)->0.len() == 3 * items.len(),
        forall|i: int|
            0 <= i < items.len() ==> {
                &&& flat_reals(items)->0[3 * i] == (#[trigger] points[i])[0]
                &&& flat_reals(items)->0[3 * i + 1] == points[i][1]
                &&& flat_reals(items)->0[3 * i + 2] == points[i][2]
            },
    decreases items.len(),
{
    if items.len() > 0 {
        let few = items.drop_last();
        let pts = points.drop_last();
        assert forall|i: int| 0 <= i < few.len() implies #[trigger] few[i] == ValueView::Vec3(
            pts[i],
        ) && pts[i].len() == 3 by {
            assert(items[i] == ValueView::Vec3(points[i]));
        }
        lemma_flat(few, pts);
        assert(items[items.len() - 1] == ValueView::Vec3(points[points.len() - 1]));
        let before = flat_reals(few)->0;
        let all = flat_reals(items)->0;
        assert(all == before + points.last());
        assert forall|i: int| 0 <= i < items.len() implies {
            &&& all[3 * i] == (#[trigger] points[i])[0]
            &&& all[3 * i + 1] == points[i][1]
            &&& all[3 * i + 2] == points[i][2]
        } by {
            if i < few.len() {
                assert(pts[i] == points[i]);
            }
        }
    }
}

/// The numbers of an array of numbers are these, in their order.
pub proof fn lemma_arrays_of_numbers_are_listed(xs: Seq<u64>)
    ensures
        ValueView::Array(xs.map_values(|x: u64| ValueView::F64(x))).reals() == Some(xs),
    decreases xs.len(),
{
    let items = xs.map_values(|x: u64| ValueView::F64(x));
    if xs.len() > 0 {
        lemma_arrays_of_numbers_are_listed(xs.drop_last());
        assert(items.drop_last() =~= xs.drop_last().map_values(|x: u64| ValueView::F64(x)));
        assert(xs.drop_last() + seq![xs.last()] =~= xs);
    } else {
        assert(xs =~= Seq::empty());
    }
}

/// The integers of an array of integers are these, in their order.
pub proof fn lemma_arrays_of_integers_are_listed(xs: Seq<i16>)
    ensures
        ValueView::Array(xs.map_values(|x: i16| ValueView::I16(x))).integers() == Some(
            xs.map_values(|x: i16| x as i64),
        ),
    decreases xs.len(),
{
    let items = xs.map_values(|x: i16| ValueView::I16(x));
    if xs.len() > 0 {
        lemma_arrays_of_integers_are_listed(xs.drop_last());
        assert(items.drop_last() =~= xs.drop_last().map_values(|x: i16| ValueView::I16(x)));
        assert(xs.drop_last().map_values(|x: i16| x as i64).push(xs.last() as i64)
            =~= xs.map_values(|x: i16| x as i64));
    } else {
        assert(xs.map_values(|x: i16| x as i64) =~= Seq::empty());
    }
}

/// The targets of an array of pointers are these, in their order.
pub proof fn lemma_arrays_of_pointers_are_listed(ids: Seq<NodeId>)
    ensures
        ValueView::Array(ids.map_values(|i: NodeId| ValueView::Ptr(Some(i)))).pointers() == ids,
    decreases ids.len(),
{
    let items = ids.map_values(|i: NodeId| ValueView::Ptr(Some(i)));
    if ids.len() > 0 {
        lemma_arrays_of_pointers_are_listed(ids.drop_last());
        assert(items.drop_last() =~= ids.drop_last().map_values(
            |i: NodeId| ValueView::Ptr(Some(i)),
        ));
        assert(ids.drop_last().push(ids.last()) =~= ids);
    } else {
        assert(ids =~= Seq::empty());
    }
}

// ---- curves ----

proof fn lemma_curve_names()
    ensures
        "CIRCLE"@ != "LINE"@,
        "ELLIPSE"@ != "LINE"@ && "ELLIPSE"@ != "CIRCLE"@,
        "B_CURVE"@ != "LINE"@ && "B_CURVE"@ != "CIRCLE"@ && "B_CURVE"@ != "ELLIPSE"@,
        "TRIMMED_CURVE"@ != "LINE"@ && "TRIMMED_CURVE"@ != "CIRCLE"@ && "TRIMMED_CURVE"@
            != "ELLIPSE"@ && "TRIMMED_CURVE"@ != "B_CURVE"@,
        "INTERSECTION"@ != "LINE"@ && "INTERSECTION"@ != "CIRCLE"@ && "INTERSECTION"@ != "ELLIPSE"@
            && "INTERSECTION"@ != "B_CURVE"@ && "INTERSECTION"@ != "TRIMMED_CURVE"@,
{
    reveal_strlit("LINE");
    reveal_strlit("CIRCLE");
    reveal_strlit("ELLIPSE");
    reveal_strlit("B_CURVE");
    reveal_strlit("TRIMMED_CURVE");
    reveal_strlit("INTERSECTION");
    assert("LINE"@.len() == 4 && "CIRCLE"@.len() == 6 && "ELLIPSE"@.len() == 7);
    assert("B_CURVE"@.len() == 7 && "TRIMMED_CURVE"@.len() == 13 && "INTERSECTION"@.len() == 12);
    assert("ELLIPSE"@[0] == 'E' && "B_CURVE"@[0] == 'B');
}

/// A line goes through its `pvec` along its `direction`.
pub proof fn lemma_lines_are_read(g: GraphView, node: NodeView, p: Seq<u64>, d: Seq<u64>)
    requires
        node.name == "LINE"@,
        node.field("pvec"@) == Some(ValueView::Vec3(p)),
        node.field("direction"@) == Some(ValueView::Vec3(d)),
    ensures
        curve_of(g, node) == Some(CurveView::Line { point: p, direction: d }),
{
}

/// A circle has its `centre`, its `normal`, its `x_axis` and its `radius`.
pub proof fn lemma_circles_are_read(
    g: GraphView,
    node: NodeView,
    c: Seq<u64>,
    n: Seq<u64>,
    x: Seq<u64>,
    r: u64,
)
    requires
        node.name == "CIRCLE"@,
        node.field("centre"@) == Some(ValueView::Vec3(c)),
        node.field("normal"@) == Some(ValueView::Vec3(n)),
        node.field("x_axis"@) == Some(ValueView::Vec3(x)),
        node.field("radius"@) == Some(ValueView::F64(r)),
    ensures
        curve_of(g, node) == Some(
            CurveView::Circle { centre: c, normal: n, x_axis: x, radius: r },
        ),
{
    lemma_curve_names();
}

/// An ellipse has its two radii beside what a circle has; one of which a radius
/// is zero is none.
pub proof fn lemma_ellipses_are_read(
    g: GraphView,
    node: NodeView,
    c: Seq<u64>,
    n: Seq<u64>,
    x: Seq<u64>,
    r1: u64,
    r2: u64,
)
    requires
        node.name == "ELLIPSE"@,
        node.field("centre"@) == Some(ValueView::Vec3(c)),
        node.field("normal"@) == Some(ValueView::Vec3(n)),
        node.field("x_axis"@) == Some(ValueView::Vec3(x)),
        node.field("major_radius"@) == Some(ValueView::F64(r1)),
        node.field("minor_radius"@) == Some(ValueView::F64(r2)),
    ensures
        curve_of(g, node) == if r1 == 0 || r2 == 0 || r1 == 0x8000000000000000 || r2
            == 0x8000000000000000 {
            None
        } else {
            Some(
                CurveView::Ellipse { centre: c, normal: n, x_axis: x, major: r1, minor: r2 },
            )
        },
{
    lemma_curve_names();
}

/// A trimmed curve is its basis curve from its first parameter and point to its
/// second.
pub proof fn lemma_trimmed_curves_are_read(
    g: GraphView,
    node: NodeView,
    basis: NodeView,
    t1: u64,
    t2: u64,
    p1: Seq<u64>,
    p2: Seq<u64>,
)
    requires
        node.name == "TRIMMED_CURVE"@,
        g.follow(node, "basis_curve"@) == Some(basis),
        node.field("parm_1"@) == Some(ValueView::F64(t1)),
        node.field("parm_2"@) == Some(ValueView::F64(t2)),
        node.field("point_1"@) == Some(ValueView::Vec3(p1)),
        node.field("point_2"@) == Some(ValueView::Vec3(p2)),
    ensures
        curve_of(g, node) == Some(
            CurveView::Trimmed { basis, from: t1, to: t2, start: p1, end: p2 },
        ),
{
    lemma_curve_names();
}

/// The curve in which surfaces meet is read as the points of its chart, in their
/// order, with the error that they were taken to. One point is too few.
pub proof fn lemma_charts_are_read(
    g: GraphView,
    node: NodeView,
    chart: NodeView,
    items: Seq<ValueView>,
    points: Seq<Seq<u64>>,
    error: u64,
)
    requires
        node.name == "INTERSECTION"@,
        g.follow(node, "chart"@) == Some(chart),
        chart.field("hvec"@) == Some(ValueView::Array(items)),
        chart.field("chordal_error"@) == Some(ValueView::F64(error)),
        items.len() == points.len(),
        forall|i: int|
            0 <= i < items.len() ==> #[trigger] items[i] == ValueView::Vec3(points[i])
                && points[i].len() == 3,
    ensures
        points.len() < 2 ==> curve_of(g, node) is None,
        points.len() >= 2 ==> {
            &&& curve_of(g, node) is Some
            &&& curve_of(g, node)->0 is Chart
            &&& curve_of(g, node)->0->points == points
            &&& curve_of(g, node)->0->error == Some(error)
        },
{
    lemma_curve_names();
    lemma_flat(items, points);
    if points.len() >= 2 {
        let got = curve_of(g, node)->0->points;
        assert forall|i: int| 0 <= i < points.len() implies got[i] == points[i] by {
            let flat = flat_reals(items)->0;
            assert(items[i] == ValueView::Vec3(points[i]));
            assert(flat[3 * i] == points[i][0]);
            assert(got[i] == seq![flat[3 * i], flat[3 * i + 1], flat[3 * i + 2]]);
            assert(got[i] =~= points[i]);
        }
        assert(got =~= points);
    }
}

// ---- knots and control points ----

/// Where the repeats of knot `k` begin: behind those of the knots before it.
pub open spec fn repeats_before(mult: Seq<i64>, k: int) -> int {
    mult.take(k).fold_left(0int, |sum: int, m: i64| sum + m)
}

proof fn lemma_sum(mult: Seq<i64>, n: int)
    requires
        0 <= n <= mult.len(),
    ensures
        sum(mult, n) == repeats_before(mult, n),
    decreases n,
{
    if n > 0 {
        lemma_sum(mult, n - 1);
        assert(mult.take(n).drop_last() =~= mult.take(n - 1));
    }
}

proof fn lemma_expanded(knots: Seq<u64>, mult: Seq<i64>, n: int, k: int, i: int)
    requires
        knots.len() >= n,
        mult.len() >= n,
        forall|j: int| 0 <= j < n ==> 0 <= #[trigger] mult[j],
        0 <= k < n,
        0 <= i < mult[k],
    ensures
        expanded(knots, mult, n).len() == repeats_before(mult, n),
        0 <= repeats_before(mult, k),
        repeats_before(mult, k) + i < expanded(knots, mult, n).len(),
        expanded(knots, mult, n)[repeats_before(mult, k) + i] == knots[k],
    decreases n,
{
    lemma_length(knots, mult, n - 1);
    lemma_length(knots, mult, n);
    lemma_length(knots, mult, k);
    if k < n - 1 {
        lemma_expanded(knots, mult, n - 1, k, i);
    }
}

proof fn lemma_length(knots: Seq<u64>, mult: Seq<i64>, n: int)
    requires
        0 <= n <= mult.len(),
        forall|j: int| 0 <= j < n ==> 0 <= #[trigger] mult[j],
    ensures
        expanded(knots, mult, n).len() == repeats_before(mult, n),
    decreases n,
{
    if n > 0 {
        lemma_length(knots, mult, n - 1);
        assert(mult.take(n).drop_last() =~= mult.take(n - 1));
    }
}

/// Every knot is there as often as it is repeated, in the order of the knots, and
/// there are no others.
pub proof fn lemma_knots_are_repeated(knots: Seq<u64>, mult: Seq<i64>, k: int, i: int)
    requires
        knots.len() == mult.len(),
        forall|j: int| 0 <= j < mult.len() ==> 0 <= #[trigger] mult[j] <= 1_000_000,
        0 <= k < knots.len(),
        0 <= i < mult[k],
    ensures
        knot_vector(knots, mult) is Some,
        knot_vector(knots, mult)->0.len() == repeats_before(mult, mult.len() as int),
        knot_vector(knots, mult)->0[repeats_before(mult, k) + i] == knots[k],
        loose_knots(knots, mult) matches Some(all) ==> all == knot_vector(knots, mult)->0,
{
    lemma_expanded(knots, mult, knots.len() as int, k, i);
}

/// The span of a parameter inside the knots is the one that holds it: the knot at
/// its place is not above the parameter, and the next one is. A parameter before
/// the first span falls in the first, and one behind the last in the last.
pub proof fn lemma_spans_hold_their_parameter(
    knots: Seq<u64>,
    t: u64,
    n: int,
    degree: int,
    points: int,
)
    requires
        splits_at(knots, t, n),
        0 <= degree < points < knots.len(),
    ensures
        ({
            let s = span_of(n, degree, points, knots.len() as int);
            &&& degree <= s < points
            &&& degree < n <= points ==> rank(knots[s]) <= rank(t) && rank(t) < rank(knots[s + 1])
            &&& n <= degree ==> s == degree
            &&& n > points ==> s == points - 1
        }),
{
}

/// Control points are read in their order, `dim` numbers each: three coordinates,
/// and a weight as the fourth where the net is rational. Without weights every
/// point weighs one.
pub proof fn lemma_control_points_are_read(verts: Seq<u64>, dim: int, rational: bool)
    requires
        controls(verts, dim, rational) is Some,
    ensures
        ({
            let points = controls(verts, dim, rational)->0;
            &&& dim >= 3
            &&& rational ==> dim >= 4
            &&& points.len() == verts.len() as int / dim
            &&& forall|i: int|
                0 <= i < points.len() ==> {
                    &&& (#[trigger] points[i]).len() == 4
                    &&& points[i][0] == verts[dim * i]
                    &&& points[i][1] == verts[dim * i + 1]
                    &&& points[i][2] == verts[dim * i + 2]
                    &&& rational ==> points[i][3] == verts[dim * i + 3]
                    &&& !rational ==> points[i][3] == 0x3ff0000000000000
                }
        }),
{
    let points = controls(verts, dim, rational)->0;
    vstd::arithmetic::div_mod::lemma_div_pos_is_pos(verts.len() as int, dim);
    assert forall|i: int| 0 <= i < points.len() implies {
        &&& (#[trigger] points[i]).len() == 4
        &&& points[i][0] == verts[dim * i]
        &&& points[i][1] == verts[dim * i + 1]
        &&& points[i][2] == verts[dim * i + 2]
        &&& rational ==> points[i][3] == verts[dim * i + 3]
        &&& !rational ==> points[i][3] == 0x3ff0000000000000
    } by {
        vstd::arithmetic::mul::lemma_mul_is_commutative(dim, i);
    }
}

/// A NURBS curve that is read has the degree, the rationality and the closure
/// that its node says, and it is closed where that calls it closed or periodic.
pub proof fn lemma_nurbs_curves_are_read(
    g: GraphView,
    node: NodeView,
    nc: NodeView,
    degree: i16,
    rational: bool,
    closed: bool,
    periodic: bool,
)
    requires
        node.name == "B_CURVE"@,
        g.follow(node, "nurbs"@) == Some(nc),
        nc.field("degree"@) == Some(ValueView::I16(degree)),
        nc.field("rational"@) == Some(ValueView::Bool(rational)),
        nc.field("closed"@) == Some(ValueView::Bool(closed)),
        nc.field("periodic"@) == Some(ValueView::Bool(periodic)),
    ensures
        curve_of(g, node) matches Some(c) ==> {
            &&& c is Nurbs
            &&& c->Nurbs_0.degree == degree
            &&& c->Nurbs_0.rational == rational
            &&& c->Nurbs_0.closed == (closed || periodic)
            &&& c->Nurbs_0.knots.len() > c->Nurbs_0.points.len() > 0
        },
{
    lemma_curve_names();
}

/// The field is there and true.
pub open spec fn says_yes(node: NodeView, name: Seq<char>) -> bool {
    match node.field(name) {
        Some(ValueView::Bool(b)) => b,
        Some(ValueView::U8(n)) => n != 0,
        Some(ValueView::I16(n)) => n != 0,
        _ => false,
    }
}

/// A NURBS surface that is read has in either direction the degree, the number of
/// points and the closure that its node says.
pub proof fn lemma_nurbs_surfaces_are_read(
    g: GraphView,
    node: NodeView,
    ns: NodeView,
    u_degree: i16,
    v_degree: i16,
    nu: i16,
    nv: i16,
)
    requires
        g.follow(node, "nurbs"@) == Some(ns),
        ns.field("u_degree"@) == Some(ValueView::I16(u_degree)),
        ns.field("v_degree"@) == Some(ValueView::I16(v_degree)),
        ns.field("n_u_vertices"@) == Some(ValueView::I16(nu)),
        ns.field("n_v_vertices"@) == Some(ValueView::I16(nv)),
    ensures
        surface_shape_of(g, node) matches Some(s) ==> {
            &&& s.u_degree == u_degree
            &&& s.v_degree == v_degree
            &&& s.nu == nu
            &&& s.nv == nv
            &&& s.points.len() >= nu * nv
            &&& s.u_closed <==> says_yes(ns, "u_periodic"@) || says_yes(ns, "u_closed"@)
            &&& s.v_closed <==> says_yes(ns, "v_periodic"@) || says_yes(ns, "v_closed"@)
        },
{
}

// ---- surfaces ----

proof fn lemma_surface_names()
    ensures
        "CYLINDER"@ != "PLANE"@,
        "CONE"@ != "PLANE"@ && "CONE"@ != "CYLINDER"@,
        "SPHERE"@ != "PLANE"@ && "SPHERE"@ != "CYLINDER"@ && "SPHERE"@ != "CONE"@,
        "TORUS"@ != "PLANE"@ && "TORUS"@ != "CYLINDER"@ && "TORUS"@ != "CONE"@ && "TORUS"@
            != "SPHERE"@,
        "SWEPT_SURF"@ != "PLANE"@ && "SWEPT_SURF"@ != "CYLINDER"@ && "SWEPT_SURF"@ != "CONE"@
            && "SWEPT_SURF"@ != "SPHERE"@ && "SWEPT_SURF"@ != "TORUS"@,
        "SPUN_SURF"@ != "PLANE"@ && "SPUN_SURF"@ != "CYLINDER"@ && "SPUN_SURF"@ != "CONE"@
            && "SPUN_SURF"@ != "SPHERE"@ && "SPUN_SURF"@ != "TORUS"@ && "SPUN_SURF"@
            != "SWEPT_SURF"@,
        "OFFSET_SURF"@ != "PLANE"@ && "OFFSET_SURF"@ != "CYLINDER"@ && "OFFSET_SURF"@ != "CONE"@
            && "OFFSET_SURF"@ != "SPHERE"@ && "OFFSET_SURF"@ != "TORUS"@ && "OFFSET_SURF"@
            != "SWEPT_SURF"@ && "OFFSET_SURF"@ != "SPUN_SURF"@,
        "BLENDED_EDGE"@ != "PLANE"@ && "BLENDED_EDGE"@ != "CYLINDER"@ && "BLENDED_EDGE"@ != "CONE"@
            && "BLENDED_EDGE"@ != "SPHERE"@ && "BLENDED_EDGE"@ != "TORUS"@ && "BLENDED_EDGE"@
            != "SWEPT_SURF"@ && "BLENDED_EDGE"@ != "SPUN_SURF"@ && "BLENDED_EDGE"@
            != "OFFSET_SURF"@ && "BLENDED_EDGE"@ != "B_SURFACE"@,
{
    reveal_strlit("PLANE");
    reveal_strlit("CYLINDER");
    reveal_strlit("CONE");
    reveal_strlit("SPHERE");
    reveal_strlit("TORUS");
    reveal_strlit("SWEPT_SURF");
    reveal_strlit("SPUN_SURF");
    reveal_strlit("B_SURFACE");
    reveal_strlit("OFFSET_SURF");
    reveal_strlit("BLENDED_EDGE");
    assert("PLANE"@.len() == 5 && "CYLINDER"@.len() == 8 && "CONE"@.len() == 4);
    assert("SPHERE"@.len() == 6 && "TORUS"@.len() == 5 && "SWEPT_SURF"@.len() == 10);
    assert("SPUN_SURF"@.len() == 9 && "B_SURFACE"@.len() == 9 && "OFFSET_SURF"@.len() == 11);
    assert("BLENDED_EDGE"@.len() == 12);
    assert("PLANE"@[0] == 'P' && "TORUS"@[0] == 'T');
}

/// A plane has its `pvec`, its `normal` and its `x_axis`.
pub proof fn lemma_planes_are_read(
    g: GraphView,
    node: NodeView,
    p: Seq<u64>,
    n: Seq<u64>,
    x: Seq<u64>,
)
    requires
        node.name == "PLANE"@,
        node.field("pvec"@) == Some(ValueView::Vec3(p)),
        node.field("normal"@) == Some(ValueView::Vec3(n)),
        node.field("x_axis"@) == Some(ValueView::Vec3(x)),
    ensures
        surface_of(g, node) == Some(SurfaceView::Plane { point: p, normal: n, x_axis: x }),
{
}

/// A cylinder has its `pvec`, its `axis`, its `x_axis` and its `radius`, and a
/// cone the sine and cosine of its half angle beside them. A cone whose cosine is
/// zero is none.
pub proof fn lemma_cylinders_and_cones_are_read(
    g: GraphView,
    node: NodeView,
    p: Seq<u64>,
    a: Seq<u64>,
    x: Seq<u64>,
    r: u64,
    sine: u64,
    cosine: u64,
)
    requires
        node.field("pvec"@) == Some(ValueView::Vec3(p)),
        node.field("axis"@) == Some(ValueView::Vec3(a)),
        node.field("x_axis"@) == Some(ValueView::Vec3(x)),
        node.field("radius"@) == Some(ValueView::F64(r)),
        node.name == "CONE"@ ==> node.field("sin_half_angle"@) == Some(ValueView::F64(sine))
            && node.field("cos_half_angle"@) == Some(ValueView::F64(cosine)),
    ensures
        node.name == "CYLINDER"@ ==> surface_of(g, node) == Some(
            SurfaceView::Cylinder { point: p, axis: a, x_axis: x, radius: r },
        ),
        node.name == "CONE"@ ==> surface_of(g, node) == if cosine == 0 || cosine
            == 0x8000000000000000 {
            None
        } else {
            Some(SurfaceView::Cone { point: p, axis: a, x_axis: x, radius: r, sine, cosine })
        },
{
    lemma_surface_names();
}

/// A sphere has its `centre`, its `axis`, its `x_axis` and its `radius`, and a
/// torus two radii in place of the one.
pub proof fn lemma_spheres_and_tori_are_read(
    g: GraphView,
    node: NodeView,
    c: Seq<u64>,
    a: Seq<u64>,
    x: Seq<u64>,
    r: u64,
    r1: u64,
    r2: u64,
)
    requires
        node.field("centre"@) == Some(ValueView::Vec3(c)),
        node.field("axis"@) == Some(ValueView::Vec3(a)),
        node.field("x_axis"@) == Some(ValueView::Vec3(x)),
        node.name == "SPHERE"@ ==> node.field("radius"@) == Some(ValueView::F64(r)),
        node.name == "TORUS"@ ==> node.field("major_radius"@) == Some(ValueView::F64(r1))
            && node.field("minor_radius"@) == Some(ValueView::F64(r2)),
    ensures
        node.name == "SPHERE"@ ==> surface_of(g, node) == Some(
            SurfaceView::Sphere { centre: c, axis: a, x_axis: x, radius: r },
        ),
        node.name == "TORUS"@ ==> surface_of(g, node) == Some(
            SurfaceView::Torus { centre: c, axis: a, x_axis: x, major: r1, minor: r2 },
        ),
{
    lemma_surface_names();
}

/// A swept surface is its `section` moved along its `sweep`.
pub proof fn lemma_swept_surfaces_are_read(
    g: GraphView,
    node: NodeView,
    section: NodeView,
    d: Seq<u64>,
)
    requires
        node.name == "SWEPT_SURF"@,
        g.follow(node, "section"@) == Some(section),
        node.field("sweep"@) == Some(ValueView::Vec3(d)),
    ensures
        surface_of(g, node) == Some(SurfaceView::Swept { section, sweep: d }),
{
    lemma_surface_names();
}

/// A spun surface is its `profile` turned about its `axis` through its `base`, or
/// through its `pvec` where it has no `base`.
pub proof fn lemma_spun_surfaces_are_read(
    g: GraphView,
    node: NodeView,
    profile: NodeView,
    p: Seq<u64>,
    a: Seq<u64>,
)
    requires
        node.name == "SPUN_SURF"@,
        g.follow(node, "profile"@) == Some(profile),
        node.field("base"@) == Some(ValueView::Vec3(p)) || node.field("base"@) is None
            && node.field("pvec"@) == Some(ValueView::Vec3(p)),
        node.field("axis"@) == Some(ValueView::Vec3(a)),
    ensures
        surface_of(g, node) == Some(SurfaceView::Spun { profile, point: p, axis: a }),
{
    lemma_surface_names();
}

/// An offset surface lies at its `offset` from the one that it hangs from, and
/// backwards where its sense is negative.
pub proof fn lemma_offset_surfaces_are_read(
    g: GraphView,
    node: NodeView,
    base: NodeView,
    offset: u64,
)
    requires
        node.name == "OFFSET_SURF"@,
        g.follow(node, "surface"@) == Some(base),
        node.field("offset"@) == Some(ValueView::F64(offset)),
    ensures
        surface_of(g, node) is Some,
        surface_of(g, node)->0 is Offset,
        surface_of(g, node)->0->base == base,
        ({
            let d = surface_of(g, node)->0->distance;
            match node.field("sense"@) {
                Some(ValueView::Char(t)) => if t.len() > 0 && t[0] == '-' {
                    d == offset + 0x8000000000000000 || offset == d + 0x8000000000000000
                } else {
                    d == offset
                },
                None => d == offset,
                _ => true,
            }
        }),
{
    lemma_surface_names();
}

/// A blend is a ball of the radius that its range begins with, without its sign,
/// rolled along its spine between its two walls; a wall that is an offset surface
/// stands for the one that it hangs from.
pub proof fn lemma_blends_are_read(
    g: GraphView,
    node: NodeView,
    a: NodeId,
    b: NodeId,
    spine: NodeView,
    range: Seq<u64>,
)
    requires
        node.name == "BLENDED_EDGE"@,
        node.field("surface"@) == Some(
            ValueView::Array(seq![ValueView::Ptr(Some(a)), ValueView::Ptr(Some(b))]),
        ),
        node.field("range"@) == Some(ValueView::Array(range.map_values(|x: u64| ValueView::F64(x)))),
        range.len() > 0,
        range[0] % 0x8000000000000000 != 0,
        range[0] % 0x8000000000000000 < 0x7ff0000000000000,
        g.follow(node, "spine"@) == Some(spine),
        g.nodes.contains_key(a) && g.nodes[a].name != "OFFSET_SURF"@,
        g.nodes.contains_key(b) && g.nodes[b].name != "OFFSET_SURF"@,
    ensures
        surface_of(g, node) == Some(
            SurfaceView::Blend {
                radius: range[0] % 0x8000000000000000,
                spine,
                first: g.nodes[a],
                second: g.nodes[b],
            },
        ),
{
    lemma_surface_names();
    lemma_arrays_of_numbers_are_listed(range);
    let ids = seq![a, b];
    lemma_arrays_of_pointers_are_listed(ids);
    assert(ids.map_values(|i: NodeId| ValueView::Ptr(Some(i))) =~= seq![
        ValueView::Ptr(Some(a)),
        ValueView::Ptr(Some(b)),
    ]);
    assert(node.pointers("surface"@) == ids);
}

// ---- edges and loops ----

/// The vertex of the halfedge lies at the point.
pub open spec fn stands_at(g: GraphView, he: NodeView, p: Seq<u64>) -> bool {
    match g.follow(he, "vertex"@) {
        Some(v) => match g.follow(v, "point"@) {
            Some(q) => q.field("pvec"@) == Some(ValueView::Vec3(p)),
            None => false,
        },
        None => false,
    }
}

/// An edge runs from the vertex of its halfedge to that of the halfedge on its
/// other side, and the other way round where the sense of its halfedge is
/// negative.
pub proof fn lemma_edges_run_with_their_positive_halfedge(
    g: GraphView,
    edge: NodeView,
    h: NodeView,
    o: NodeView,
    p: Seq<u64>,
    q: Seq<u64>,
)
    requires
        g.follow(edge, "halfedge"@) == Some(h),
        g.follow(h, "other"@) == Some(o),
        g.follow(o, "other"@) == Some(h),
        stands_at(g, h, p),
        stands_at(g, o, q),
    ensures
        match h.field("sense"@) {
            Some(ValueView::Char(t)) if t.len() > 0 && t[0] == '-' => start_point(g, edge) == Some(
                q,
            ) && end_point(g, edge) == Some(p),
            Some(ValueView::Utf16(t)) => true,
            _ => start_point(g, edge) == Some(p) && end_point(g, edge) == Some(q),
        },
{
}

/// The edges along halfedges come in the order of the halfedges.
pub proof fn lemma_edges_follow_their_halfedges(
    g: GraphView,
    halfedges: Seq<NodeView>,
    edges: Seq<NodeView>,
)
    requires
        halfedges.len() == edges.len(),
        forall|i: int|
            0 <= i < edges.len() ==> #[trigger] g.follow(halfedges[i], "edge"@) == Some(edges[i]),
    ensures
        edges_along(g, halfedges) == edges,
    decreases edges.len(),
{
    if edges.len() > 0 {
        let n = edges.len() - 1;
        assert forall|i: int| 0 <= i < n implies #[trigger] g.follow(
            halfedges.drop_last()[i],
            "edge"@,
        ) == Some(edges.drop_last()[i]) by {
            assert(g.follow(halfedges[i], "edge"@) == Some(edges[i]));
        }
        lemma_edges_follow_their_halfedges(g, halfedges.drop_last(), edges.drop_last());
        assert(g.follow(halfedges[n], "edge"@) == Some(edges[n]));
        assert(edges.drop_last().push(edges.last()) =~= edges);
    } else {
        assert(edges =~= Seq::empty());
    }
}

/// The edges around several loops are those around the first of them, then those
/// around the others; those of one loop are along its halfedges, which are linked
/// backwards.
pub proof fn lemma_loops_are_run_one_by_one(g: GraphView, a: Seq<NodeView>, b: Seq<NodeView>)
    ensures
        edges_around(g, a + b) == edges_around(g, a) + edges_around(g, b),
        b.len() == 1 ==> edges_around(g, b) == edges_along(
            g,
            g.chain(b[0].pointer("halfedge"@), "backward"@),
        ),
    decreases b.len(),
{
    if b.len() > 0 {
        lemma_loops_are_run_one_by_one(g, a, b.drop_last());
        assert((a + b).drop_last() =~= a + b.drop_last());
        assert((a + b).last() == b.last());
        let last = edges_along(g, g.chain(b.last().pointer("halfedge"@), "backward"@));
        assert(edges_around(g, a) + (edges_around(g, b.drop_last()) + last) =~= (edges_around(g, a)
            + edges_around(g, b.drop_last())) + last);
        if b.len() == 1 {
            assert(b.drop_last() =~= Seq::empty());
            assert(Seq::<NodeView>::empty() + last =~= last);
        }
    } else {
        assert(a + b =~= a);
        assert(edges_around(g, a) + Seq::<NodeView>::empty() =~= edges_around(g, a));
    }
}

/// A run of points that is offered to a chain goes on from its end: the last point
/// of the chain gives way to the first of the run where that lies near, and
/// otherwise to the last of the run, which is then run backwards, where that does.
pub proof fn lemma_runs_are_joined_end_to_end(
    chain: Seq<Point>,
    run: Seq<Point>,
    head_near: bool,
    tail_near: bool,
)
    requires
        run.len() > 0,
    ensures
        ({
            let r = joined(chain, run, join_of(chain, head_near, tail_near));
            let n = chain.len() as int;
            &&& n == 0 ==> r == run
            &&& n > 0 ==> r.len() == n - 1 + run.len()
            &&& n > 0 ==> forall|i: int| 0 <= i < n - 1 ==> #[trigger] r[i] == chain[i]
            &&& n > 0 && (head_near || !tail_near) ==> forall|i: int|
                0 <= i < run.len() ==> r[n - 1 + i] == #[trigger] run[i]
            &&& n > 0 && !head_near && tail_near ==> forall|i: int|
                0 <= i < run.len() ==> r[n - 1 + run.len() - 1 - i] == #[trigger] run[i]
        }),
{
}

/// A chain whose ends meet closes without its last point, and any other as it is.
/// Fewer than three points make no ring.
pub proof fn lemma_chains_close_without_a_double_point(chain: Seq<Point>, ends_meet: bool)
    ensures
        ({
            let n = if chain.len() >= 2 && ends_meet {
                chain.len() - 1
            } else {
                chain.len() as int
            };
            match closed_up(chain, ends_meet) {
                Some(ring) => n >= 3 && ring.len() == n && forall|i: int|
                    0 <= i < n ==> #[trigger] ring[i] == chain[i],
                None => n < 3,
            }
        }),
{
}

/// The surfaces on the two sides of an edge are those of the faces of its
/// halfedges, its own first, where they are two and both have a closed form.
pub proof fn lemma_surfaces_meet_at_edges(
    g: GraphView,
    edge: NodeView,
    h: NodeView,
    o: NodeView,
    a: NodeView,
    b: NodeView,
)
    requires
        g.follow(edge, "halfedge"@) == Some(h),
        g.follow(h, "other"@) == Some(o),
        lies_on(g, h, a),
        lies_on(g, o, b),
    ensures
        a.id != b.id && exact_surface(a.name) && exact_surface(b.name) ==> surfaces_across(g, edge)
            == Some((a, b)),
        a.id == b.id || !exact_surface(a.name) || !exact_surface(b.name) ==> surfaces_across(
            g,
            edge,
        ) is None,
{
}

/// The face of the loop of the halfedge lies on the surface.
pub open spec fn lies_on(g: GraphView, he: NodeView, surface: NodeView) -> bool {
    match g.follow(he, "loop"@) {
        Some(l) => match g.follow(l, "face"@) {
            Some(f) => g.follow(f, "surface"@) == Some(surface),
            None => false,
        },
        None => false,
    }
}

/// The trace of a run goes along its edges in their order, and backwards along
/// those that are run backwards.
pub proof fn lemma_traces_go_the_way_of_their_steps(
    edges: Map<NodeId, Polyline>,
    run: Seq<(NodeView, bool)>,
    edge: NodeView,
    forwards: bool,
    i: int,
)
    requires
        edges.contains_key(edge.id),
        0 <= i < edges[edge.id].points@.len(),
    ensures
        ({
            let before = trace_of(edges, run);
            let all = trace_of(edges, run.push((edge, forwards)));
            let pts = edges[edge.id].points@;
            &&& all.len() == before.len() + pts.len()
            &&& all.take(before.len() as int) == before
            &&& forwards ==> all[before.len() + i] == pts[i]
            &&& !forwards ==> all[before.len() + i] == pts[pts.len() - 1 - i]
        }),
{
    assert(run.push((edge, forwards)).drop_last() =~= run);
    let before = trace_of(edges, run);
    let all = trace_of(edges, run.push((edge, forwards)));
    assert(all.take(before.len() as int) =~= before);
}

/// The control net of a NURBS surface has the degrees and the numbers of points
/// that its node says, in either direction, and all the numbers it takes.
pub proof fn lemma_control_nets_are_read(
    g: GraphView,
    node: NodeView,
    ns: NodeView,
    u_degree: i16,
    v_degree: i16,
    nu: i16,
    nv: i16,
    dim: i16,
    rational: bool,
)
    requires
        g.follow(node, "nurbs"@) == Some(ns),
        ns.field("u_degree"@) == Some(ValueView::I16(u_degree)),
        ns.field("v_degree"@) == Some(ValueView::I16(v_degree)),
        ns.field("n_u_vertices"@) == Some(ValueView::I16(nu)),
        ns.field("n_v_vertices"@) == Some(ValueView::I16(nv)),
        ns.field("vertex_dim"@) == Some(ValueView::I16(dim)),
        ns.field("rational"@) == Some(ValueView::Bool(rational)),
    ensures
        net_fields_of(g, node) matches Some(f) ==> {
            &&& f.u_degree == u_degree && f.v_degree == v_degree
            &&& f.nu == nu && f.nv == nv
            &&& f.dim == dim && dim >= 3
            &&& f.rational == rational
            &&& f.verts.len() >= nu * nv * dim
            &&& match g.follow(ns, "u_knots"@) {
                Some(k) => match (
                    k.field("knots"@),
                    g.follow(ns, "u_knot_mult"@),
                ) {
                    (Some(v), Some(m)) => v.reals() is Some && m.field("mult"@) is Some
                        && m.field("mult"@)->0.integers() is Some && Some(f.u_knots)
                        == loose_knots(v.reals()->0, m.field("mult"@)->0.integers()->0),
                    _ => false,
                },
                None => false,
            }
            &&& match g.follow(ns, "v_knots"@) {
                Some(k) => match (
                    k.field("knots"@),
                    g.follow(ns, "v_knot_mult"@),
                ) {
                    (Some(v), Some(m)) => v.reals() is Some && m.field("mult"@) is Some
                        && m.field("mult"@)->0.integers() is Some && Some(f.v_knots)
                        == loose_knots(v.reals()->0, m.field("mult"@)->0.integers()->0),
                    _ => false,
                },
                None => false,
            }
        },
{
}

/// The points of a model are the places of its nodes in the order of the file,
/// the `pvec` of each before its `centre`.
pub proof fn lemma_model_points_in_order(
    nodes: Map<NodeId, NodeView>,
    order: Seq<NodeId>,
    id: NodeId,
)
    ensures
        ({
            let before = points_among(nodes, order);
            let all = points_among(nodes, order.push(id));
            &&& !nodes.contains_key(id) ==> all == before
            &&& nodes.contains_key(id) ==> match (
                nodes[id].field("pvec"@),
                nodes[id].field("centre"@),
            ) {
                (Some(ValueView::Vec3(p)), Some(ValueView::Vec3(c))) => all == before.push(p).push(
                    c,
                ),
                (Some(ValueView::Vec3(p)), None) => all == before.push(p),
                (None, Some(ValueView::Vec3(c))) => all == before.push(c),
                (None, None) => all == before,
                _ => true,
            }
        }),
{
    assert(order.push(id).drop_last() =~= order);
    let before = points_among(nodes, order);
    let all = points_among(nodes, order.push(id));
    if nodes.contains_key(id) {
        match (nodes[id].field("pvec"@), nodes[id].field("centre"@)) {
            (Some(ValueView::Vec3(p)), Some(ValueView::Vec3(c))) => {
                assert(all =~= before.push(p).push(c));
            },
            (Some(ValueView::Vec3(p)), None) => {
                assert(all =~= before.push(p));
            },
            (None, Some(ValueView::Vec3(c))) => {
                assert(all =~= before.push(c));
            },
            (None, None) => {
                assert(all =~= before);
            },
            _ => {},
        }
    }
}

// ---- attributes ----

/// An attribute has the name that its definition leads to.
pub proof fn lemma_attributes_are_named_by_their_definition(
    g: GraphView,
    att: NodeView,
    def: NodeView,
    ident: NodeView,
    name: Seq<char>,
)
    requires
        att.name == "ATTRIBUTE"@,
        g.follow(att, "definition"@) == Some(def),
        g.follow(def, "identifier"@) == Some(ident),
        ident.field("string"@) == Some(ValueView::Char(name)),
    ensures
        g.attribute(att) is Some,
        g.attribute(att)->0.name == name,
{
}

/// The values of an attribute are those of the nodes that its fields lead to, in
/// their order.
pub proof fn lemma_values_of_attributes_in_order(
    g: GraphView,
    ids: Seq<NodeId>,
    values: Seq<ValueView>,
)
    requires
        ids.len() == values.len(),
        forall|i: int|
            0 <= i < ids.len() ==> #[trigger] g.nodes.contains_key(ids[i])
                && g.nodes[ids[i]].field("values"@) == Some(values[i]),
    ensures
        g.values_of(ids) == values,
    decreases ids.len(),
{
    if ids.len() > 0 {
        let n = ids.len() - 1;
        assert forall|i: int| 0 <= i < n implies #[trigger] g.nodes.contains_key(
            ids.drop_last()[i],
        ) && g.nodes[ids.drop_last()[i]].field("values"@) == Some(values.drop_last()[i]) by {
            assert(g.nodes.contains_key(ids[i]));
        }
        lemma_values_of_attributes_in_order(g, ids.drop_last(), values.drop_last());
        assert(g.nodes.contains_key(ids[n]));
        assert(values.drop_last().push(values.last()) =~= values);
    } else {
        assert(values =~= Seq::empty());
    }
}

/// The colour of a face is that of its first colour attribute: the first three
/// numbers of its first value, where that has as many.
pub proof fn lemma_the_first_colour_counts(
    attributes: Seq<AttributeView>,
    k: int,
    r: u64,
    g: u64,
    b: u64,
)
    requires
        0 <= k < attributes.len(),
        forall|i: int| 0 <= i < k ==> (#[trigger] attributes[i]).name != "SDL/TYSA_COLOUR"@,
        attributes[k].name == "SDL/TYSA_COLOUR"@,
        attributes[k].values.len() > 0,
        attributes[k].values[0] == ValueView::Array(
            seq![r, g, b].map_values(|x: u64| ValueView::F64(x)),
        ),
    ensures
        color_in(attributes) == Some(seq![r, g, b]),
    decreases k,
{
    if k > 0 {
        let rest = attributes.drop_first();
        assert(attributes[0].name != "SDL/TYSA_COLOUR"@);
        assert forall|i: int| 0 <= i < k - 1 implies (#[trigger] rest[i]).name
            != "SDL/TYSA_COLOUR"@ by {
            assert(attributes[i + 1].name != "SDL/TYSA_COLOUR"@);
        }
        lemma_the_first_colour_counts(rest, k - 1, r, g, b);
    } else {
        lemma_arrays_of_numbers_are_listed(seq![r, g, b]);
        assert(seq![r, g, b].take(3) =~= seq![r, g, b]);
        assert(color_in_values(attributes[0].values) == Search::Done(Some(seq![r, g, b])));
    }
}

/// A face without a colour attribute has no colour.
pub proof fn lemma_no_colour_without_an_attribute(attributes: Seq<AttributeView>)
    requires
        forall|i: int|
            0 <= i < attributes.len() ==> (#[trigger] attributes[i]).name != "SDL/TYSA_COLOUR"@,
    ensures
        color_in(attributes) is None,
    decreases attributes.len(),
{
    if attributes.len() > 0 {
        assert(attributes[0].name != "SDL/TYSA_COLOUR"@);
        let rest = attributes.drop_first();
        assert forall|i: int| 0 <= i < rest.len() implies (#[trigger] rest[i]).name
            != "SDL/TYSA_COLOUR"@ by {
            assert(attributes[i + 1].name != "SDL/TYSA_COLOUR"@);
        }
        lemma_no_colour_without_an_attribute(rest);
    }
}

} // verus!
