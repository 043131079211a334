//! Curves and surfaces as STEP entities.

use std::collections::HashMap;

use vstd::prelude::*;

use super::writer::{
    int_list, list_f, list_i, list_u32, push_real, push_ref, real_list, real_text, ref_list, refer,
    Writer, WriterView,
};
use crate::double::{below, from_int, is_less, of_int, rank, SIGN_BIT};
use crate::geometry::{negate, negated, number_in, place_in};
use crate::graph::{Graph, GraphView};
use crate::nurbs::{
    count, count_in, expand_loosely, flag_in, integers_at, integers_of, loose_knots, reals_at,
    reals_of,
};
use crate::sample::Point;
use crate::text::{push_decimal, same_text};
use crate::value::{same_list, Node, NodeId, NodeView};

verus! {

broadcast use vstd::std_specs::hash::group_hash_axioms;

/// A sampled curve: its points and the length of the way to each.
pub struct Polyline {
    pub points: Vec<Point>,
    pub knots: Vec<u64>,
}

/// The control net of a NURBS surface.
pub struct Net {
    pub u_degree: usize,
    pub v_degree: usize,
    pub rational: bool,
    /// The control points, row by row; of a rational surface divided by their
    /// weights.
    pub rows: Vec<Vec<Point>>,
    pub weights: Vec<Vec<u64>>,
    /// False where a weight is zero or not finite; then the points before it
    /// are all that there are.
    pub complete: bool,
    pub u_mults: Vec<usize>,
    pub v_mults: Vec<usize>,
    pub u_knots: Vec<u64>,
    pub v_knots: Vec<u64>,
}

/// What only arithmetic on the geometry gives.
pub struct Shapes {
    /// The text of every number that is written, by its bits.
    pub numbers: HashMap<u64, String>,
    /// The samples of curves that no STEP type fits, by the curve.
    pub curves: HashMap<NodeId, Polyline>,
    /// The half angle of cones, by the surface.
    pub angles: HashMap<NodeId, u64>,
    /// The control nets of NURBS surfaces, by the surface.
    pub nets: HashMap<NodeId, Net>,
    /// Points of surfaces that no STEP type fits, over the region that the
    /// boundary of a face occupies, by the face.
    pub grids: HashMap<NodeId, Vec<Vec<Point>>>,
    /// The samples of edges, by the edge.
    pub edges: HashMap<NodeId, Polyline>,
}

/// How often the knots of a curve or surface of degree one are repeated: the
/// first and the last twice.
pub open spec fn end_mults(n: nat) -> Seq<usize> {
    Seq::new(
        n,
        |i: int|
            if i == 0 || i == n - 1 {
                2usize
            } else {
                1usize
            },
    )
}

fn clamped(n: usize) -> (r: Vec<usize>)
    ensures
        r@ == end_mults(n as nat),
{
    let mut out: Vec<usize> = Vec::new();
    let mut i: usize = 0;
    while i < n
        invariant
            i <= n,
            out@ == end_mults(n as nat).take(i as int),
        decreases n - i,
    {
        out.push(
            if i == 0 || i == n - 1 {
                2
            } else {
                1
            },
        );
        assert(out@ =~= end_mults(n as nat).take(i + 1));
        i += 1;
    }
    assert(out@ =~= end_mults(n as nat));
    out
}

/// Degree-1 B-spline through the points, chord-length parameterized, where
/// there are two at least. This is how every sampled polyline (edge or sweep
/// section) is carried.
pub open spec fn polyline_written(
    w: WriterView,
    numbers: Map<u64, String>,
    line: Polyline,
) -> (WriterView, bool) {
    if line.points@.len() < 2 {
        (w, false)
    } else {
        (
            w.carts(numbers, line.points@).entity(
                "B_SPLINE_CURVE_WITH_KNOTS('',1,"@ + ref_list(w.cart_ids(numbers, line.points@))
                    + ",.POLYLINE_FORM.,.F.,.F.,"@ + int_list(end_mults(line.points@.len())) + ","@
                    + real_list(numbers, line.knots@) + ",.UNSPECIFIED.)"@,
            ),
            true,
        )
    }
}

pub fn polyline_bspline(
    w: &mut Writer,
    numbers: &HashMap<u64, String>,
    line: &Polyline,
) -> (r: Option<u64>)
    ensures
        (final(w)@, r.is_some()) == polyline_written(old(w)@, numbers@, *line),
        r matches Some(id) ==> id == final(w)@.n,
{
    if line.points.len() < 2 {
        return None;
    }
    let ids = w.carts(numbers, line.points.as_slice());
    let mults = clamped(line.points.len());
    let mut s = "B_SPLINE_CURVE_WITH_KNOTS('',1,".to_owned();
    s.append(list_u32(ids.as_slice()).as_str());
    s.append(",.POLYLINE_FORM.,.F.,.F.,");
    s.append(list_i(mults.as_slice()).as_str());
    s.append(",");
    s.append(list_f(numbers, line.knots.as_slice()).as_str());
    s.append(",.UNSPECIFIED.)");
    assert(s@ =~= "B_SPLINE_CURVE_WITH_KNOTS('',1,"@ + ref_list(ids@)
        + ",.POLYLINE_FORM.,.F.,.F.,"@ + int_list(mults@) + ","@ + real_list(
        numbers@,
        line.knots@,
    ) + ",.UNSPECIFIED.)"@);
    Some(w.add(s.as_str()))
}

// ---- curves ----

/// A curve for sweep sections and revolution profiles: exact where STEP has
/// the type, sampled otherwise.
pub open spec fn curve_written(w: WriterView, shapes: Shapes, node: NodeView) -> (
    WriterView,
    bool,
) {
    let numbers = shapes.numbers@;
    if node.name == "LINE"@ {
        match (place_in(node, "pvec"@), place_in(node, "direction"@)) {
            (Some(p), Some(d)) => {
                let c = w.cart(numbers, p);
                let dd = c.dir(numbers, d);
                let v = dd.entity("VECTOR('',"@ + refer(dd.n) + ",1.0)"@);
                (v.entity("LINE('',"@ + refer(c.n) + ","@ + refer(v.n) + ")"@), true)
            },
            _ => (w, false),
        }
    } else if node.name == "CIRCLE"@ {
        match (
            place_in(node, "centre"@),
            place_in(node, "normal"@),
            place_in(node, "x_axis"@),
            number_in(node, "radius"@),
        ) {
            (Some(c), Some(n), Some(x), Some(r)) => {
                let ax = w.ax2(numbers, c, n, x);
                (
                    ax.entity(
                        "CIRCLE('',"@ + refer(ax.n) + ","@ + real_text(numbers, r) + ")"@,
                    ),
                    true,
                )
            },
            _ => (w, false),
        }
    } else if node.name == "ELLIPSE"@ {
        match (
            place_in(node, "centre"@),
            place_in(node, "normal"@),
            place_in(node, "x_axis"@),
            number_in(node, "major_radius"@),
            number_in(node, "minor_radius"@),
        ) {
            (Some(c), Some(n), Some(x), Some(r1), Some(r2)) => {
                let ax = w.ax2(numbers, c, n, x);
                (
                    ax.entity(
                        "ELLIPSE('',"@ + refer(ax.n) + ","@ + real_text(numbers, r1) + ","@
                            + real_text(numbers, r2) + ")"@,
                    ),
                    true,
                )
            },
            _ => (w, false),
        }
    } else if shapes.curves@.contains_key(node.id) {
        polyline_written(w, numbers, shapes.curves@[node.id])
    } else {
        (w, false)
    }
}

/// Append a comma and a real.
fn push_next(out: &mut String, numbers: &HashMap<u64, String>, bits: u64)
    ensures
        final(out)@ == old(out)@ + ","@ + real_text(numbers@, bits),
{
    out.append(",");
    push_real(out, numbers, bits);
}

pub fn curve_entity(w: &mut Writer, shapes: &Shapes, node: &Node) -> (r: Option<u64>)
    ensures
        (final(w)@, r.is_some()) == curve_written(old(w)@, *shapes, node@),
        r matches Some(id) ==> id == final(w)@.n,
{
    let numbers = &shapes.numbers;
    let name = node.name.as_str();
    if same_text(name, "LINE") {
        match (node.vec3("pvec"), node.vec3("direction")) {
            (Some(p), Some(d)) => {
                let c: u64 = w.cart(numbers, p);
                let dd: u64 = w.dir(numbers, d);
                let mut s = "VECTOR('',".to_owned();
                push_ref(&mut s, dd);
                s.append(",1.0)");
                let v: u64 = w.add(s.as_str());
                let mut t = "LINE('',".to_owned();
                push_ref(&mut t, c);
                t.append(",");
                push_ref(&mut t, v);
                t.append(")");
                Some(w.add(t.as_str()))
            },
            _ => None,
        }
    } else if same_text(name, "CIRCLE") {
        match (node.vec3("centre"), node.vec3("normal"), node.vec3("x_axis"), node.f64_bits("radius")) {
            (Some(c), Some(n), Some(x), Some(rad)) => {
                let ax: u64 = w.ax2(numbers, c, n, x);
                let mut s = "CIRCLE('',".to_owned();
                push_ref(&mut s, ax);
                push_next(&mut s, numbers, rad);
                s.append(")");
                Some(w.add(s.as_str()))
            },
            _ => None,
        }
    } else if same_text(name, "ELLIPSE") {
        match (
            node.vec3("centre"),
            node.vec3("normal"),
            node.vec3("x_axis"),
            node.f64_bits("major_radius"),
            node.f64_bits("minor_radius"),
        ) {
            (Some(c), Some(n), Some(x), Some(r1), Some(r2)) => {
                let ax: u64 = w.ax2(numbers, c, n, x);
                let mut s = "ELLIPSE('',".to_owned();
                push_ref(&mut s, ax);
                push_next(&mut s, numbers, r1);
                push_next(&mut s, numbers, r2);
                s.append(")");
                Some(w.add(s.as_str()))
            },
            _ => None,
        }
    } else {
        match shapes.curves.get(&node.id) {
            Some(line) => polyline_bspline(w, numbers, line),
            None => None,
        }
    }
}

// ---- control nets ----

/// The points of rows, written row by row.
pub open spec fn rows_written(w: WriterView, numbers: Map<u64, String>, rows: Seq<Vec<Point>>) -> WriterView
    decreases rows.len(),
{
    if rows.len() == 0 {
        w
    } else {
        rows_written(w, numbers, rows.drop_last()).carts(numbers, rows.last()@)
    }
}

/// The numbers of those points, one list for each row.
pub open spec fn row_lists(w: WriterView, numbers: Map<u64, String>, rows: Seq<Vec<Point>>) -> Seq<char>
    decreases rows.len(),
{
    if rows.len() == 0 {
        Seq::empty()
    } else {
        let before = rows_written(w, numbers, rows.drop_last());
        (if rows.len() > 1 {
            row_lists(w, numbers, rows.drop_last()) + ","@
        } else {
            Seq::empty()
        }) + ref_list(before.cart_ids(numbers, rows.last()@))
    }
}

/// Weights, one list for each row.
pub open spec fn weight_lists(numbers: Map<u64, String>, rows: Seq<Vec<u64>>) -> Seq<char>
    decreases rows.len(),
{
    if rows.len() == 0 {
        Seq::empty()
    } else {
        (if rows.len() > 1 {
            weight_lists(numbers, rows.drop_last()) + ","@
        } else {
            Seq::empty()
        }) + real_list(numbers, rows.last()@)
    }
}

/// Write the points of rows; the lists of their numbers.
fn write_rows(w: &mut Writer, numbers: &HashMap<u64, String>, rows: &Vec<Vec<Point>>) -> (r: String)
    ensures
        final(w)@ == rows_written(old(w)@, numbers@, rows@),
        r@ == row_lists(old(w)@, numbers@, rows@),
{
    let ghost start = w@;
    let mut s = String::new();
    let mut i: usize = 0;
    assert(s@ =~= row_lists(start, numbers@, rows@.take(0)));
    while i < rows.len()
        invariant
            i <= rows@.len(),
            w@ == rows_written(start, numbers@, rows@.take(i as int)),
            s@ == row_lists(start, numbers@, rows@.take(i as int)),
        decreases rows@.len() - i,
    {
        assert(rows@.take(i + 1).drop_last() =~= rows@.take(i as int));
        assert(rows@.take(i + 1).last() == rows@[i as int]);
        let ids = w.carts(numbers, rows[i].as_slice());
        if i > 0 {
            s.append(",");
        }
        s.append(list_u32(ids.as_slice()).as_str());
        assert(s@ =~= row_lists(start, numbers@, rows@.take(i + 1)));
        i += 1;
    }
    assert(rows@.take(i as int) =~= rows@);
    s
}

/// The lists of weights.
fn list_weights(numbers: &HashMap<u64, String>, rows: &Vec<Vec<u64>>) -> (r: String)
    ensures
        r@ == weight_lists(numbers@, rows@),
{
    let mut s = String::new();
    let mut i: usize = 0;
    assert(s@ =~= weight_lists(numbers@, rows@.take(0)));
    while i < rows.len()
        invariant
            i <= rows@.len(),
            s@ == weight_lists(numbers@, rows@.take(i as int)),
        decreases rows@.len() - i,
    {
        assert(rows@.take(i + 1).drop_last() =~= rows@.take(i as int));
        assert(rows@.take(i + 1).last() == rows@[i as int]);
        if i > 0 {
            s.append(",");
        }
        s.append(list_f(numbers, rows[i].as_slice()).as_str());
        assert(s@ =~= weight_lists(numbers@, rows@.take(i + 1)));
        i += 1;
    }
    assert(rows@.take(i as int) =~= rows@);
    s
}

/// The multiplicities and the knots in both directions.
pub open spec fn knot_lists(
    numbers: Map<u64, String>,
    um: Seq<usize>,
    vm: Seq<usize>,
    uk: Seq<u64>,
    vk: Seq<u64>,
) -> Seq<char> {
    int_list(um) + ","@ + int_list(vm) + ","@ + real_list(numbers, uk) + ","@ + real_list(
        numbers,
        vk,
    )
}

fn list_knots(
    numbers: &HashMap<u64, String>,
    um: &Vec<usize>,
    vm: &Vec<usize>,
    uk: &Vec<u64>,
    vk: &Vec<u64>,
) -> (r: String)
    ensures
        r@ == knot_lists(numbers@, um@, vm@, uk@, vk@),
{
    let mut s = list_i(um.as_slice());
    s.append(",");
    s.append(list_i(vm.as_slice()).as_str());
    s.append(",");
    s.append(list_f(numbers, uk.as_slice()).as_str());
    s.append(",");
    s.append(list_f(numbers, vk.as_slice()).as_str());
    s
}

/// The surface with a control net and no weights.
pub open spec fn plain_net(
    u_degree: usize,
    v_degree: usize,
    net: Seq<char>,
    knots: Seq<char>,
) -> Seq<char> {
    "B_SPLINE_SURFACE_WITH_KNOTS('',"@ + crate::text::decimal(u_degree as nat) + ","@
        + crate::text::decimal(v_degree as nat) + ",("@ + net + "),.UNSPECIFIED.,.F.,.F.,.F.,"@
        + knots + ",.UNSPECIFIED.)"@
}

fn plain_net_text(u_degree: usize, v_degree: usize, net: &str, knots: &str) -> (r: String)
    ensures
        r@ == plain_net(u_degree, v_degree, net@, knots@),
{
    let mut s = "B_SPLINE_SURFACE_WITH_KNOTS('',".to_owned();
    push_decimal(&mut s, u_degree as u64);
    s.append(",");
    push_decimal(&mut s, v_degree as u64);
    s.append(",(");
    s.append(net);
    s.append("),.UNSPECIFIED.,.F.,.F.,.F.,");
    s.append(knots);
    s.append(",.UNSPECIFIED.)");
    s
}

/// The surface with a control net and weights.
pub open spec fn weighted_net(
    u_degree: usize,
    v_degree: usize,
    net: Seq<char>,
    knots: Seq<char>,
    weights: Seq<char>,
) -> Seq<char> {
    "(BOUNDED_SURFACE()B_SPLINE_SURFACE("@ + crate::text::decimal(u_degree as nat) + ","@
        + crate::text::decimal(v_degree as nat) + ",("@ + net
        + "),.UNSPECIFIED.,.F.,.F.,.F.)B_SPLINE_SURFACE_WITH_KNOTS("@ + knots
        + ",.UNSPECIFIED.)GEOMETRIC_REPRESENTATION_ITEM()RATIONAL_B_SPLINE_SURFACE(("@ + weights
        + "))REPRESENTATION_ITEM('')SURFACE())"@
}

fn weighted_net_text(
    u_degree: usize,
    v_degree: usize,
    net: &str,
    knots: &str,
    weights: &str,
) -> (r: String)
    ensures
        r@ == weighted_net(u_degree, v_degree, net@, knots@, weights@),
{
    let mut s = "(BOUNDED_SURFACE()B_SPLINE_SURFACE(".to_owned();
    push_decimal(&mut s, u_degree as u64);
    s.append(",");
    push_decimal(&mut s, v_degree as u64);
    s.append(",(");
    s.append(net);
    s.append("),.UNSPECIFIED.,.F.,.F.,.F.)B_SPLINE_SURFACE_WITH_KNOTS(");
    s.append(knots);
    s.append(",.UNSPECIFIED.)GEOMETRIC_REPRESENTATION_ITEM()RATIONAL_B_SPLINE_SURFACE((");
    s.append(weights);
    s.append("))REPRESENTATION_ITEM('')SURFACE())");
    s
}

/// The exact NURBS surface, rational or not.
pub open spec fn net_written(w: WriterView, numbers: Map<u64, String>, net: Net) -> (
    WriterView,
    bool,
) {
    let after = rows_written(w, numbers, net.rows@);
    if !net.complete {
        (after, false)
    } else {
        let lists = row_lists(w, numbers, net.rows@);
        let knots = knot_lists(numbers, net.u_mults@, net.v_mults@, net.u_knots@, net.v_knots@);
        (
            after.entity(
                if net.rational {
                    weighted_net(
                        net.u_degree,
                        net.v_degree,
                        lists,
                        knots,
                        weight_lists(numbers, net.weights@),
                    )
                } else {
                    plain_net(net.u_degree, net.v_degree, lists, knots)
                },
            ),
            true,
        )
    }
}

pub fn nurbs_surface(w: &mut Writer, numbers: &HashMap<u64, String>, net: &Net) -> (r: Option<u64>)
    ensures
        (final(w)@, r.is_some()) == net_written(old(w)@, numbers@, *net),
        r matches Some(id) ==> id == final(w)@.n,
{
    let lists = write_rows(w, numbers, &net.rows);
    if !net.complete {
        return None;
    }
    let knots = list_knots(numbers, &net.u_mults, &net.v_mults, &net.u_knots, &net.v_knots);
    let s: String = if net.rational {
        let weights = list_weights(numbers, &net.weights);
        weighted_net_text(
            net.u_degree,
            net.v_degree,
            lists.as_str(),
            knots.as_str(),
            weights.as_str(),
        )
    } else {
        plain_net_text(net.u_degree, net.v_degree, lists.as_str(), knots.as_str())
    };
    Some(w.add(s.as_str()))
}

/// How many steps a sampled surface has in either direction.
pub const GRID_U: usize = 24;

pub const GRID_V: usize = 8;

/// The numbers from zero on.
pub open spec fn counting(n: nat) -> Seq<u64> {
    Seq::new(n, |i: int| of_int(i))
}

fn count_up(n: usize) -> (r: Vec<u64>)
    requires
        n <= i32::MAX,
    ensures
        r@ == counting(n as nat),
{
    let mut out: Vec<u64> = Vec::new();
    let mut i: usize = 0;
    while i < n
        invariant
            i <= n <= i32::MAX,
            out@ == counting(n as nat).take(i as int),
        decreases n - i,
    {
        out.push(from_int(i as i32));
        assert(out@ =~= counting(n as nat).take(i + 1));
        i += 1;
    }
    assert(out@ =~= counting(n as nat));
    out
}

/// A surface no STEP type fits: a degree-1 grid over the region that the
/// boundary of the face occupies.
pub open spec fn grid_written(
    w: WriterView,
    numbers: Map<u64, String>,
    rows: Seq<Vec<Point>>,
) -> WriterView {
    rows_written(w, numbers, rows).entity(
        plain_net(
            1,
            1,
            row_lists(w, numbers, rows),
            knot_lists(
                numbers,
                end_mults((GRID_U + 1) as nat),
                end_mults((GRID_V + 1) as nat),
                counting((GRID_U + 1) as nat),
                counting((GRID_V + 1) as nat),
            ),
        ),
    )
}

pub fn sampled_surface(
    w: &mut Writer,
    numbers: &HashMap<u64, String>,
    rows: &Vec<Vec<Point>>,
) -> (id: u64)
    ensures
        final(w)@ == grid_written(old(w)@, numbers@, rows@),
        id == final(w)@.n,
{
    let lists = write_rows(w, numbers, rows);
    let knots = list_knots(
        numbers,
        &clamped(GRID_U + 1),
        &clamped(GRID_V + 1),
        &count_up(GRID_U + 1),
        &count_up(GRID_V + 1),
    );
    let s = plain_net_text(1, 1, lists.as_str(), knots.as_str());
    w.add(s.as_str())
}

// ---- surfaces ----

/// A surface placed by a point, an axis and a reference direction.
pub open spec fn placed(
    w: WriterView,
    numbers: Map<u64, String>,
    origin: Seq<u64>,
    axis: Seq<u64>,
    x: Seq<u64>,
    name: Seq<char>,
    sizes: Seq<char>,
) -> WriterView {
    let ax = w.ax2(numbers, origin, axis, x);
    ax.entity(name + "('',"@ + refer(ax.n) + sizes + ")"@)
}

fn write_placed(
    w: &mut Writer,
    numbers: &HashMap<u64, String>,
    origin: Point,
    axis: Point,
    x: Point,
    name: &str,
    sizes: &str,
) -> (id: u64)
    ensures
        final(w)@ == placed(old(w)@, numbers@, origin@, axis@, x@, name@, sizes@),
        id == final(w)@.n,
{
    let ax: u64 = w.ax2(numbers, origin, axis, x);
    let mut s = String::new();
    s.append(name);
    s.append("('',");
    push_ref(&mut s, ax);
    s.append(sizes);
    s.append(")");
    assert(s@ =~= name@ + "('',"@ + refer(ax) + sizes@ + ")"@);
    w.add(s.as_str())
}

/// A size.
pub open spec fn size(numbers: Map<u64, String>, bits: u64) -> Seq<char> {
    ","@ + real_text(numbers, bits)
}

fn size_text(numbers: &HashMap<u64, String>, bits: u64) -> (r: String)
    ensures
        r@ == size(numbers@, bits),
{
    let mut s = String::new();
    push_next(&mut s, numbers, bits);
    s
}

pub open spec fn plane_written(w: WriterView, numbers: Map<u64, String>, node: NodeView) -> (
    WriterView,
    bool,
) {
    match (place_in(node, "pvec"@), place_in(node, "normal"@), place_in(node, "x_axis"@)) {
        (Some(p), Some(n), Some(x)) => (
            placed(w, numbers, p, n, x, "PLANE"@, Seq::empty()),
            true,
        ),
        _ => (w, false),
    }
}

fn write_plane(w: &mut Writer, numbers: &HashMap<u64, String>, node: &Node) -> (r: Option<u64>)
    ensures
        (final(w)@, r.is_some()) == plane_written(old(w)@, numbers@, node@),
        r matches Some(id) ==> id == final(w)@.n,
{
    match (node.vec3("pvec"), node.vec3("normal"), node.vec3("x_axis")) {
        (Some(p), Some(n), Some(x)) => {
            let none = String::new();
            assert(none@ =~= Seq::<char>::empty());
            Some(write_placed(w, numbers, p, n, x, "PLANE", none.as_str()))
        },
        _ => None,
    }
}

pub open spec fn cylinder_written(w: WriterView, numbers: Map<u64, String>, node: NodeView) -> (
    WriterView,
    bool,
) {
    match (
        place_in(node, "pvec"@),
        place_in(node, "axis"@),
        place_in(node, "x_axis"@),
        number_in(node, "radius"@),
    ) {
        (Some(p), Some(a), Some(x), Some(r)) => (
            placed(w, numbers, p, a, x, "CYLINDRICAL_SURFACE"@, size(numbers, r)),
            true,
        ),
        _ => (w, false),
    }
}

fn write_cylinder(w: &mut Writer, numbers: &HashMap<u64, String>, node: &Node) -> (r: Option<u64>)
    ensures
        (final(w)@, r.is_some()) == cylinder_written(old(w)@, numbers@, node@),
        r matches Some(id) ==> id == final(w)@.n,
{
    match (node.vec3("pvec"), node.vec3("axis"), node.vec3("x_axis"), node.f64_bits("radius")) {
        (Some(p), Some(a), Some(x), Some(rad)) => {
            let sizes = size_text(numbers, rad);
            Some(write_placed(w, numbers, p, a, x, "CYLINDRICAL_SURFACE", sizes.as_str()))
        },
        _ => None,
    }
}

/// A cone. The radius of STEP's grows along its axis; where that of the file
/// shrinks, the axis is presented the other way round.
pub open spec fn cone_written(
    w: WriterView,
    numbers: Map<u64, String>,
    angles: Map<NodeId, u64>,
    node: NodeView,
) -> (WriterView, bool) {
    match (
        place_in(node, "pvec"@),
        place_in(node, "axis"@),
        place_in(node, "x_axis"@),
        number_in(node, "radius"@),
        number_in(node, "sin_half_angle"@),
        number_in(node, "cos_half_angle"@),
    ) {
        (Some(p), Some(a), Some(x), Some(r), Some(_), Some(cos)) => if rank(cos) == 0
            || !angles.contains_key(node.id) {
            (w, false)
        } else {
            let angle = angles[node.id];
            if below(angle, 0) {
                (
                    placed(
                        w,
                        numbers,
                        p,
                        a.map_values(|v: u64| negated(v)),
                        x,
                        "CONICAL_SURFACE"@,
                        size(numbers, r) + size(numbers, negated(angle)),
                    ),
                    true,
                )
            } else {
                (
                    placed(
                        w,
                        numbers,
                        p,
                        a,
                        x,
                        "CONICAL_SURFACE"@,
                        size(numbers, r) + size(numbers, angle),
                    ),
                    true,
                )
            }
        },
        _ => (w, false),
    }
}

fn write_cone(
    w: &mut Writer,
    numbers: &HashMap<u64, String>,
    angles: &HashMap<NodeId, u64>,
    node: &Node,
) -> (r: Option<u64>)
    ensures
        (final(w)@, r.is_some()) == cone_written(old(w)@, numbers@, angles@, node@),
        r matches Some(id) ==> id == final(w)@.n,
{
    match (
        node.vec3("pvec"),
        node.vec3("axis"),
        node.vec3("x_axis"),
        node.f64_bits("radius"),
        node.f64_bits("sin_half_angle"),
        node.f64_bits("cos_half_angle"),
    ) {
        (Some(p), Some(a), Some(x), Some(rad), Some(_), Some(cos)) => {
            if cos == 0 || cos == SIGN_BIT {
                return None;
            }
            match angles.get(&node.id) {
                None => None,
                Some(angle) => {
                    let mut sizes = size_text(numbers, rad);
                    if is_less(*angle, 0) {
                        sizes.append(size_text(numbers, negate(*angle)).as_str());
                        let b: Point = [negate(a[0]), negate(a[1]), negate(a[2])];
                        assert(b@ =~= a@.map_values(|v: u64| negated(v)));
                        Some(write_placed(w, numbers, p, b, x, "CONICAL_SURFACE", sizes.as_str()))
                    } else {
                        sizes.append(size_text(numbers, *angle).as_str());
                        Some(write_placed(w, numbers, p, a, x, "CONICAL_SURFACE", sizes.as_str()))
                    }
                },
            }
        },
        _ => None,
    }
}

pub open spec fn sphere_written(w: WriterView, numbers: Map<u64, String>, node: NodeView) -> (
    WriterView,
    bool,
) {
    match (
        place_in(node, "centre"@),
        place_in(node, "axis"@),
        place_in(node, "x_axis"@),
        number_in(node, "radius"@),
    ) {
        (Some(c), Some(a), Some(x), Some(r)) => (
            placed(w, numbers, c, a, x, "SPHERICAL_SURFACE"@, size(numbers, r)),
            true,
        ),
        _ => (w, false),
    }
}

fn write_sphere(w: &mut Writer, numbers: &HashMap<u64, String>, node: &Node) -> (r: Option<u64>)
    ensures
        (final(w)@, r.is_some()) == sphere_written(old(w)@, numbers@, node@),
        r matches Some(id) ==> id == final(w)@.n,
{
    match (node.vec3("centre"), node.vec3("axis"), node.vec3("x_axis"), node.f64_bits("radius")) {
        (Some(c), Some(a), Some(x), Some(rad)) => {
            let sizes = size_text(numbers, rad);
            Some(write_placed(w, numbers, c, a, x, "SPHERICAL_SURFACE", sizes.as_str()))
        },
        _ => None,
    }
}

pub open spec fn torus_written(w: WriterView, numbers: Map<u64, String>, node: NodeView) -> (
    WriterView,
    bool,
) {
    match (
        place_in(node, "centre"@),
        place_in(node, "axis"@),
        place_in(node, "x_axis"@),
        number_in(node, "major_radius"@),
        number_in(node, "minor_radius"@),
    ) {
        (Some(c), Some(a), Some(x), Some(r1), Some(r2)) => (
            placed(
                w,
                numbers,
                c,
                a,
                x,
                "TOROIDAL_SURFACE"@,
                size(numbers, r1) + size(numbers, r2),
            ),
            true,
        ),
        _ => (w, false),
    }
}

fn write_torus(w: &mut Writer, numbers: &HashMap<u64, String>, node: &Node) -> (r: Option<u64>)
    ensures
        (final(w)@, r.is_some()) == torus_written(old(w)@, numbers@, node@),
        r matches Some(id) ==> id == final(w)@.n,
{
    match (
        node.vec3("centre"),
        node.vec3("axis"),
        node.vec3("x_axis"),
        node.f64_bits("major_radius"),
        node.f64_bits("minor_radius"),
    ) {
        (Some(c), Some(a), Some(x), Some(r1), Some(r2)) => {
            let mut sizes = size_text(numbers, r1);
            sizes.append(size_text(numbers, r2).as_str());
            Some(write_placed(w, numbers, c, a, x, "TOROIDAL_SURFACE", sizes.as_str()))
        },
        _ => None,
    }
}

pub open spec fn swept_written(w: WriterView, shapes: Shapes, g: GraphView, node: NodeView) -> (
    WriterView,
    bool,
) {
    match (g.follow(node, "section"@), place_in(node, "sweep"@)) {
        (Some(section), Some(d)) => {
            let (c, ok) = curve_written(w, shapes, section);
            if !ok {
                (c, false)
            } else {
                let dd = c.dir(shapes.numbers@, d);
                let v = dd.entity("VECTOR('',"@ + refer(dd.n) + ",1.0)"@);
                (
                    v.entity(
                        "SURFACE_OF_LINEAR_EXTRUSION('',"@ + refer(c.n) + ","@ + refer(v.n) + ")"@,
                    ),
                    true,
                )
            }
        },
        _ => (w, false),
    }
}

fn write_swept(w: &mut Writer, shapes: &Shapes, graph: &Graph, node: &Node) -> (r: Option<u64>)
    ensures
        (final(w)@, r.is_some()) == swept_written(old(w)@, *shapes, graph@, node@),
        r matches Some(id) ==> id == final(w)@.n,
{
    match (graph.deref(node, "section"), node.vec3("sweep")) {
        (Some(section), Some(d)) => match curve_entity(w, shapes, section) {
            None => None,
            Some(c) => {
                let dd: u64 = w.dir(&shapes.numbers, d);
                let mut s = "VECTOR('',".to_owned();
                push_ref(&mut s, dd);
                s.append(",1.0)");
                let v: u64 = w.add(s.as_str());
                let mut t = "SURFACE_OF_LINEAR_EXTRUSION('',".to_owned();
                push_ref(&mut t, c);
                t.append(",");
                push_ref(&mut t, v);
                t.append(")");
                Some(w.add(t.as_str()))
            },
        },
        _ => None,
    }
}

/// The point that a surface of revolution is placed by: both spellings occur.
pub open spec fn spin_base(node: NodeView) -> Option<Seq<u64>> {
    match place_in(node, "base"@) {
        Some(p) => Some(p),
        None => place_in(node, "pvec"@),
    }
}

pub open spec fn spun_written(w: WriterView, shapes: Shapes, g: GraphView, node: NodeView) -> (
    WriterView,
    bool,
) {
    match (g.follow(node, "profile"@), spin_base(node), place_in(node, "axis"@)) {
        (Some(profile), Some(p), Some(a)) => {
            let (curve, ok) = curve_written(w, shapes, profile);
            if !ok {
                (curve, false)
            } else {
                let c = curve.cart(shapes.numbers@, p);
                let dz = c.dir(shapes.numbers@, a);
                let ax = dz.entity("AXIS1_PLACEMENT('',"@ + refer(c.n) + ","@ + refer(dz.n) + ")"@);
                (
                    ax.entity(
                        "SURFACE_OF_REVOLUTION('',"@ + refer(curve.n) + ","@ + refer(ax.n) + ")"@,
                    ),
                    true,
                )
            }
        },
        _ => (w, false),
    }
}

fn write_spun(w: &mut Writer, shapes: &Shapes, graph: &Graph, node: &Node) -> (r: Option<u64>)
    ensures
        (final(w)@, r.is_some()) == spun_written(old(w)@, *shapes, graph@, node@),
        r matches Some(id) ==> id == final(w)@.n,
{
    let base: Option<Point> = match node.vec3("base") {
        Some(p) => Some(p),
        None => node.vec3("pvec"),
    };
    match (graph.deref(node, "profile"), base, node.vec3("axis")) {
        (Some(profile), Some(p), Some(a)) => match curve_entity(w, shapes, profile) {
            None => None,
            Some(curve) => {
                let c: u64 = w.cart(&shapes.numbers, p);
                let dz: u64 = w.dir(&shapes.numbers, a);
                let mut s = "AXIS1_PLACEMENT('',".to_owned();
                push_ref(&mut s, c);
                s.append(",");
                push_ref(&mut s, dz);
                s.append(")");
                let ax: u64 = w.add(s.as_str());
                let mut t = "SURFACE_OF_REVOLUTION('',".to_owned();
                push_ref(&mut t, curve);
                t.append(",");
                push_ref(&mut t, ax);
                t.append(")");
                Some(w.add(t.as_str()))
            },
        },
        _ => None,
    }
}

/// A surface that does not hang from another, exact where possible.
pub open spec fn base_written(
    w: WriterView,
    shapes: Shapes,
    g: GraphView,
    face: NodeId,
    node: NodeView,
) -> (WriterView, bool) {
    let numbers = shapes.numbers@;
    if node.name == "PLANE"@ {
        plane_written(w, numbers, node)
    } else if node.name == "CYLINDER"@ {
        cylinder_written(w, numbers, node)
    } else if node.name == "CONE"@ {
        cone_written(w, numbers, shapes.angles@, node)
    } else if node.name == "SPHERE"@ {
        sphere_written(w, numbers, node)
    } else if node.name == "TORUS"@ {
        torus_written(w, numbers, node)
    } else if node.name == "SWEPT_SURF"@ {
        swept_written(w, shapes, g, node)
    } else if node.name == "SPUN_SURF"@ {
        spun_written(w, shapes, g, node)
    } else if node.name == "B_SURFACE"@ {
        if shapes.nets@.contains_key(node.id) {
            net_written(w, numbers, shapes.nets@[node.id])
        } else {
            (w, false)
        }
    } else if shapes.grids@.contains_key(face) {
        (grid_written(w, numbers, shapes.grids@[face]@), true)
    } else {
        (w, false)
    }
}

fn base_entity(w: &mut Writer, shapes: &Shapes, graph: &Graph, face: NodeId, node: &Node) -> (r:
    Option<u64>)
    ensures
        (final(w)@, r.is_some()) == base_written(old(w)@, *shapes, graph@, face, node@),
        r matches Some(id) ==> id == final(w)@.n,
{
    let numbers = &shapes.numbers;
    let name = node.name.as_str();
    if same_text(name, "PLANE") {
        write_plane(w, numbers, node)
    } else if same_text(name, "CYLINDER") {
        write_cylinder(w, numbers, node)
    } else if same_text(name, "CONE") {
        write_cone(w, numbers, &shapes.angles, node)
    } else if same_text(name, "SPHERE") {
        write_sphere(w, numbers, node)
    } else if same_text(name, "TORUS") {
        write_torus(w, numbers, node)
    } else if same_text(name, "SWEPT_SURF") {
        write_swept(w, shapes, graph, node)
    } else if same_text(name, "SPUN_SURF") {
        write_spun(w, shapes, graph, node)
    } else if same_text(name, "B_SURFACE") {
        match shapes.nets.get(&node.id) {
            Some(net) => nurbs_surface(w, numbers, net),
            None => None,
        }
    } else {
        match shapes.grids.get(&face) {
            Some(rows) => Some(sampled_surface(w, numbers, rows)),
            None => None,
        }
    }
}

/// How far an offset surface lies from the one that it hangs from.
pub open spec fn offset_of(node: NodeView) -> Option<u64> {
    match number_in(node, "offset"@) {
        Some(o) => Some(
            if node.positive() {
                o
            } else {
                negated(o)
            },
        ),
        None => None,
    }
}

/// The offset surface of one that was written.
pub open spec fn offset_written(
    base: (WriterView, bool),
    numbers: Map<u64, String>,
    offset: u64,
) -> (WriterView, bool) {
    if base.1 {
        (
            base.0.entity(
                "OFFSET_SURFACE('',"@ + refer(base.0.n) + size(numbers, offset) + ",.F.)"@,
            ),
            true,
        )
    } else {
        base
    }
}

/// No chain of offset surfaces is longer than there are nodes.
pub const MAX_OFFSETS: usize = 65536;

/// One surface for a face, exact where possible. An offset surface hangs from
/// another, at most `depth` deep.
pub open spec fn surface_written(
    w: WriterView,
    shapes: Shapes,
    g: GraphView,
    face: NodeId,
    node: NodeView,
    depth: nat,
) -> (WriterView, bool)
    decreases depth,
{
    if node.name == "OFFSET_SURF"@ {
        match (g.follow(node, "surface"@), offset_of(node)) {
            (Some(base), Some(o)) => if depth == 0 {
                (w, false)
            } else {
                offset_written(
                    surface_written(w, shapes, g, face, base, (depth - 1) as nat),
                    shapes.numbers@,
                    o,
                )
            },
            _ => (w, false),
        }
    } else {
        base_written(w, shapes, g, face, node)
    }
}

/// Offset surfaces over one that was written, the last of them first.
pub open spec fn offsets_written(
    base: (WriterView, bool),
    numbers: Map<u64, String>,
    offsets: Seq<u64>,
) -> (WriterView, bool)
    decreases offsets.len(),
{
    if offsets.len() == 0 {
        base
    } else {
        offsets_written(
            offset_written(base, numbers, offsets.last()),
            numbers,
            offsets.drop_last(),
        )
    }
}

/// Nothing hangs from a surface that was not written.
proof fn lemma_no_base(w: WriterView, numbers: Map<u64, String>, offsets: Seq<u64>)
    ensures
        offsets_written((w, false), numbers, offsets) == (w, false),
    decreases offsets.len(),
{
    if offsets.len() > 0 {
        lemma_no_base(w, numbers, offsets.drop_last());
    }
}

pub fn surface_entity(
    w: &mut Writer,
    shapes: &Shapes,
    graph: &Graph,
    face: NodeId,
    node: &Node,
) -> (r: Option<u64>)
    ensures
        (final(w)@, r.is_some()) == surface_written(
            old(w)@,
            *shapes,
            graph@,
            face,
            node@,
            MAX_OFFSETS as nat,
        ),
        r matches Some(id) ==> id == final(w)@.n,
{
    let numbers = &shapes.numbers;
    let ghost start = w@;
    let ghost g = graph@;
    let ghost whole = surface_written(start, *shapes, g, face, node@, MAX_OFFSETS as nat);
    let mut offsets: Vec<u64> = Vec::new();
    let mut at: &Node = node;
    let mut depth: usize = MAX_OFFSETS;
    while same_text(at.name.as_str(), "OFFSET_SURF")
        invariant
            w@ == start,
            start == old(w)@,
            g == graph@,
            numbers@ == shapes.numbers@,
            whole == surface_written(start, *shapes, g, face, node@, MAX_OFFSETS as nat),
            whole == offsets_written(
                surface_written(start, *shapes, g, face, at@, depth as nat),
                numbers@,
                offsets@,
            ),
        ensures
            at@.name != "OFFSET_SURF"@,
        decreases depth,
    {
        let ghost before = at@;
        let base: &Node = match graph.deref(at, "surface") {
            Some(n) => n,
            None => {
                proof {
                    lemma_no_base(start, numbers@, offsets@);
                }
                return None;
            },
        };
        let o: u64 = match at.f64_bits("offset") {
            Some(o) => if at.sense_positive() {
                o
            } else {
                negate(o)
            },
            None => {
                proof {
                    lemma_no_base(start, numbers@, offsets@);
                }
                return None;
            },
        };
        if depth == 0 {
            proof {
                lemma_no_base(start, numbers@, offsets@);
            }
            return None;
        }
        let ghost prior = offsets@;
        offsets.push(o);
        assert(offsets@.drop_last() =~= prior);
        at = base;
        depth -= 1;
    }
    let mut found: Option<u64> = base_entity(w, shapes, graph, face, at);
    let mut k: usize = offsets.len();
    assert(offsets@.take(k as int) =~= offsets@);
    while k > 0
        invariant
            k <= offsets@.len(),
            numbers@ == shapes.numbers@,
            found matches Some(id) ==> id == w@.n,
            whole == offsets_written((w@, found.is_some()), numbers@, offsets@.take(k as int)),
        decreases k,
    {
        k -= 1;
        assert(offsets@.take(k + 1).drop_last() =~= offsets@.take(k as int));
        assert(offsets@.take(k + 1).last() == offsets@[k as int]);
        if let Some(b) = found {
            let mut s = "OFFSET_SURFACE('',".to_owned();
            push_ref(&mut s, b);
            s.append(size_text(numbers, offsets[k]).as_str());
            s.append(",.F.)");
            assert(s@ =~= "OFFSET_SURFACE('',"@ + refer(b) + size(numbers@, offsets@[k as int])
                + ",.F.)"@);
            found = Some(w.add(s.as_str()));
        }
    }
    found
}

// ---- what a surface needs ----

/// What has to be worked out before a surface can be written.
pub enum Need<'a> {
    /// The file states all of it.
    Nothing,
    /// The half angle of a cone.
    Angle(&'a Node),
    /// Samples of a curve that no STEP type fits.
    Samples(&'a Node),
    /// A control net.
    Net(&'a Node),
    /// Points of a surface that no STEP type fits.
    Grid(&'a Node),
}

/// The contents of a need.
#[verifier::ext_equal]
pub enum NeedView {
    Nothing,
    Angle(NodeView),
    Samples(NodeView),
    Net(NodeView),
    Grid(NodeView),
}

impl<'a> View for Need<'a> {
    type V = NeedView;

    open spec fn view(&self) -> NeedView {
        match *self {
            Need::Nothing => NeedView::Nothing,
            Need::Angle(n) => NeedView::Angle(n@),
            Need::Samples(n) => NeedView::Samples(n@),
            Need::Net(n) => NeedView::Net(n@),
            Need::Grid(n) => NeedView::Grid(n@),
        }
    }
}

/// What a curve needs.
pub open spec fn curve_need(curve: Option<NodeView>) -> NeedView {
    match curve {
        Some(c) => if c.name == "LINE"@ || c.name == "CIRCLE"@ || c.name == "ELLIPSE"@ {
            NeedView::Nothing
        } else {
            NeedView::Samples(c)
        },
        None => NeedView::Nothing,
    }
}

/// What a surface that does not hang from another needs.
pub open spec fn base_need(g: GraphView, node: NodeView) -> NeedView {
    if node.name == "PLANE"@ || node.name == "CYLINDER"@ {
        NeedView::Nothing
    } else if node.name == "CONE"@ {
        NeedView::Angle(node)
    } else if node.name == "SPHERE"@ || node.name == "TORUS"@ {
        NeedView::Nothing
    } else if node.name == "SWEPT_SURF"@ {
        curve_need(g.follow(node, "section"@))
    } else if node.name == "SPUN_SURF"@ {
        curve_need(g.follow(node, "profile"@))
    } else if node.name == "B_SURFACE"@ {
        NeedView::Net(node)
    } else {
        NeedView::Grid(node)
    }
}

/// What a surface needs: what the one needs that it hangs from.
pub open spec fn surface_need(g: GraphView, node: NodeView, depth: nat) -> NeedView
    decreases depth,
{
    if node.name == "OFFSET_SURF"@ {
        match g.follow(node, "surface"@) {
            Some(base) => if depth == 0 {
                NeedView::Nothing
            } else {
                surface_need(g, base, (depth - 1) as nat)
            },
            None => NeedView::Nothing,
        }
    } else {
        base_need(g, node)
    }
}

fn needed_by_curve<'a>(curve: Option<&'a Node>) -> (r: Need<'a>)
    ensures
        r@ == curve_need(
            match curve {
                Some(c) => Some(c@),
                None => None,
            },
        ),
{
    match curve {
        Some(c) => {
            let name = c.name.as_str();
            if same_text(name, "LINE") || same_text(name, "CIRCLE") || same_text(name, "ELLIPSE") {
                Need::Nothing
            } else {
                Need::Samples(c)
            }
        },
        None => Need::Nothing,
    }
}

/// What has to be worked out before a surface can be written.
pub fn needed_by_surface<'a>(graph: &'a Graph, node: &'a Node) -> (r: Need<'a>)
    ensures
        r@ == surface_need(graph@, node@, MAX_OFFSETS as nat),
{
    let mut at: &'a Node = node;
    let mut depth: usize = MAX_OFFSETS;
    while same_text(at.name.as_str(), "OFFSET_SURF")
        invariant
            surface_need(graph@, at@, depth as nat) == surface_need(
                graph@,
                node@,
                MAX_OFFSETS as nat,
            ),
        ensures
            at@.name != "OFFSET_SURF"@,
        decreases depth,
    {
        let base: &'a Node = match graph.deref(at, "surface") {
            Some(n) => n,
            None => {
                return Need::Nothing;
            },
        };
        if depth == 0 {
            return Need::Nothing;
        }
        at = base;
        depth -= 1;
    }
    let name = at.name.as_str();
    if same_text(name, "PLANE") || same_text(name, "CYLINDER") {
        Need::Nothing
    } else if same_text(name, "CONE") {
        Need::Angle(at)
    } else if same_text(name, "SPHERE") || same_text(name, "TORUS") {
        Need::Nothing
    } else if same_text(name, "SWEPT_SURF") {
        needed_by_curve(graph.deref(at, "section"))
    } else if same_text(name, "SPUN_SURF") {
        needed_by_curve(graph.deref(at, "profile"))
    } else if same_text(name, "B_SURFACE") {
        Need::Net(at)
    } else {
        Need::Grid(at)
    }
}

/// Two sets of shapes hold the same of what is needed.
pub open spec fn agree_on(a: Shapes, b: Shapes, face: NodeId, need: NeedView) -> bool {
    match need {
        NeedView::Nothing => true,
        NeedView::Angle(n) => a.angles@.contains_key(n.id) == b.angles@.contains_key(n.id)
            && a.angles@[n.id] == b.angles@[n.id],
        NeedView::Samples(n) => a.curves@.contains_key(n.id) == b.curves@.contains_key(n.id)
            && a.curves@[n.id] == b.curves@[n.id],
        NeedView::Net(n) => a.nets@.contains_key(n.id) == b.nets@.contains_key(n.id)
            && a.nets@[n.id] == b.nets@[n.id],
        NeedView::Grid(_) => a.grids@.contains_key(face) == b.grids@.contains_key(face)
            && a.grids@[face] == b.grids@[face],
    }
}

/// What a curve needs is all that it takes.
proof fn lemma_samples_suffice(w: WriterView, a: Shapes, b: Shapes, curve: NodeView)
    requires
        a.numbers@ == b.numbers@,
        agree_on(a, b, 0, curve_need(Some(curve))),
    ensures
        curve_written(w, a, curve) == curve_written(w, b, curve),
{
}

proof fn lemma_swept_agree(w: WriterView, a: Shapes, b: Shapes, g: GraphView, node: NodeView)
    requires
        a.numbers@ == b.numbers@,
        agree_on(a, b, 0, curve_need(g.follow(node, "section"@))),
    ensures
        swept_written(w, a, g, node) == swept_written(w, b, g, node),
{
    if let Some(section) = g.follow(node, "section"@) {
        lemma_samples_suffice(w, a, b, section);
    }
}

proof fn lemma_spun_agree(w: WriterView, a: Shapes, b: Shapes, g: GraphView, node: NodeView)
    requires
        a.numbers@ == b.numbers@,
        agree_on(a, b, 0, curve_need(g.follow(node, "profile"@))),
    ensures
        spun_written(w, a, g, node) == spun_written(w, b, g, node),
{
    if let Some(profile) = g.follow(node, "profile"@) {
        lemma_samples_suffice(w, a, b, profile);
    }
}

proof fn lemma_cone_agree(
    w: WriterView,
    numbers: Map<u64, String>,
    a: Map<NodeId, u64>,
    b: Map<NodeId, u64>,
    node: NodeView,
)
    requires
        a.contains_key(node.id) == b.contains_key(node.id),
        a[node.id] == b[node.id],
    ensures
        cone_written(w, numbers, a, node) == cone_written(w, numbers, b, node),
{
}

proof fn lemma_bases_agree(
    w: WriterView,
    a: Shapes,
    b: Shapes,
    g: GraphView,
    face: NodeId,
    node: NodeView,
)
    requires
        a.numbers@ == b.numbers@,
        agree_on(a, b, face, base_need(g, node)),
    ensures
        base_written(w, a, g, face, node) == base_written(w, b, g, face, node),
{
    let need = base_need(g, node);
    if node.name == "PLANE"@ || node.name == "CYLINDER"@ {
    } else if node.name == "CONE"@ {
        assert(need == NeedView::Angle(node));
        lemma_cone_agree(w, a.numbers@, a.angles@, b.angles@, node);
    } else if node.name == "SPHERE"@ || node.name == "TORUS"@ {
    } else if node.name == "SWEPT_SURF"@ {
        assert(agree_on(a, b, 0, need));
        lemma_swept_agree(w, a, b, g, node);
    } else if node.name == "SPUN_SURF"@ {
        assert(agree_on(a, b, 0, need));
        lemma_spun_agree(w, a, b, g, node);
    } else if node.name == "B_SURFACE"@ {
        assert(need == NeedView::Net(node));
    } else {
        assert(need == NeedView::Grid(node));
    }
}

/// What a surface needs is all that it takes: nothing else among the shapes
/// changes what is written of it.
pub proof fn lemma_needs_suffice(
    w: WriterView,
    a: Shapes,
    b: Shapes,
    g: GraphView,
    face: NodeId,
    node: NodeView,
    depth: nat,
)
    requires
        a.numbers@ == b.numbers@,
        agree_on(a, b, face, surface_need(g, node, depth)),
    ensures
        surface_written(w, a, g, face, node, depth) == surface_written(w, b, g, face, node, depth),
    decreases depth,
{
    if node.name == "OFFSET_SURF"@ {
        if let Some(base) = g.follow(node, "surface"@) {
            if depth > 0 {
                lemma_needs_suffice(w, a, b, g, face, base, (depth - 1) as nat);
            }
        }
    } else {
        lemma_bases_agree(w, a, b, g, face, node);
    }
}

// ---- the fields of a control net ----

/// The control net of a NURBS surface as stored.
pub struct NetFields {
    pub u_degree: usize,
    pub v_degree: usize,
    pub nu: usize,
    pub nv: usize,
    /// How many numbers a control point has.
    pub dim: usize,
    pub rational: bool,
    pub verts: Vec<u64>,
    /// Knots, each as often as it is repeated.
    pub u_knots: Vec<u64>,
    pub v_knots: Vec<u64>,
}

/// The contents of a control net as stored.
#[verifier::ext_equal]
pub struct NetFieldsView {
    pub u_degree: usize,
    pub v_degree: usize,
    pub nu: usize,
    pub nv: usize,
    pub dim: usize,
    pub rational: bool,
    pub verts: Seq<u64>,
    pub u_knots: Seq<u64>,
    pub v_knots: Seq<u64>,
}

impl View for NetFields {
    type V = NetFieldsView;

    open spec fn view(&self) -> NetFieldsView {
        NetFieldsView {
            u_degree: self.u_degree,
            v_degree: self.v_degree,
            nu: self.nu,
            nv: self.nv,
            dim: self.dim,
            rational: self.rational,
            verts: self.verts@,
            u_knots: self.u_knots@,
            v_knots: self.v_knots@,
        }
    }
}

/// The knots that two pointers lead to, by as many repeats as there are.
pub open spec fn loose_knots_at(
    g: GraphView,
    node: NodeView,
    knots: Seq<char>,
    mult: Seq<char>,
) -> Option<Seq<u64>> {
    match (reals_at(g, node, knots, "knots"@), integers_at(g, node, mult, "mult"@)) {
        (Some(k), Some(m)) => loose_knots(k, m),
        _ => None,
    }
}

fn loose_knots_of(graph: &Graph, node: &Node, knots: &str, mult: &str) -> (r: Option<Vec<u64>>)
    ensures
        same_list(r, loose_knots_at(graph@, node@, knots@, mult@)),
{
    match (reals_of(graph, node, knots, "knots"), integers_of(graph, node, mult, "mult")) {
        (Some(k), Some(m)) => expand_loosely(k.as_slice(), m.as_slice()),
        _ => None,
    }
}

/// The control net that a `B_SURFACE` leads to: it is complete, and every
/// control point has three numbers at least.
pub open spec fn net_fields_of(g: GraphView, bsurf: NodeView) -> Option<NetFieldsView> {
    match g.follow(bsurf, "nurbs"@) {
        None => None,
        Some(ns) => match (
            count_in(ns, "u_degree"@),
            count_in(ns, "v_degree"@),
            count_in(ns, "n_u_vertices"@),
            count_in(ns, "n_v_vertices"@),
            count_in(ns, "vertex_dim"@),
            reals_at(g, ns, "bspline_vertices"@, "vertices"@),
            loose_knots_at(g, ns, "u_knots"@, "u_knot_mult"@),
            loose_knots_at(g, ns, "v_knots"@, "v_knot_mult"@),
        ) {
            (
                Some(u_degree),
                Some(v_degree),
                Some(nu),
                Some(nv),
                Some(dim),
                Some(verts),
                Some(u_knots),
                Some(v_knots),
            ) => if verts.len() < nu * nv * dim || dim < 3 {
                None
            } else {
                Some(
                    NetFieldsView {
                        u_degree,
                        v_degree,
                        nu,
                        nv,
                        dim,
                        rational: flag_in(ns, "rational"@),
                        verts,
                        u_knots,
                        v_knots,
                    },
                )
            },
            _ => None,
        },
    }
}

/// Read the control net that a `B_SURFACE` leads to.
pub fn net_fields(graph: &Graph, bsurf: &Node) -> (r: Option<NetFields>)
    ensures
        match r {
            Some(f) => net_fields_of(graph@, bsurf@) == Some(f@),
            None => net_fields_of(graph@, bsurf@) is None,
        },
{
    let ns: &Node = match graph.deref(bsurf, "nurbs") {
        Some(n) => n,
        None => {
            return None;
        },
    };
    match (
        count(ns, "u_degree"),
        count(ns, "v_degree"),
        count(ns, "n_u_vertices"),
        count(ns, "n_v_vertices"),
        count(ns, "vertex_dim"),
        reals_of(graph, ns, "bspline_vertices", "vertices"),
        loose_knots_of(graph, ns, "u_knots", "u_knot_mult"),
        loose_knots_of(graph, ns, "v_knots", "v_knot_mult"),
    ) {
        (
            Some(u_degree),
            Some(v_degree),
            Some(nu),
            Some(nv),
            Some(dim),
            Some(verts),
            Some(u_knots),
            Some(v_knots),
        ) => {
            if dim < 3 || !covers(verts.len(), nu, nv, dim) {
                return None;
            }
            Some(
                NetFields {
                    u_degree,
                    v_degree,
                    nu,
                    nv,
                    dim,
                    rational: ns.bool("rational"),
                    verts,
                    u_knots,
                    v_knots,
                },
            )
        },
        _ => None,
    }
}

/// True when so many numbers are enough for `nu` times `nv` points of `dim`
/// numbers each.
fn covers(have: usize, nu: usize, nv: usize, dim: usize) -> (r: bool)
    requires
        3 <= dim,
    ensures
        r == (have >= nu * nv * dim),
{
    let ghost all = nu * nv * dim;
    assert(0 <= nu * nv) by (nonlinear_arith)
        requires
            0 <= nu,
            0 <= nv,
    ;
    assert(nu * nv <= nu * nv * dim) by (nonlinear_arith)
        requires
            0 <= nu * nv,
            3 <= dim,
    ;
    match nu.checked_mul(nv) {
        None => false,
        Some(n) => match n.checked_mul(dim) {
            None => false,
            Some(m) => have >= m,
        },
    }
}

} // verus!
