//! NURBS curves and surfaces as the graph stores them: degrees, control
//! points with their weights, and knots.

use vstd::prelude::*;

use crate::double::{is_less, nan, rank, INFINITY_BITS, SIGN_BIT};
use crate::graph::{Graph, GraphView};
use crate::value::{same_list, Node, NodeView};

verus! {

/// The bits of 1.0.
pub const ONE_BITS: u64 = 0x3ff0000000000000;

/// How often a knot can be repeated.
pub const MAX_MULT: i64 = 1_000_000;

/// How many numbers a list can hold.
pub const MAX_NUMBERS: usize = usize::MAX / 16;

/// A number that is neither infinite nor a NaN.
pub open spec fn finite(bits: u64) -> bool {
    bits % SIGN_BIT < INFINITY_BITS
}

pub fn is_finite(bits: u64) -> (r: bool)
    ensures
        r == finite(bits),
{
    bits % SIGN_BIT < INFINITY_BITS
}

/// One number is at most another; a NaN is at most none.
pub open spec fn at_most(a: u64, b: u64) -> bool {
    !nan(a) && !nan(b) && rank(a) <= rank(b)
}

fn is_at_most(a: u64, b: u64) -> (r: bool)
    ensures
        r == at_most(a, b),
{
    a % SIGN_BIT <= INFINITY_BITS && b % SIGN_BIT <= INFINITY_BITS && !is_less(b, a)
}

// ---- knots ----

/// A number, repeated.
pub open spec fn repeated(x: u64, n: int) -> Seq<u64> {
    Seq::new(
        (if n > 0 {
            n
        } else {
            0
        }) as nat,
        |i: int| x,
    )
}

/// The first `n` knots, each as often as it is repeated.
pub open spec fn expanded(knots: Seq<u64>, mult: Seq<i64>, n: int) -> Seq<u64>
    decreases n,
{
    if n <= 0 {
        Seq::empty()
    } else {
        expanded(knots, mult, n - 1) + repeated(knots[n - 1], mult[n - 1] as int)
    }
}

/// The first `n` repeats make sense.
pub open spec fn sensible(mult: Seq<i64>, n: int) -> bool {
    forall|i: int| 0 <= i < n ==> 0 <= #[trigger] mult[i] <= MAX_MULT
}

/// A knot vector expanded by its multiplicities: `None` where the two do not
/// match, a repeat makes no sense, or nothing is left.
pub open spec fn knot_vector(knots: Seq<u64>, mult: Seq<i64>) -> Option<Seq<u64>> {
    if knots.len() != mult.len() || knots.len() == 0 || !sensible(mult, mult.len() as int) {
        None
    } else {
        let all = expanded(knots, mult, knots.len() as int);
        if all.len() == 0 {
            None
        } else {
            Some(all)
        }
    }
}

/// No repeat of the first `n` is negative.
pub open spec fn countable(mult: Seq<i64>, n: int) -> bool {
    forall|i: int| 0 <= i < n ==> 0 <= #[trigger] mult[i]
}

/// Knots expanded by as many multiplicities as there are for them; `None` where
/// a repeat is negative, or where there are more knots than a list can hold.
pub open spec fn loose_knots(knots: Seq<u64>, mult: Seq<i64>) -> Option<Seq<u64>> {
    let n = if knots.len() < mult.len() {
        knots.len() as int
    } else {
        mult.len() as int
    };
    if countable(mult, n) && sum(mult, n) <= MAX_NUMBERS {
        Some(expanded(knots, mult, n))
    } else {
        None
    }
}

/// Add a knot to a list as often as it is repeated.
fn push_repeated(out: &mut Vec<u64>, x: u64, m: i64)
    requires
        0 <= m,
    ensures
        final(out)@ == old(out)@ + repeated(x, m as int),
{
    let ghost before = out@;
    let mut k: i64 = 0;
    assert(out@ =~= before + repeated(x, 0));
    while k < m
        invariant
            0 <= k <= m,
            out@ == before + repeated(x, k as int),
        decreases m - k,
    {
        out.push(x);
        assert(out@ =~= before + repeated(x, k + 1));
        k += 1;
    }
}

/// Expand a knot vector by its multiplicities.
pub fn expand_knots(knots: &[u64], mult: &[i64]) -> (r: Option<Vec<u64>>)
    ensures
        same_list(r, knot_vector(knots@, mult@)),
{
    if knots.len() != mult.len() || knots.len() == 0 {
        return None;
    }
    let mut out: Vec<u64> = Vec::new();
    let mut i: usize = 0;
    while i < knots.len()
        invariant
            i <= knots@.len(),
            knots@.len() == mult@.len(),
            forall|k: int| 0 <= k < i ==> 0 <= #[trigger] mult@[k] <= MAX_MULT,
            out@ == expanded(knots@, mult@, i as int),
        decreases knots@.len() - i,
    {
        let m: i64 = mult[i];
        if m < 0 || m > MAX_MULT {
            assert(!sensible(mult@, mult@.len() as int));
            return None;
        }
        push_repeated(&mut out, knots[i], m);
        i += 1;
    }
    if out.len() == 0 {
        None
    } else {
        Some(out)
    }
}

/// Repeats that are not negative add up to no less than the first of them do.
proof fn lemma_sum_grows(mult: Seq<i64>, i: int, n: int)
    requires
        0 <= i <= n <= mult.len(),
        countable(mult, n),
    ensures
        sum(mult, i) <= sum(mult, n),
    decreases n,
{
    if i < n {
        lemma_sum_grows(mult, i, n - 1);
        assert(0 <= mult[n - 1]);
    }
}

/// Expand knots by as many multiplicities as there are for them.
pub fn expand_loosely(knots: &[u64], mult: &[i64]) -> (r: Option<Vec<u64>>)
    ensures
        same_list(r, loose_knots(knots@, mult@)),
{
    let n: usize = if knots.len() < mult.len() {
        knots.len()
    } else {
        mult.len()
    };
    let mut total: usize = 0;
    let mut i: usize = 0;
    while i < n
        invariant
            i <= n,
            n == (if knots@.len() < mult@.len() {
                knots@.len()
            } else {
                mult@.len()
            }),
            total <= MAX_NUMBERS,
            total == sum(mult@, i as int),
            forall|k: int| 0 <= k < i ==> 0 <= #[trigger] mult@[k],
        decreases n - i,
    {
        let m: i64 = mult[i];
        if m < 0 {
            assert(!countable(mult@, n as int));
            return None;
        }
        if m as u64 > (MAX_NUMBERS - total) as u64 {
            proof {
                if countable(mult@, n as int) {
                    lemma_sum_grows(mult@, i + 1, n as int);
                }
            }
            return None;
        }
        total = total + m as usize;
        i += 1;
    }
    let mut out: Vec<u64> = Vec::new();
    let mut i: usize = 0;
    while i < n
        invariant
            i <= n,
            n <= knots@.len(),
            n <= mult@.len(),
            forall|k: int| 0 <= k < n ==> 0 <= #[trigger] mult@[k],
            out@ == expanded(knots@, mult@, i as int),
        decreases n - i,
    {
        push_repeated(&mut out, knots[i], mult[i]);
        i += 1;
    }
    Some(out)
}

/// The knot vector holds as many knots as the repeats add up to.
pub proof fn lemma_expanded_length(knots: Seq<u64>, mult: Seq<i64>, n: int)
    requires
        0 <= n <= mult.len(),
        countable(mult, n),
    ensures
        expanded(knots, mult, n).len() == sum(mult, n),
    decreases n,
{
    if n > 0 {
        lemma_expanded_length(knots, mult, n - 1);
        assert(0 <= mult[n - 1]);
    }
}

/// What the first `n` repeats add up to.
pub open spec fn sum(mult: Seq<i64>, n: int) -> int
    decreases n,
{
    if n <= 0 {
        0
    } else {
        sum(mult, n - 1) + mult[n - 1]
    }
}

/// A span among `count` knots, of which `at_or_below` are not above the
/// parameter: held to where the basis is defined.
pub open spec fn span_of(at_or_below: int, degree: int, points: int, count: int) -> int {
    let found = if at_or_below > 0 {
        at_or_below - 1
    } else {
        0
    };
    let top = if points - 1 > degree {
        points - 1
    } else {
        degree
    };
    let held = if found < degree {
        degree
    } else if found > top {
        top
    } else {
        found
    };
    if held < count - 1 {
        held
    } else {
        count - 1
    }
}

/// How many of sorted knots are not above a number.
pub open spec fn splits_at(knots: Seq<u64>, t: u64, n: int) -> bool {
    &&& 0 <= n <= knots.len()
    &&& forall|i: int| 0 <= i < n ==> rank(#[trigger] knots[i]) <= rank(t)
    &&& forall|i: int| n <= i < knots.len() ==> rank(#[trigger] knots[i]) > rank(t)
}

/// Knot span for `t`, clamped into the range the basis is defined over.
pub fn knot_span(knots: &[u64], degree: usize, points: usize, t: u64) -> (r: usize)
    requires
        knots@.len() > 0,
        points > 0,
        !nan(t),
        forall|i: int| 0 <= i < knots@.len() ==> !nan(#[trigger] knots@[i]),
        forall|i: int, k: int|
            0 <= i <= k < knots@.len() ==> rank(#[trigger] knots@[i]) <= rank(#[trigger] knots@[k]),
    ensures
        exists|n: int| #[trigger]
            splits_at(knots@, t, n) && r == span_of(
                n,
                degree as int,
                points as int,
                knots@.len() as int,
            ),
{
    let mut lo: usize = 0;
    let mut hi: usize = knots.len();
    while lo < hi
        invariant
            lo <= hi <= knots@.len(),
            !nan(t),
            forall|i: int| 0 <= i < knots@.len() ==> !nan(#[trigger] knots@[i]),
            forall|i: int, k: int|
                0 <= i <= k < knots@.len() ==> rank(#[trigger] knots@[i]) <= rank(
                    #[trigger] knots@[k],
                ),
            forall|i: int| 0 <= i < lo ==> rank(#[trigger] knots@[i]) <= rank(t),
            forall|i: int| hi <= i < knots@.len() ==> rank(#[trigger] knots@[i]) > rank(t),
        decreases hi - lo,
    {
        let mid: usize = lo + (hi - lo) / 2;
        if is_less(t, knots[mid]) {
            hi = mid;
        } else {
            lo = mid + 1;
        }
    }
    assert(splits_at(knots@, t, lo as int));
    let found: usize = if lo > 0 {
        lo - 1
    } else {
        0
    };
    let top: usize = if points - 1 > degree {
        points - 1
    } else {
        degree
    };
    let held: usize = if found < degree {
        degree
    } else if found > top {
        top
    } else {
        found
    };
    if held < knots.len() - 1 {
        held
    } else {
        knots.len() - 1
    }
}

// ---- control points ----

/// A control point as stored, with its weight: `(wx, wy, wz, w)` of a rational
/// shape, and of another `(x, y, z)` with the weight one.
pub open spec fn control(verts: Seq<u64>, dim: int, rational: bool, i: int) -> Seq<u64> {
    seq![
        verts[i * dim],
        verts[i * dim + 1],
        verts[i * dim + 2],
        if rational {
            verts[i * dim + 3]
        } else {
            ONE_BITS
        },
    ]
}

/// A weight that points can be divided by.
pub open spec fn usable_weight(w: u64) -> bool {
    rank(w) != 0 && finite(w)
}

/// The control points in a flat list.
pub open spec fn controls(verts: Seq<u64>, dim: int, rational: bool) -> Option<Seq<Seq<u64>>> {
    if dim < 3 || (rational && dim < 4) || verts.len() < dim {
        None
    } else {
        let n = verts.len() as int / dim;
        if exists|i: int|
            0 <= i < n && !usable_weight(#[trigger] control(verts, dim, rational, i)[3]) {
            None
        } else {
            Some(Seq::new(n as nat, |i: int| control(verts, dim, rational, i)))
        }
    }
}

/// Control points, or none.
pub open spec fn same_points(r: Option<Vec<[u64; 4]>>, want: Option<Seq<Seq<u64>>>) -> bool {
    match r {
        Some(v) => want == Some(v@.map_values(|p: [u64; 4]| p@)),
        None => want is None,
    }
}

/// Split a flat `(wx, wy, wz, w)`/`(x, y, z)` vertex array into points with
/// their weights.
pub fn split_vertices(verts: &[u64], dim: usize, rational: bool) -> (r: Option<Vec<[u64; 4]>>)
    ensures
        same_points(r, controls(verts@, dim as int, rational)),
{
    if dim < 3 || (rational && dim < 4) || verts.len() < dim {
        return None;
    }
    let n: usize = verts.len() / dim;
    let ghost d = dim as int;
    let mut out: Vec<[u64; 4]> = Vec::new();
    let mut i: usize = 0;
    while i < n
        invariant
            i <= n,
            d == dim,
            3 <= dim,
            rational ==> 4 <= dim,
            n == verts@.len() / dim as nat,
            out@.len() == i,
            forall|k: int|
                0 <= k < i ==> (#[trigger] out@[k])@ == control(verts@, d, rational, k)
                    && usable_weight(control(verts@, d, rational, k)[3]),
        decreases n - i,
    {
        let ghost len = verts@.len() as int;
        assert(0 <= i * d && i * d + d <= len) by (nonlinear_arith)
            requires
                0 <= i < len / d,
                3 <= d,
                0 <= len,
        ;
        assert(verts.len() == len);
        let at: usize = i * dim;
        let w: u64 = if rational {
            verts[at + 3]
        } else {
            ONE_BITS
        };
        let p: [u64; 4] = [verts[at], verts[at + 1], verts[at + 2], w];
        assert(p@ =~= control(verts@, d, rational, i as int));
        if w == 0 || w == SIGN_BIT || !is_finite(w) {
            assert(!usable_weight(control(verts@, d, rational, i as int)[3]));
            return None;
        }
        let ghost before = out@;
        out.push(p);
        assert forall|k: int| 0 <= k < i + 1 implies (#[trigger] out@[k])@ == control(
            verts@,
            d,
            rational,
            k,
        ) && usable_weight(control(verts@, d, rational, k)[3]) by {
            if k < i {
                assert(out@[k] == before[k]);
            } else {
                assert(out@[k] == p);
                assert(p@[3] == w);
            }
        }
        i += 1;
    }
    proof {
        assert(n as int == verts@.len() as int / d);
        assert forall|k: int| 0 <= k < n implies usable_weight(
            #[trigger] control(verts@, d, rational, k)[3],
        ) by {
            assert(out@[k]@ == control(verts@, d, rational, k));
        }
        assert(out@.map_values(|p: [u64; 4]| p@) =~= Seq::new(
            n as nat,
            |k: int| control(verts@, d, rational, k),
        ));
    }
    Some(out)
}

// ---- fields ----

/// A count in a field.
pub open spec fn count_in(node: NodeView, name: Seq<char>) -> Option<usize> {
    match node.field(name) {
        Some(v) => match v.integer() {
            Some(i) => if 0 <= i <= usize::MAX {
                Some(i as usize)
            } else {
                None
            },
            None => None,
        },
        None => None,
    }
}

pub fn count(node: &Node, name: &str) -> (r: Option<usize>)
    ensures
        r == count_in(node@, name@),
{
    match node.i64(name) {
        Some(i) => if i >= 0 && i as u64 <= usize::MAX as u64 {
            Some(i as usize)
        } else {
            None
        },
        None => None,
    }
}

/// A flag in a field.
pub open spec fn flag_in(node: NodeView, name: Seq<char>) -> bool {
    match node.field(name) {
        Some(v) => v.truth() == Some(true),
        None => false,
    }
}

/// The reals in a field of a node that a pointer leads to.
pub open spec fn reals_at(g: GraphView, node: NodeView, link: Seq<char>, name: Seq<char>) -> Option<
    Seq<u64>,
> {
    match g.follow(node, link) {
        Some(n) => match n.field(name) {
            Some(v) => v.reals(),
            None => None,
        },
        None => None,
    }
}

pub fn reals_of(graph: &Graph, node: &Node, link: &str, name: &str) -> (r: Option<Vec<u64>>)
    ensures
        same_list(r, reals_at(graph@, node@, link@, name@)),
{
    match graph.deref(node, link) {
        Some(n) => n.f64_vec(name),
        None => None,
    }
}

/// The integers in a field of a node that a pointer leads to.
pub open spec fn integers_at(
    g: GraphView,
    node: NodeView,
    link: Seq<char>,
    name: Seq<char>,
) -> Option<Seq<i64>> {
    match g.follow(node, link) {
        Some(n) => match n.field(name) {
            Some(v) => v.integers(),
            None => None,
        },
        None => None,
    }
}

pub fn integers_of(graph: &Graph, node: &Node, link: &str, name: &str) -> (r: Option<Vec<i64>>)
    ensures
        same_list(r, integers_at(graph@, node@, link@, name@)),
{
    match graph.deref(node, link) {
        Some(n) => n.i64_vec(name),
        None => None,
    }
}

/// The knot vector that two pointers lead to: the knots and their repeats.
pub open spec fn knots_at(g: GraphView, node: NodeView, knots: Seq<char>, mult: Seq<char>) -> Option<
    Seq<u64>,
> {
    match (reals_at(g, node, knots, "knots"@), integers_at(g, node, mult, "mult"@)) {
        (Some(k), Some(m)) => knot_vector(k, m),
        _ => None,
    }
}

pub fn knots_of(graph: &Graph, node: &Node, knots: &str, mult: &str) -> (r: Option<Vec<u64>>)
    ensures
        same_list(r, knots_at(graph@, node@, knots@, mult@)),
{
    match (reals_of(graph, node, knots, "knots"), integers_of(graph, node, mult, "mult")) {
        (Some(k), Some(m)) => expand_knots(k.as_slice(), m.as_slice()),
        _ => None,
    }
}

/// The control points that a shape's node leads to.
pub open spec fn points_at(g: GraphView, node: NodeView) -> Option<Seq<Seq<u64>>> {
    match (count_in(node, "vertex_dim"@), reals_at(g, node, "bspline_vertices"@, "vertices"@)) {
        (Some(dim), Some(verts)) => controls(verts, dim as int, flag_in(node, "rational"@)),
        _ => None,
    }
}

fn points_of(graph: &Graph, node: &Node) -> (r: Option<Vec<[u64; 4]>>)
    ensures
        same_points(r, points_at(graph@, node@)),
{
    match (count(node, "vertex_dim"), reals_of(graph, node, "bspline_vertices", "vertices")) {
        (Some(dim), Some(verts)) => split_vertices(verts.as_slice(), dim, node.bool("rational")),
        _ => None,
    }
}

// ---- curves ----

/// A NURBS curve.
pub struct CurveShape {
    pub degree: usize,
    /// Control points with their weights, as stored.
    pub points: Vec<[u64; 4]>,
    pub rational: bool,
    pub knots: Vec<u64>,
    /// The curve ends where it begins.
    pub closed: bool,
}

/// The contents of a curve.
#[verifier::ext_equal]
pub struct CurveShapeView {
    pub degree: usize,
    pub points: Seq<Seq<u64>>,
    pub rational: bool,
    pub knots: Seq<u64>,
    pub closed: bool,
}

impl View for CurveShape {
    type V = CurveShapeView;

    open spec fn view(&self) -> CurveShapeView {
        CurveShapeView {
            degree: self.degree,
            points: self.points@.map_values(|p: [u64; 4]| p@),
            rational: self.rational,
            knots: self.knots@,
            closed: self.closed,
        }
    }
}

/// The knots reach over the control points, and the parameter range is not
/// empty.
pub open spec fn curve_holds(degree: usize, points: nat, knots: Seq<u64>) -> bool {
    &&& points > 0
    &&& degree > 0
    &&& knots.len() > points
    &&& knots.len() > degree
    &&& !at_most(knots[points as int], knots[degree as int])
    &&& finite(knots[degree as int])
    &&& finite(knots[points as int])
}

/// The NURBS curve of a `B_CURVE`.
pub open spec fn curve_shape_of(g: GraphView, bcurve: NodeView) -> Option<CurveShapeView> {
    match g.follow(bcurve, "nurbs"@) {
        None => None,
        Some(nc) => match (
            count_in(nc, "degree"@),
            points_at(g, nc),
            knots_at(g, nc, "knots"@, "knot_mult"@),
        ) {
            (Some(degree), Some(points), Some(knots)) => if curve_holds(
                degree,
                points.len(),
                knots,
            ) {
                Some(
                    CurveShapeView {
                        degree,
                        points,
                        rational: flag_in(nc, "rational"@),
                        knots,
                        closed: flag_in(nc, "closed"@) || flag_in(nc, "periodic"@),
                    },
                )
            } else {
                None
            },
            _ => None,
        },
    }
}

/// The NURBS curve of a `B_CURVE`, where it is complete and makes sense.
pub fn curve_shape(graph: &Graph, bcurve: &Node) -> (r: Option<CurveShape>)
    ensures
        match r {
            Some(c) => curve_shape_of(graph@, bcurve@) == Some(c@),
            None => curve_shape_of(graph@, bcurve@) is None,
        },
{
    let nc: &Node = match graph.deref(bcurve, "nurbs") {
        Some(n) => n,
        None => {
            return None;
        },
    };
    match (count(nc, "degree"), points_of(graph, nc), knots_of(graph, nc, "knots", "knot_mult")) {
        (Some(degree), Some(points), Some(knots)) => {
            let n: usize = points.len();
            if n == 0 || degree == 0 || knots.len() <= n || knots.len() <= degree {
                return None;
            }
            if is_at_most(knots[n], knots[degree]) || !is_finite(knots[degree]) || !is_finite(
                knots[n],
            ) {
                return None;
            }
            Some(
                CurveShape {
                    degree,
                    points,
                    rational: nc.bool("rational"),
                    knots,
                    closed: nc.bool("closed") || nc.bool("periodic"),
                },
            )
        },
        _ => None,
    }
}

// ---- surfaces ----

/// A NURBS surface.
pub struct SurfaceShape {
    pub u_degree: usize,
    pub v_degree: usize,
    /// How many control points there are in either direction.
    pub nu: usize,
    pub nv: usize,
    /// Control points with their weights, as stored, u-major.
    pub points: Vec<[u64; 4]>,
    pub rational: bool,
    pub u_knots: Vec<u64>,
    pub v_knots: Vec<u64>,
    pub u_closed: bool,
    pub v_closed: bool,
}

/// The contents of a surface.
#[verifier::ext_equal]
pub struct SurfaceShapeView {
    pub u_degree: usize,
    pub v_degree: usize,
    pub nu: usize,
    pub nv: usize,
    pub points: Seq<Seq<u64>>,
    pub rational: bool,
    pub u_knots: Seq<u64>,
    pub v_knots: Seq<u64>,
    pub u_closed: bool,
    pub v_closed: bool,
}

impl View for SurfaceShape {
    type V = SurfaceShapeView;

    open spec fn view(&self) -> SurfaceShapeView {
        SurfaceShapeView {
            u_degree: self.u_degree,
            v_degree: self.v_degree,
            nu: self.nu,
            nv: self.nv,
            points: self.points@.map_values(|p: [u64; 4]| p@),
            rational: self.rational,
            u_knots: self.u_knots@,
            v_knots: self.v_knots@,
            u_closed: self.u_closed,
            v_closed: self.v_closed,
        }
    }
}

/// The knots in one direction reach over the control points there, and the
/// parameter range is not empty.
pub open spec fn direction_holds(degree: usize, n: usize, knots: Seq<u64>) -> bool {
    &&& n > 0
    &&& knots.len() > n
    &&& knots.len() > degree
    &&& !at_most(knots[n as int], knots[degree as int])
}

fn holds(degree: usize, n: usize, knots: &Vec<u64>) -> (r: bool)
    ensures
        r == direction_holds(degree, n, knots@),
{
    n > 0 && knots.len() > n && knots.len() > degree && !is_at_most(knots[n], knots[degree])
}

/// The NURBS surface of a `B_SURFACE`.
pub open spec fn surface_shape_of(g: GraphView, bsurf: NodeView) -> Option<SurfaceShapeView> {
    match g.follow(bsurf, "nurbs"@) {
        None => None,
        Some(ns) => match (
            count_in(ns, "u_degree"@),
            count_in(ns, "v_degree"@),
            count_in(ns, "n_u_vertices"@),
            count_in(ns, "n_v_vertices"@),
            points_at(g, ns),
            knots_at(g, ns, "u_knots"@, "u_knot_mult"@),
            knots_at(g, ns, "v_knots"@, "v_knot_mult"@),
        ) {
            (
                Some(u_degree),
                Some(v_degree),
                Some(nu),
                Some(nv),
                Some(points),
                Some(u_knots),
                Some(v_knots),
            ) => if points.len() >= nu * nv && direction_holds(u_degree, nu, u_knots)
                && direction_holds(v_degree, nv, v_knots) {
                Some(
                    SurfaceShapeView {
                        u_degree,
                        v_degree,
                        nu,
                        nv,
                        points,
                        rational: flag_in(ns, "rational"@),
                        u_knots,
                        v_knots,
                        u_closed: flag_in(ns, "u_periodic"@) || flag_in(ns, "u_closed"@),
                        v_closed: flag_in(ns, "v_periodic"@) || flag_in(ns, "v_closed"@),
                    },
                )
            } else {
                None
            },
            _ => None,
        },
    }
}

/// The NURBS surface of a `B_SURFACE`, where it is complete and makes sense.
pub fn surface_shape(graph: &Graph, bsurf: &Node) -> (r: Option<SurfaceShape>)
    ensures
        match r {
            Some(s) => surface_shape_of(graph@, bsurf@) == Some(s@),
            None => surface_shape_of(graph@, bsurf@) is None,
        },
{
    let ns: &Node = match graph.deref(bsurf, "nurbs") {
        Some(n) => n,
        None => {
            return None;
        },
    };
    match (
        count(ns, "u_degree"),
        count(ns, "v_degree"),
        count(ns, "n_u_vertices"),
        count(ns, "n_v_vertices"),
        points_of(graph, ns),
        knots_of(graph, ns, "u_knots", "u_knot_mult"),
        knots_of(graph, ns, "v_knots", "v_knot_mult"),
    ) {
        (
            Some(u_degree),
            Some(v_degree),
            Some(nu),
            Some(nv),
            Some(points),
            Some(u_knots),
            Some(v_knots),
        ) => {
            assert(points.len() <= usize::MAX);
            let net: usize = match nu.checked_mul(nv) {
                Some(n) => n,
                None => {
                    return None;
                },
            };
            if points.len() < net || !holds(u_degree, nu, &u_knots) || !holds(
                v_degree,
                nv,
                &v_knots,
            ) {
                return None;
            }
            Some(
                SurfaceShape {
                    u_degree,
                    v_degree,
                    nu,
                    nv,
                    points,
                    rational: ns.bool("rational"),
                    u_knots,
                    v_knots,
                    u_closed: ns.bool("u_periodic") || ns.bool("u_closed"),
                    v_closed: ns.bool("v_periodic") || ns.bool("v_closed"),
                },
            )
        },
        _ => None,
    }
}

} // verus!
