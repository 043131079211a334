//! What is written can be read back: the entities that a writer holds, followed
//! by their numbers, say of every curve and surface what the file says of it.
//!
//! A file is read here by its text alone: entity `n` stands behind `#n=`, and
//! `#n` in an entity leads to it.

use vstd::prelude::*;

use super::surface::{
    curve_written, end_mults, polyline_written, row_lists, rows_written, surface_written,
    weight_lists, Net, Polyline, Shapes,
};
use super::writer::{integers, reals, refs, WriterView};
use crate::double::of_int;
use crate::graph::GraphView;
use crate::sample::Point;
use crate::text::decimal;
use crate::value::{NodeId, NodeView, ValueView};

verus! {

/// The name of an entity.
pub open spec fn name_of(id: int) -> Seq<char> {
    "#"@ + decimal(id as nat)
}

/// The text of entities, each on a line of its own behind its name.
pub open spec fn listing(e: Seq<Seq<char>>) -> Seq<char>
    decreases e.len(),
{
    if e.len() == 0 {
        Seq::empty()
    } else {
        listing(e.drop_last()) + (name_of(e.len() as int) + "="@ + e.last() + ";\n"@)
    }
}

/// The writer holds these entities, in this order, and has named that many.
pub open spec fn holds(w: WriterView, e: Seq<Seq<char>>) -> bool {
    w.n == e.len() && w.body == listing(e)
}

/// There is room for so many names more.
pub open spec fn room(e: Seq<Seq<char>>, n: int) -> bool {
    e.len() + n <= u64::MAX
}

/// The entities go on from others.
pub open spec fn goes_on(e: Seq<Seq<char>>, more: Seq<Seq<char>>) -> bool {
    e.is_prefix_of(more)
}

/// The entity of that name has that text.
pub open spec fn says(e: Seq<Seq<char>>, id: int, text: Seq<char>) -> bool {
    1 <= id <= e.len() && e[id - 1] == text
}

/// Texts with commas between them.
pub open spec fn joined(parts: Seq<Seq<char>>) -> Seq<char>
    decreases parts.len(),
{
    if parts.len() == 0 {
        Seq::empty()
    } else if parts.len() == 1 {
        parts[0]
    } else {
        joined(parts.drop_last()) + ","@ + parts.last()
    }
}

/// Texts in brackets, with commas between them.
pub open spec fn bracketed(parts: Seq<Seq<char>>) -> Seq<char> {
    "("@ + joined(parts) + ")"@
}

/// The text of a number; one that has none is written as zero.
pub open spec fn numeral(numbers: Map<u64, String>, bits: u64) -> Seq<char> {
    if numbers.contains_key(bits) {
        numbers[bits]@
    } else {
        "0.0"@
    }
}

/// The texts of numbers.
pub open spec fn numerals(numbers: Map<u64, String>, xs: Seq<u64>) -> Seq<Seq<char>> {
    xs.map_values(|x: u64| numeral(numbers, x))
}

/// The entity is the point.
pub open spec fn is_point(
    e: Seq<Seq<char>>,
    numbers: Map<u64, String>,
    id: int,
    p: Seq<u64>,
) -> bool {
    says(e, id, "CARTESIAN_POINT('',"@ + bracketed(numerals(numbers, p)) + ")"@)
}

/// The entity is the direction.
pub open spec fn is_direction(
    e: Seq<Seq<char>>,
    numbers: Map<u64, String>,
    id: int,
    v: Seq<u64>,
) -> bool {
    says(e, id, "DIRECTION('',"@ + bracketed(numerals(numbers, v)) + ")"@)
}

/// The entity is the direction, with length one.
pub open spec fn is_vector(
    e: Seq<Seq<char>>,
    numbers: Map<u64, String>,
    id: int,
    v: Seq<u64>,
) -> bool {
    exists|d: int|
        #![trigger name_of(d)]
        says(e, id, "VECTOR('',"@ + name_of(d) + ",1.0)"@) && is_direction(e, numbers, d, v)
}

/// The entity is a placement: its first reference leads to the origin, its second
/// to the axis, its third to the reference direction.
pub open spec fn is_placement(
    e: Seq<Seq<char>>,
    numbers: Map<u64, String>,
    id: int,
    origin: Seq<u64>,
    axis: Seq<u64>,
    x: Seq<u64>,
) -> bool {
    exists|c: int, z: int, d: int|
        #![trigger name_of(c), name_of(z), name_of(d)]
        {
            &&& says(
                e,
                id,
                "AXIS2_PLACEMENT_3D('',"@ + name_of(c) + ","@ + name_of(z) + ","@ + name_of(d)
                    + ")"@,
            )
            &&& is_point(e, numbers, c, origin)
            &&& is_direction(e, numbers, z, axis)
            &&& is_direction(e, numbers, d, x)
        }
}

/// The entity is of a kind, and placed so, with such sizes.
pub open spec fn is_placed(
    e: Seq<Seq<char>>,
    numbers: Map<u64, String>,
    id: int,
    kind: Seq<char>,
    origin: Seq<u64>,
    axis: Seq<u64>,
    x: Seq<u64>,
    sizes: Seq<char>,
) -> bool {
    exists|a: int|
        #![trigger name_of(a)]
        says(e, id, kind + "('',"@ + name_of(a) + sizes + ")"@) && is_placement(
            e,
            numbers,
            a,
            origin,
            axis,
            x,
        )
}

pub(crate) proof fn lemma_entity(w: WriterView, e: Seq<Seq<char>>, s: Seq<char>)
    requires
        holds(w, e),
        room(e, 1),
    ensures
        holds(w.entity(s), e.push(s)),
        w.entity(s).n == e.len() + 1,
        says(e.push(s), e.len() + 1int, s),
        goes_on(e, e.push(s)),
{
    assert(e.push(s).drop_last() =~= e);
    assert(w.entity(s).body =~= listing(e.push(s)));
}

/// What an entity says it still says when more are written.
pub(crate) proof fn lemma_goes_on(a: Seq<Seq<char>>, b: Seq<Seq<char>>)
    requires
        goes_on(a, b),
    ensures
        forall|id: int, s: Seq<char>| #[trigger] says(a, id, s) ==> says(b, id, s),
{
    assert forall|id: int, s: Seq<char>| #[trigger] says(a, id, s) implies says(b, id, s) by {
        assert(a[id - 1] == b[id - 1]);
    }
}

proof fn lemma_reals(numbers: Map<u64, String>, xs: Seq<u64>)
    ensures
        reals(numbers, xs) == joined(numerals(numbers, xs)),
    decreases xs.len(),
{
    let parts = numerals(numbers, xs);
    if xs.len() > 0 {
        lemma_reals(numbers, xs.drop_last());
        assert(parts.drop_last() =~= numerals(numbers, xs.drop_last()));
        assert(parts.last() == numeral(numbers, xs.last()));
        if xs.len() == 1 {
            assert(Seq::<char>::empty() + parts[0] =~= parts[0]);
        }
    }
}

proof fn lemma_refs(ids: Seq<u64>)
    ensures
        refs(ids) == joined(ids.map_values(|i: u64| name_of(i as int))),
    decreases ids.len(),
{
    let parts = ids.map_values(|i: u64| name_of(i as int));
    if ids.len() > 0 {
        lemma_refs(ids.drop_last());
        assert(parts.drop_last() =~= ids.drop_last().map_values(|i: u64| name_of(i as int)));
        assert(parts.last() == name_of(ids.last() as int));
        if ids.len() == 1 {
            assert(Seq::<char>::empty() + parts[0] =~= parts[0]);
        }
    }
}

proof fn lemma_integers(xs: Seq<usize>)
    ensures
        integers(xs) == joined(xs.map_values(|i: usize| decimal(i as nat))),
    decreases xs.len(),
{
    let parts = xs.map_values(|i: usize| decimal(i as nat));
    if xs.len() > 0 {
        lemma_integers(xs.drop_last());
        assert(parts.drop_last() =~= xs.drop_last().map_values(|i: usize| decimal(i as nat)));
        assert(parts.last() == decimal(xs.last() as nat));
        if xs.len() == 1 {
            assert(Seq::<char>::empty() + parts[0] =~= parts[0]);
        }
    }
}

pub(crate) proof fn lemma_point(w: WriterView, e: Seq<Seq<char>>, numbers: Map<u64, String>, p: Seq<u64>)
    requires
        holds(w, e),
        room(e, 1),
    ensures
        ({
            let s = "CARTESIAN_POINT('',"@ + bracketed(numerals(numbers, p)) + ")"@;
            &&& holds(w.cart(numbers, p), e.push(s))
            &&& w.cart(numbers, p).n == e.len() + 1
            &&& is_point(e.push(s), numbers, e.len() + 1int, p)
        }),
{
    lemma_reals(numbers, p);
    lemma_entity(w, e, "CARTESIAN_POINT('',"@ + bracketed(numerals(numbers, p)) + ")"@);
}

proof fn lemma_direction(w: WriterView, e: Seq<Seq<char>>, numbers: Map<u64, String>, v: Seq<u64>)
    requires
        holds(w, e),
        room(e, 1),
    ensures
        ({
            let s = "DIRECTION('',"@ + bracketed(numerals(numbers, v)) + ")"@;
            &&& holds(w.dir(numbers, v), e.push(s))
            &&& w.dir(numbers, v).n == e.len() + 1
            &&& is_direction(e.push(s), numbers, e.len() + 1int, v)
        }),
{
    lemma_reals(numbers, v);
    lemma_entity(w, e, "DIRECTION('',"@ + bracketed(numerals(numbers, v)) + ")"@);
}

/// A placement is written so that it reads back.
pub(crate) proof fn lemma_placement(
    w: WriterView,
    e: Seq<Seq<char>>,
    numbers: Map<u64, String>,
    origin: Seq<u64>,
    axis: Seq<u64>,
    x: Seq<u64>,
) -> (r: Seq<Seq<char>>)
    requires
        holds(w, e),
        room(e, 4),
    ensures
        goes_on(e, r),
        r.len() == e.len() + 4,
        holds(w.ax2(numbers, origin, axis, x), r),
        is_placement(r, numbers, r.len() as int, origin, axis, x),
{
    let n = e.len() as int;
    let s1 = "CARTESIAN_POINT('',"@ + bracketed(numerals(numbers, origin)) + ")"@;
    let s2 = "DIRECTION('',"@ + bracketed(numerals(numbers, axis)) + ")"@;
    let s3 = "DIRECTION('',"@ + bracketed(numerals(numbers, x)) + ")"@;
    let s4 = "AXIS2_PLACEMENT_3D('',"@ + name_of(n + 1) + ","@ + name_of(n + 2) + ","@ + name_of(
        n + 3,
    ) + ")"@;
    let e1 = e.push(s1);
    let e2 = e1.push(s2);
    let e3 = e2.push(s3);
    let e4 = e3.push(s4);
    let c = w.cart(numbers, origin);
    let dz = c.dir(numbers, axis);
    let dx = dz.dir(numbers, x);
    lemma_point(w, e, numbers, origin);
    lemma_direction(c, e1, numbers, axis);
    lemma_direction(dz, e2, numbers, x);
    lemma_entity(dx, e3, s4);
    assert(w.ax2(numbers, origin, axis, x) == dx.entity(s4));
    assert(is_point(e4, numbers, n + 1, origin));
    assert(is_direction(e4, numbers, n + 2, axis));
    assert(is_direction(e4, numbers, n + 3, x));
    assert(says(e4, n + 4, s4));
    e4
}

proof fn lemma_placed(
    w: WriterView,
    e: Seq<Seq<char>>,
    numbers: Map<u64, String>,
    origin: Seq<u64>,
    axis: Seq<u64>,
    x: Seq<u64>,
    kind: Seq<char>,
    sizes: Seq<char>,
    after: WriterView,
) -> (r: Seq<Seq<char>>)
    requires
        holds(w, e),
        room(e, 5),
        after == ({
            let ax = w.ax2(numbers, origin, axis, x);
            ax.entity(kind + "('',"@ + name_of(ax.n as int) + sizes + ")"@)
        }),
    ensures
        goes_on(e, r),
        r.len() == e.len() + 5,
        holds(after, r),
        is_placed(r, numbers, after.n as int, kind, origin, axis, x, sizes),
{
    let e4 = lemma_placement(w, e, numbers, origin, axis, x);
    let s = kind + "('',"@ + name_of(e4.len() as int) + sizes + ")"@;
    lemma_entity(w.ax2(numbers, origin, axis, x), e4, s);
    lemma_goes_on(e4, e4.push(s));
    assert(is_placement(e4.push(s), numbers, e4.len() as int, origin, axis, x)) by {
        let (c, z, d) = choose|c: int, z: int, d: int|
            #![trigger name_of(c), name_of(z), name_of(d)]
            {
                &&& says(
                    e4,
                    e4.len() as int,
                    "AXIS2_PLACEMENT_3D('',"@ + name_of(c) + ","@ + name_of(z) + ","@ + name_of(d)
                        + ")"@,
                )
                &&& is_point(e4, numbers, c, origin)
                &&& is_direction(e4, numbers, z, axis)
                &&& is_direction(e4, numbers, d, x)
            };
        assert(is_point(e4.push(s), numbers, c, origin));
        assert(is_direction(e4.push(s), numbers, z, axis));
        assert(is_direction(e4.push(s), numbers, d, x));
    }
    assert(says(e4.push(s), after.n as int, s));
    e4.push(s)
}

/// The names of the types of surfaces are told apart.
proof fn lemma_surface_names()
    ensures
        "PLANE"@ != "OFFSET_SURF"@,
        "CYLINDER"@ != "OFFSET_SURF"@ && "CYLINDER"@ != "PLANE"@,
        "CONE"@ != "OFFSET_SURF"@ && "CONE"@ != "PLANE"@ && "CONE"@ != "CYLINDER"@,
        "SPHERE"@ != "OFFSET_SURF"@ && "SPHERE"@ != "PLANE"@ && "SPHERE"@ != "CYLINDER"@
            && "SPHERE"@ != "CONE"@,
        "TORUS"@ != "OFFSET_SURF"@ && "TORUS"@ != "PLANE"@ && "TORUS"@ != "CYLINDER"@ && "TORUS"@
            != "CONE"@ && "TORUS"@ != "SPHERE"@,
        "SWEPT_SURF"@ != "OFFSET_SURF"@ && "SWEPT_SURF"@ != "PLANE"@ && "SWEPT_SURF"@ != "CYLINDER"@
            && "SWEPT_SURF"@ != "CONE"@ && "SWEPT_SURF"@ != "SPHERE"@ && "SWEPT_SURF"@ != "TORUS"@,
        "SPUN_SURF"@ != "OFFSET_SURF"@ && "SPUN_SURF"@ != "PLANE"@ && "SPUN_SURF"@ != "CYLINDER"@
            && "SPUN_SURF"@ != "CONE"@ && "SPUN_SURF"@ != "SPHERE"@ && "SPUN_SURF"@ != "TORUS"@
            && "SPUN_SURF"@ != "SWEPT_SURF"@,
        "B_SURFACE"@ != "OFFSET_SURF"@ && "B_SURFACE"@ != "PLANE"@ && "B_SURFACE"@ != "CYLINDER"@
            && "B_SURFACE"@ != "CONE"@ && "B_SURFACE"@ != "SPHERE"@ && "B_SURFACE"@ != "TORUS"@
            && "B_SURFACE"@ != "SWEPT_SURF"@ && "B_SURFACE"@ != "SPUN_SURF"@,
{
    reveal_strlit("PLANE");
    reveal_strlit("CYLINDER");
    reveal_strlit("CONE");
    reveal_strlit("SPHERE");
    reveal_strlit("TORUS");
    reveal_strlit("SWEPT_SURF");
    reveal_strlit("SPUN_SURF");
    reveal_strlit("B_SURFACE");
    reveal_strlit("OFFSET_SURF");
    assert("PLANE"@.len() == 5 && "CYLINDER"@.len() == 8 && "CONE"@.len() == 4);
    assert("SPHERE"@.len() == 6 && "TORUS"@.len() == 5 && "SWEPT_SURF"@.len() == 10);
    assert("SPUN_SURF"@.len() == 9 && "B_SURFACE"@.len() == 9 && "OFFSET_SURF"@.len() == 11);
    assert("PLANE"@[0] == 'P' && "TORUS"@[0] == 'T');
    assert("SPUN_SURF"@[0] == 'S' && "B_SURFACE"@[0] == 'B');
}

/// A plane reads back with its point, its normal as the axis, and its x axis as
/// the reference direction.
pub proof fn lemma_planes_read_back(
    w: WriterView,
    e: Seq<Seq<char>>,
    shapes: Shapes,
    g: GraphView,
    face: NodeId,
    node: NodeView,
    depth: nat,
    p: Seq<u64>,
    n: Seq<u64>,
    x: Seq<u64>,
) -> (r: Seq<Seq<char>>)
    requires
        holds(w, e),
        room(e, 5),
        node.name == "PLANE"@,
        node.field("pvec"@) == Some(ValueView::Vec3(p)),
        node.field("normal"@) == Some(ValueView::Vec3(n)),
        node.field("x_axis"@) == Some(ValueView::Vec3(x)),
    ensures
        ({
            let (after, ok) = surface_written(w, shapes, g, face, node, depth);
            &&& ok
            &&& goes_on(e, r)
            &&& holds(after, r)
            &&& is_placed(r, shapes.numbers@, after.n as int, "PLANE"@, p, n, x, Seq::empty())
        }),
{
    lemma_surface_names();
    let after = surface_written(w, shapes, g, face, node, depth).0;
    lemma_placed(w, e, shapes.numbers@, p, n, x, "PLANE"@, Seq::empty(), after)
}

/// A cylinder reads back with its point, its axis, its x axis as the reference
/// direction, and its radius.
pub proof fn lemma_cylinders_read_back(
    w: WriterView,
    e: Seq<Seq<char>>,
    shapes: Shapes,
    g: GraphView,
    face: NodeId,
    node: NodeView,
    depth: nat,
    p: Seq<u64>,
    a: Seq<u64>,
    x: Seq<u64>,
    radius: u64,
) -> (r: Seq<Seq<char>>)
    requires
        holds(w, e),
        room(e, 5),
        node.name == "CYLINDER"@,
        node.field("pvec"@) == Some(ValueView::Vec3(p)),
        node.field("axis"@) == Some(ValueView::Vec3(a)),
        node.field("x_axis"@) == Some(ValueView::Vec3(x)),
        node.field("radius"@) == Some(ValueView::F64(radius)),
    ensures
        ({
            let (after, ok) = surface_written(w, shapes, g, face, node, depth);
            &&& ok
            &&& goes_on(e, r)
            &&& holds(after, r)
            &&& is_placed(
                r,
                shapes.numbers@,
                after.n as int,
                "CYLINDRICAL_SURFACE"@,
                p,
                a,
                x,
                ","@ + numeral(shapes.numbers@, radius),
            )
        }),
{
    lemma_surface_names();
    let after = surface_written(w, shapes, g, face, node, depth).0;
    let sizes = ","@ + numeral(shapes.numbers@, radius);
    lemma_placed(w, e, shapes.numbers@, p, a, x, "CYLINDRICAL_SURFACE"@, sizes, after)
}

/// `b` is the number `a` with its sign turned.
pub open spec fn opposite(a: u64, b: u64) -> bool {
    a == b + 0x8000000000000000 || b == a + 0x8000000000000000
}

/// A cone whose half angle is not negative reads back with its point, its axis,
/// its x axis as the reference direction, its radius and its half angle. One with
/// a negative half angle reads back with its axis and its angle turned round.
pub proof fn lemma_cones_read_back(
    w: WriterView,
    e: Seq<Seq<char>>,
    shapes: Shapes,
    g: GraphView,
    face: NodeId,
    node: NodeView,
    depth: nat,
    p: Seq<u64>,
    a: Seq<u64>,
    x: Seq<u64>,
    radius: u64,
    sin: u64,
    cos: u64,
) -> (r: Seq<Seq<char>>)
    requires
        holds(w, e),
        room(e, 5),
        node.name == "CONE"@,
        node.field("pvec"@) == Some(ValueView::Vec3(p)),
        node.field("axis"@) == Some(ValueView::Vec3(a)),
        node.field("x_axis"@) == Some(ValueView::Vec3(x)),
        node.field("radius"@) == Some(ValueView::F64(radius)),
        node.field("sin_half_angle"@) == Some(ValueView::F64(sin)),
        node.field("cos_half_angle"@) == Some(ValueView::F64(cos)),
        cos != 0 && cos != 0x8000000000000000,
        shapes.angles@.contains_key(node.id),
        a.len() == 3,
    ensures
        ({
            let (after, ok) = surface_written(w, shapes, g, face, node, depth);
            let numbers = shapes.numbers@;
            let angle = shapes.angles@[node.id];
            &&& ok
            &&& goes_on(e, r)
            &&& holds(after, r)
            &&& exists|b: Seq<u64>, t: u64|
                {
                    &&& #[trigger] is_placed(
                        r,
                        numbers,
                        after.n as int,
                        "CONICAL_SURFACE"@,
                        p,
                        b,
                        x,
                        ","@ + numeral(numbers, radius) + (","@ + numeral(numbers, t)),
                    )
                    &&& b.len() == 3
                    &&& if crate::double::below(angle, 0) {
                        opposite(angle, t) && forall|i: int|
                            0 <= i < 3 ==> opposite(#[trigger] a[i], b[i])
                    } else {
                        t == angle && b == a
                    }
                }
        }),
{
    lemma_surface_names();
    let after = surface_written(w, shapes, g, face, node, depth).0;
    let numbers = shapes.numbers@;
    let angle = shapes.angles@[node.id];
    let turn = crate::double::below(angle, 0);
    let b = if turn {
        a.map_values(|v: u64| crate::geometry::negated(v))
    } else {
        a
    };
    let t = if turn {
        crate::geometry::negated(angle)
    } else {
        angle
    };
    let sizes = ","@ + numeral(numbers, radius) + (","@ + numeral(numbers, t));
    let r = lemma_placed(w, e, numbers, p, b, x, "CONICAL_SURFACE"@, sizes, after);
    assert forall|i: int| turn && 0 <= i < 3 implies opposite(#[trigger] a[i], b[i]) by {
        assert(b[i] == crate::geometry::negated(a[i]));
    }
    assert(is_placed(r, numbers, after.n as int, "CONICAL_SURFACE"@, p, b, x, sizes));
    r
}

/// A cone whose cosine is zero, or whose angle is not known, is not written.
pub proof fn lemma_flat_cones_are_left_out(
    w: WriterView,
    shapes: Shapes,
    g: GraphView,
    face: NodeId,
    node: NodeView,
    depth: nat,
    cos: u64,
)
    requires
        node.name == "CONE"@,
        node.field("cos_half_angle"@) == Some(ValueView::F64(cos)),
        cos == 0 || cos == 0x8000000000000000 || !shapes.angles@.contains_key(node.id),
    ensures
        surface_written(w, shapes, g, face, node, depth) == (w, false),
{
    lemma_surface_names();
}

/// A sphere reads back with its centre, its axis, its x axis as the reference
/// direction, and its radius.
pub proof fn lemma_spheres_read_back(
    w: WriterView,
    e: Seq<Seq<char>>,
    shapes: Shapes,
    g: GraphView,
    face: NodeId,
    node: NodeView,
    depth: nat,
    c: Seq<u64>,
    a: Seq<u64>,
    x: Seq<u64>,
    radius: u64,
) -> (r: Seq<Seq<char>>)
    requires
        holds(w, e),
        room(e, 5),
        node.name == "SPHERE"@,
        node.field("centre"@) == Some(ValueView::Vec3(c)),
        node.field("axis"@) == Some(ValueView::Vec3(a)),
        node.field("x_axis"@) == Some(ValueView::Vec3(x)),
        node.field("radius"@) == Some(ValueView::F64(radius)),
    ensures
        ({
            let (after, ok) = surface_written(w, shapes, g, face, node, depth);
            &&& ok
            &&& goes_on(e, r)
            &&& holds(after, r)
            &&& is_placed(
                r,
                shapes.numbers@,
                after.n as int,
                "SPHERICAL_SURFACE"@,
                c,
                a,
                x,
                ","@ + numeral(shapes.numbers@, radius),
            )
        }),
{
    lemma_surface_names();
    let after = surface_written(w, shapes, g, face, node, depth).0;
    let sizes = ","@ + numeral(shapes.numbers@, radius);
    lemma_placed(w, e, shapes.numbers@, c, a, x, "SPHERICAL_SURFACE"@, sizes, after)
}

/// A torus reads back with its centre, its axis, its x axis as the reference
/// direction, its major radius and then its minor radius.
pub proof fn lemma_tori_read_back(
    w: WriterView,
    e: Seq<Seq<char>>,
    shapes: Shapes,
    g: GraphView,
    face: NodeId,
    node: NodeView,
    depth: nat,
    c: Seq<u64>,
    a: Seq<u64>,
    x: Seq<u64>,
    major: u64,
    minor: u64,
) -> (r: Seq<Seq<char>>)
    requires
        holds(w, e),
        room(e, 5),
        node.name == "TORUS"@,
        node.field("centre"@) == Some(ValueView::Vec3(c)),
        node.field("axis"@) == Some(ValueView::Vec3(a)),
        node.field("x_axis"@) == Some(ValueView::Vec3(x)),
        node.field("major_radius"@) == Some(ValueView::F64(major)),
        node.field("minor_radius"@) == Some(ValueView::F64(minor)),
    ensures
        ({
            let (after, ok) = surface_written(w, shapes, g, face, node, depth);
            &&& ok
            &&& goes_on(e, r)
            &&& holds(after, r)
            &&& is_placed(
                r,
                shapes.numbers@,
                after.n as int,
                "TOROIDAL_SURFACE"@,
                c,
                a,
                x,
                ","@ + numeral(shapes.numbers@, major) + (","@ + numeral(shapes.numbers@, minor)),
            )
        }),
{
    lemma_surface_names();
    let after = surface_written(w, shapes, g, face, node, depth).0;
    let sizes = ","@ + numeral(shapes.numbers@, major) + (","@ + numeral(shapes.numbers@, minor));
    lemma_placed(w, e, shapes.numbers@, c, a, x, "TOROIDAL_SURFACE"@, sizes, after)
}


// ---- curves ----

/// The entity is a line through a point along a direction.
pub open spec fn is_line(
    e: Seq<Seq<char>>,
    numbers: Map<u64, String>,
    id: int,
    p: Seq<u64>,
    d: Seq<u64>,
) -> bool {
    exists|c: int, v: int|
        #![trigger name_of(c), name_of(v)]
        {
            &&& says(e, id, "LINE('',"@ + name_of(c) + ","@ + name_of(v) + ")"@)
            &&& is_point(e, numbers, c, p)
            &&& is_vector(e, numbers, v, d)
        }
}

/// The texts of repeats: the first and the last knot are there twice, all others
/// once.
pub open spec fn twice_at_the_ends(n: nat) -> Seq<Seq<char>> {
    Seq::new(
        n,
        |i: int|
            if i == 0 || i == n - 1 {
                seq!['2']
            } else {
                seq!['1']
            },
    )
}

/// The names lead to the points, one by one.
pub open spec fn lead_to(
    e: Seq<Seq<char>>,
    numbers: Map<u64, String>,
    ids: Seq<int>,
    points: Seq<Point>,
) -> bool {
    &&& ids.len() == points.len()
    &&& forall|i: int|
        0 <= i < points.len() ==> is_point(e, numbers, #[trigger] ids[i], points[i]@)
}

/// Names in brackets.
pub open spec fn names_of(ids: Seq<int>) -> Seq<char> {
    bracketed(ids.map_values(|i: int| name_of(i)))
}

/// The entity is a curve of straight pieces through the points, in their order,
/// with these knots.
pub open spec fn is_polyline(
    e: Seq<Seq<char>>,
    numbers: Map<u64, String>,
    id: int,
    line: Polyline,
) -> bool {
    exists|ids: Seq<int>|
        {
            &&& #[trigger] lead_to(e, numbers, ids, line.points@)
            &&& says(
                e,
                id,
                "B_SPLINE_CURVE_WITH_KNOTS('',1,"@ + names_of(ids) + ",.POLYLINE_FORM.,.F.,.F.,"@
                    + bracketed(twice_at_the_ends(line.points@.len())) + ","@ + bracketed(
                    numerals(numbers, line.knots@),
                ) + ",.UNSPECIFIED.)"@,
            )
        }
}

/// The entity is the curve that the node describes: a line, circle or ellipse by
/// what its fields say, and any other curve by its samples.
pub open spec fn is_curve(e: Seq<Seq<char>>, shapes: Shapes, id: int, node: NodeView) -> bool {
    let numbers = shapes.numbers@;
    if node.name == "LINE"@ {
        match (node.field("pvec"@), node.field("direction"@)) {
            (Some(ValueView::Vec3(p)), Some(ValueView::Vec3(d))) => is_line(e, numbers, id, p, d),
            _ => false,
        }
    } else if node.name == "CIRCLE"@ {
        match (
            node.field("centre"@),
            node.field("normal"@),
            node.field("x_axis"@),
            node.field("radius"@),
        ) {
            (
                Some(ValueView::Vec3(c)),
                Some(ValueView::Vec3(n)),
                Some(ValueView::Vec3(x)),
                Some(ValueView::F64(r)),
            ) => is_placed(e, numbers, id, "CIRCLE"@, c, n, x, ","@ + numeral(numbers, r)),
            _ => false,
        }
    } else if node.name == "ELLIPSE"@ {
        match (
            node.field("centre"@),
            node.field("normal"@),
            node.field("x_axis"@),
            node.field("major_radius"@),
            node.field("minor_radius"@),
        ) {
            (
                Some(ValueView::Vec3(c)),
                Some(ValueView::Vec3(n)),
                Some(ValueView::Vec3(x)),
                Some(ValueView::F64(r1)),
                Some(ValueView::F64(r2)),
            ) => is_placed(
                e,
                numbers,
                id,
                "ELLIPSE"@,
                c,
                n,
                x,
                ","@ + numeral(numbers, r1) + (","@ + numeral(numbers, r2)),
            ),
            _ => false,
        }
    } else {
        is_polyline(e, numbers, id, shapes.curves@[node.id])
    }
}

/// The node says all that its curve takes, and there is room to write it.
pub open spec fn curve_is_given(e: Seq<Seq<char>>, shapes: Shapes, node: NodeView) -> bool {
    if node.name == "LINE"@ {
        &&& room(e, 4)
        &&& node.field("pvec"@) is Some && node.field("pvec"@)->0 is Vec3
        &&& node.field("direction"@) is Some && node.field("direction"@)->0 is Vec3
    } else if node.name == "CIRCLE"@ {
        &&& room(e, 5)
        &&& node.field("centre"@) is Some && node.field("centre"@)->0 is Vec3
        &&& node.field("normal"@) is Some && node.field("normal"@)->0 is Vec3
        &&& node.field("x_axis"@) is Some && node.field("x_axis"@)->0 is Vec3
        &&& node.field("radius"@) is Some && node.field("radius"@)->0 is F64
    } else if node.name == "ELLIPSE"@ {
        &&& room(e, 5)
        &&& node.field("centre"@) is Some && node.field("centre"@)->0 is Vec3
        &&& node.field("normal"@) is Some && node.field("normal"@)->0 is Vec3
        &&& node.field("x_axis"@) is Some && node.field("x_axis"@)->0 is Vec3
        &&& node.field("major_radius"@) is Some && node.field("major_radius"@)->0 is F64
        &&& node.field("minor_radius"@) is Some && node.field("minor_radius"@)->0 is F64
    } else {
        &&& shapes.curves@.contains_key(node.id)
        &&& shapes.curves@[node.id].points@.len() >= 2
        &&& room(e, shapes.curves@[node.id].points@.len() + 1int)
    }
}

/// Points are written in their order, each under the next name.
proof fn lemma_points(
    w: WriterView,
    e: Seq<Seq<char>>,
    numbers: Map<u64, String>,
    pts: Seq<Point>,
) -> (r: Seq<Seq<char>>)
    requires
        holds(w, e),
        room(e, pts.len() as int),
    ensures
        goes_on(e, r),
        r.len() == e.len() + pts.len(),
        holds(w.carts(numbers, pts), r),
        w.cart_ids(numbers, pts).len() == pts.len(),
        lead_to(r, numbers, w.cart_ids(numbers, pts).map_values(|i: u64| i as int), pts),
        forall|i: int|
            0 <= i < pts.len() ==> #[trigger] w.cart_ids(numbers, pts)[i] == e.len() + i + 1,
    decreases pts.len(),
{
    if pts.len() == 0 {
        e
    } else {
        let few = pts.drop_last();
        let before = lemma_points(w, e, numbers, few);
        let at = w.carts(numbers, few);
        let s = "CARTESIAN_POINT('',"@ + bracketed(numerals(numbers, pts.last()@)) + ")"@;
        lemma_point(at, before, numbers, pts.last()@);
        let r = before.push(s);
        lemma_goes_on(before, r);
        let ids = w.cart_ids(numbers, pts).map_values(|i: u64| i as int);
        let earlier = w.cart_ids(numbers, few).map_values(|i: u64| i as int);
        assert forall|i: int| 0 <= i < pts.len() implies is_point(
            r,
            numbers,
            #[trigger] ids[i],
            pts[i]@,
        ) by {
            if i < few.len() {
                assert(is_point(before, numbers, earlier[i], few[i]@));
                assert(ids[i] == earlier[i]);
            }
        }
        r
    }
}

pub(crate) proof fn lemma_names(ids: Seq<u64>)
    ensures
        super::writer::ref_list(ids) == names_of(ids.map_values(|i: u64| i as int)),
{
    lemma_refs(ids);
    let a = ids.map_values(|i: u64| name_of(i as int));
    let b = ids.map_values(|i: u64| i as int).map_values(|i: int| name_of(i));
    assert(a =~= b);
}

proof fn lemma_ends(n: nat)
    ensures
        super::writer::int_list(end_mults(n)) == bracketed(twice_at_the_ends(n)),
{
    lemma_integers(end_mults(n));
    let parts = end_mults(n).map_values(|i: usize| decimal(i as nat));
    assert forall|i: int| 0 <= i < n implies parts[i] == twice_at_the_ends(n)[i] by {
        assert(decimal(1) =~= seq!['1']);
        assert(decimal(2) =~= seq!['2']);
    }
    assert(parts =~= twice_at_the_ends(n));
}

/// A sampled curve reads back as the line of straight pieces through its points.
/// Fewer than two points make none.
pub proof fn lemma_polylines_read_back(
    w: WriterView,
    e: Seq<Seq<char>>,
    numbers: Map<u64, String>,
    line: Polyline,
) -> (r: Seq<Seq<char>>)
    requires
        holds(w, e),
        room(e, line.points@.len() + 1int),
    ensures
        ({
            let (after, ok) = polyline_written(w, numbers, line);
            &&& ok == (line.points@.len() >= 2)
            &&& goes_on(e, r)
            &&& holds(after, r)
            &&& ok ==> is_polyline(r, numbers, after.n as int, line)
        }),
{
    if line.points@.len() < 2 {
        e
    } else {
        let before = lemma_points(w, e, numbers, line.points@);
        let ids = w.cart_ids(numbers, line.points@);
        lemma_names(ids);
        lemma_ends(line.points@.len());
        lemma_reals(numbers, line.knots@);
        let named = ids.map_values(|i: u64| i as int);
        let s = "B_SPLINE_CURVE_WITH_KNOTS('',1,"@ + names_of(named)
            + ",.POLYLINE_FORM.,.F.,.F.,"@ + bracketed(twice_at_the_ends(line.points@.len()))
            + ","@ + bracketed(numerals(numbers, line.knots@)) + ",.UNSPECIFIED.)"@;
        lemma_entity(w.carts(numbers, line.points@), before, s);
        let r = before.push(s);
        lemma_goes_on(before, r);
        assert(lead_to(r, numbers, named, line.points@)) by {
            assert forall|i: int| 0 <= i < named.len() implies is_point(
                r,
                numbers,
                #[trigger] named[i],
                line.points@[i]@,
            ) by {
                assert(is_point(before, numbers, named[i], line.points@[i]@));
            }
        }
        r
    }
}

proof fn lemma_curve_names()
    ensures
        "CIRCLE"@ != "LINE"@,
        "ELLIPSE"@ != "LINE"@ && "ELLIPSE"@ != "CIRCLE"@,
{
    reveal_strlit("LINE");
    reveal_strlit("CIRCLE");
    reveal_strlit("ELLIPSE");
    assert("LINE"@.len() == 4 && "CIRCLE"@.len() == 6 && "ELLIPSE"@.len() == 7);
}

/// A line is written so that it reads back.
proof fn lemma_line(
    w: WriterView,
    e: Seq<Seq<char>>,
    numbers: Map<u64, String>,
    p: Seq<u64>,
    d: Seq<u64>,
    after: WriterView,
) -> (r: Seq<Seq<char>>)
    requires
        holds(w, e),
        room(e, 4),
        after == ({
            let c = w.cart(numbers, p);
            let dd = c.dir(numbers, d);
            let v = dd.entity("VECTOR('',"@ + name_of(dd.n as int) + ",1.0)"@);
            v.entity("LINE('',"@ + name_of(c.n as int) + ","@ + name_of(v.n as int) + ")"@)
        }),
    ensures
        goes_on(e, r),
        holds(after, r),
        r.len() == e.len() + 4,
        is_line(r, numbers, after.n as int, p, d),
{
    let n = e.len() as int;
    let e1 = e.push("CARTESIAN_POINT('',"@ + bracketed(numerals(numbers, p)) + ")"@);
    let e2 = e1.push("DIRECTION('',"@ + bracketed(numerals(numbers, d)) + ")"@);
    let s3 = "VECTOR('',"@ + name_of(n + 2) + ",1.0)"@;
    let s4 = "LINE('',"@ + name_of(n + 1) + ","@ + name_of(n + 3) + ")"@;
    let c = w.cart(numbers, p);
    let dd = c.dir(numbers, d);
    lemma_point(w, e, numbers, p);
    lemma_direction(c, e1, numbers, d);
    lemma_entity(dd, e2, s3);
    lemma_entity(dd.entity(s3), e2.push(s3), s4);
    let r = e2.push(s3).push(s4);
    assert(is_point(r, numbers, n + 1, p));
    assert(is_direction(r, numbers, n + 2, d));
    assert(says(r, n + 3, s3));
    assert(is_vector(r, numbers, n + 3, d));
    assert(says(r, n + 4, s4));
    r
}

/// A circle is written so that it reads back.
proof fn lemma_circle(
    w: WriterView,
    e: Seq<Seq<char>>,
    numbers: Map<u64, String>,
    c: Seq<u64>,
    n: Seq<u64>,
    x: Seq<u64>,
    radius: Seq<char>,
    after: WriterView,
) -> (r: Seq<Seq<char>>)
    requires
        holds(w, e),
        room(e, 5),
        after == ({
            let ax = w.ax2(numbers, c, n, x);
            ax.entity("CIRCLE('',"@ + name_of(ax.n as int) + ","@ + radius + ")"@)
        }),
    ensures
        goes_on(e, r),
        holds(after, r),
        is_placed(r, numbers, after.n as int, "CIRCLE"@, c, n, x, ","@ + radius),
{
    let ax = name_of(w.ax2(numbers, c, n, x).n as int);
    let size = ","@ + radius;
    lemma_kind("CIRCLE"@, "CIRCLE('',"@, ax, size);
    assert("CIRCLE('',"@ + ax + ","@ + radius + ")"@ =~= "CIRCLE('',"@ + ax + size + ")"@);
    lemma_placed(w, e, numbers, c, n, x, "CIRCLE"@, size, after)
}

/// An ellipse is written so that it reads back.
proof fn lemma_ellipse(
    w: WriterView,
    e: Seq<Seq<char>>,
    numbers: Map<u64, String>,
    c: Seq<u64>,
    n: Seq<u64>,
    x: Seq<u64>,
    r1: Seq<char>,
    r2: Seq<char>,
    after: WriterView,
) -> (r: Seq<Seq<char>>)
    requires
        holds(w, e),
        room(e, 5),
        after == ({
            let ax = w.ax2(numbers, c, n, x);
            ax.entity("ELLIPSE('',"@ + name_of(ax.n as int) + ","@ + r1 + ","@ + r2 + ")"@)
        }),
    ensures
        goes_on(e, r),
        holds(after, r),
        is_placed(r, numbers, after.n as int, "ELLIPSE"@, c, n, x, ","@ + r1 + (","@ + r2)),
{
    let ax = name_of(w.ax2(numbers, c, n, x).n as int);
    let size = ","@ + r1 + (","@ + r2);
    lemma_kind("ELLIPSE"@, "ELLIPSE('',"@, ax, size);
    assert("ELLIPSE('',"@ + ax + ","@ + r1 + ","@ + r2 + ")"@ =~= "ELLIPSE('',"@ + ax + size
        + ")"@);
    lemma_placed(w, e, numbers, c, n, x, "ELLIPSE"@, size, after)
}

/// Every curve reads back as the node describes it.
pub proof fn lemma_curves_read_back(
    w: WriterView,
    e: Seq<Seq<char>>,
    shapes: Shapes,
    node: NodeView,
) -> (r: Seq<Seq<char>>)
    requires
        holds(w, e),
        curve_is_given(e, shapes, node),
    ensures
        ({
            let (after, ok) = curve_written(w, shapes, node);
            &&& ok
            &&& goes_on(e, r)
            &&& holds(after, r)
            &&& is_curve(r, shapes, after.n as int, node)
        }),
{
    lemma_curve_names();
    let numbers = shapes.numbers@;
    let after = curve_written(w, shapes, node).0;
    if node.name == "LINE"@ {
        lemma_line(
            w,
            e,
            numbers,
            node.field("pvec"@)->0->Vec3_0,
            node.field("direction"@)->0->Vec3_0,
            after,
        )
    } else if node.name == "CIRCLE"@ {
        lemma_circle(
            w,
            e,
            numbers,
            node.field("centre"@)->0->Vec3_0,
            node.field("normal"@)->0->Vec3_0,
            node.field("x_axis"@)->0->Vec3_0,
            numeral(numbers, node.field("radius"@)->0->F64_0),
            after,
        )
    } else if node.name == "ELLIPSE"@ {
        lemma_ellipse(
            w,
            e,
            numbers,
            node.field("centre"@)->0->Vec3_0,
            node.field("normal"@)->0->Vec3_0,
            node.field("x_axis"@)->0->Vec3_0,
            numeral(numbers, node.field("major_radius"@)->0->F64_0),
            numeral(numbers, node.field("minor_radius"@)->0->F64_0),
            after,
        )
    } else {
        lemma_polylines_read_back(w, e, numbers, shapes.curves@[node.id])
    }
}

proof fn lemma_kind(kind: Seq<char>, head: Seq<char>, name: Seq<char>, size: Seq<char>)
    requires
        kind == "CIRCLE"@ && head == "CIRCLE('',"@ || kind == "ELLIPSE"@ && head == "ELLIPSE('',"@,
    ensures
        kind + "('',"@ + name + size + ")"@ == head + name + size + ")"@,
{
    reveal_strlit("CIRCLE");
    reveal_strlit("CIRCLE('',");
    reveal_strlit("ELLIPSE");
    reveal_strlit("ELLIPSE('',");
    reveal_strlit("('',");
    assert(kind + "('',"@ =~= head);
}

/// A curve still reads as it did when more is written.
proof fn lemma_curve_stays(
    a: Seq<Seq<char>>,
    b: Seq<Seq<char>>,
    shapes: Shapes,
    id: int,
    node: NodeView,
)
    requires
        goes_on(a, b),
        is_curve(a, shapes, id, node),
    ensures
        is_curve(b, shapes, id, node),
{
    lemma_goes_on(a, b);
    let numbers = shapes.numbers@;
    if node.name == "LINE"@ {
        let p = node.field("pvec"@)->0->Vec3_0;
        let d = node.field("direction"@)->0->Vec3_0;
        let (c, v) = choose|c: int, v: int|
            #![trigger name_of(c), name_of(v)]
            {
                &&& says(a, id, "LINE('',"@ + name_of(c) + ","@ + name_of(v) + ")"@)
                &&& is_point(a, numbers, c, p)
                &&& is_vector(a, numbers, v, d)
            };
        let u = choose|u: int|
            #![trigger name_of(u)]
            says(a, v, "VECTOR('',"@ + name_of(u) + ",1.0)"@) && is_direction(a, numbers, u, d);
        assert(is_direction(b, numbers, u, d));
        assert(is_vector(b, numbers, v, d));
        assert(is_point(b, numbers, c, p));
    } else if node.name == "CIRCLE"@ || node.name == "ELLIPSE"@ {
        let c = node.field("centre"@)->0->Vec3_0;
        let n = node.field("normal"@)->0->Vec3_0;
        let x = node.field("x_axis"@)->0->Vec3_0;
        lemma_placed_stays(a, b, numbers, id, c, n, x);
    } else {
        let line = shapes.curves@[node.id];
        let ids = choose|ids: Seq<int>|
            {
                &&& #[trigger] lead_to(a, numbers, ids, line.points@)
                &&& says(
                    a,
                    id,
                    "B_SPLINE_CURVE_WITH_KNOTS('',1,"@ + names_of(ids)
                        + ",.POLYLINE_FORM.,.F.,.F.,"@ + bracketed(
                        twice_at_the_ends(line.points@.len()),
                    ) + ","@ + bracketed(numerals(numbers, line.knots@)) + ",.UNSPECIFIED.)"@,
                )
            };
        assert(lead_to(b, numbers, ids, line.points@)) by {
            assert forall|i: int| 0 <= i < ids.len() implies is_point(
                b,
                numbers,
                #[trigger] ids[i],
                line.points@[i]@,
            ) by {
                assert(is_point(a, numbers, ids[i], line.points@[i]@));
            }
        }
    }
}

proof fn lemma_placed_stays(
    a: Seq<Seq<char>>,
    b: Seq<Seq<char>>,
    numbers: Map<u64, String>,
    id: int,
    origin: Seq<u64>,
    axis: Seq<u64>,
    x: Seq<u64>,
)
    requires
        goes_on(a, b),
    ensures
        forall|kind: Seq<char>, sizes: Seq<char>| #[trigger]
            is_placed(a, numbers, id, kind, origin, axis, x, sizes) ==> is_placed(
                b,
                numbers,
                id,
                kind,
                origin,
                axis,
                x,
                sizes,
            ),
{
    lemma_goes_on(a, b);
    assert forall|kind: Seq<char>, sizes: Seq<char>| #[trigger]
        is_placed(a, numbers, id, kind, origin, axis, x, sizes) implies is_placed(
        b,
        numbers,
        id,
        kind,
        origin,
        axis,
        x,
        sizes,
    ) by {
        let ax = choose|ax: int|
            #![trigger name_of(ax)]
            says(a, id, kind + "('',"@ + name_of(ax) + sizes + ")"@) && is_placement(
                a,
                numbers,
                ax,
                origin,
                axis,
                x,
            );
        let (c, z, d) = choose|c: int, z: int, d: int|
            #![trigger name_of(c), name_of(z), name_of(d)]
            {
                &&& says(
                    a,
                    ax,
                    "AXIS2_PLACEMENT_3D('',"@ + name_of(c) + ","@ + name_of(z) + ","@ + name_of(d)
                        + ")"@,
                )
                &&& is_point(a, numbers, c, origin)
                &&& is_direction(a, numbers, z, axis)
                &&& is_direction(a, numbers, d, x)
            };
        assert(is_point(b, numbers, c, origin));
        assert(is_direction(b, numbers, z, axis));
        assert(is_direction(b, numbers, d, x));
        assert(is_placement(b, numbers, ax, origin, axis, x));
    }
}

// ---- surfaces that hang from others ----

/// A swept surface reads back as the extrusion of its section along its sweep.
pub proof fn lemma_swept_surfaces_read_back(
    w: WriterView,
    e: Seq<Seq<char>>,
    shapes: Shapes,
    g: GraphView,
    face: NodeId,
    node: NodeView,
    depth: nat,
    section: NodeView,
    d: Seq<u64>,
) -> (r: Seq<Seq<char>>)
    requires
        holds(w, e),
        node.name == "SWEPT_SURF"@,
        g.follow(node, "section"@) == Some(section),
        node.field("sweep"@) == Some(ValueView::Vec3(d)),
        curve_is_given(e, shapes, section),
        curve_written(w, shapes, section).0.n + 3 <= u64::MAX,
    ensures
        ({
            let (after, ok) = surface_written(w, shapes, g, face, node, depth);
            &&& ok
            &&& goes_on(e, r)
            &&& holds(after, r)
            &&& exists|c: int, v: int|
                #![trigger name_of(c), name_of(v)]
                {
                    &&& says(
                        r,
                        after.n as int,
                        "SURFACE_OF_LINEAR_EXTRUSION('',"@ + name_of(c) + ","@ + name_of(v) + ")"@,
                    )
                    &&& is_curve(r, shapes, c, section)
                    &&& is_vector(r, shapes.numbers@, v, d)
                }
        }),
{
    lemma_surface_names();
    let numbers = shapes.numbers@;
    let e0 = lemma_curves_read_back(w, e, shapes, section);
    let c = curve_written(w, shapes, section).0;
    let n = e0.len() as int;
    let s1 = "DIRECTION('',"@ + bracketed(numerals(numbers, d)) + ")"@;
    let s2 = "VECTOR('',"@ + name_of(n + 1) + ",1.0)"@;
    let s3 = "SURFACE_OF_LINEAR_EXTRUSION('',"@ + name_of(n) + ","@ + name_of(n + 2) + ")"@;
    lemma_direction(c, e0, numbers, d);
    let dd = c.dir(numbers, d);
    lemma_entity(dd, e0.push(s1), s2);
    lemma_entity(dd.entity(s2), e0.push(s1).push(s2), s3);
    let r = e0.push(s1).push(s2).push(s3);
    assert(goes_on(e0, r));
    lemma_curve_stays(e0, r, shapes, n, section);
    assert(is_direction(r, numbers, n + 1, d));
    assert(says(r, n + 2, s2));
    assert(is_vector(r, numbers, n + 2, d));
    assert(says(r, n + 3, s3));
    r
}

/// A spun surface reads back as its profile turned about its axis, which goes
/// through its base point: the one called `base`, or else the one called `pvec`.
pub proof fn lemma_spun_surfaces_read_back(
    w: WriterView,
    e: Seq<Seq<char>>,
    shapes: Shapes,
    g: GraphView,
    face: NodeId,
    node: NodeView,
    depth: nat,
    profile: NodeView,
    p: Seq<u64>,
    a: Seq<u64>,
) -> (r: Seq<Seq<char>>)
    requires
        holds(w, e),
        node.name == "SPUN_SURF"@,
        g.follow(node, "profile"@) == Some(profile),
        node.field("base"@) == Some(ValueView::Vec3(p)) || node.field("base"@) is None
            && node.field("pvec"@) == Some(ValueView::Vec3(p)),
        node.field("axis"@) == Some(ValueView::Vec3(a)),
        curve_is_given(e, shapes, profile),
        curve_written(w, shapes, profile).0.n + 4 <= u64::MAX,
    ensures
        ({
            let (after, ok) = surface_written(w, shapes, g, face, node, depth);
            &&& ok
            &&& goes_on(e, r)
            &&& holds(after, r)
            &&& exists|c: int, o: int, z: int, ax: int|
                #![trigger name_of(c), name_of(o), name_of(z), name_of(ax)]
                {
                    &&& says(
                        r,
                        after.n as int,
                        "SURFACE_OF_REVOLUTION('',"@ + name_of(c) + ","@ + name_of(ax) + ")"@,
                    )
                    &&& is_curve(r, shapes, c, profile)
                    &&& says(
                        r,
                        ax,
                        "AXIS1_PLACEMENT('',"@ + name_of(o) + ","@ + name_of(z) + ")"@,
                    )
                    &&& is_point(r, shapes.numbers@, o, p)
                    &&& is_direction(r, shapes.numbers@, z, a)
                }
        }),
{
    lemma_surface_names();
    let numbers = shapes.numbers@;
    let e0 = lemma_curves_read_back(w, e, shapes, profile);
    let curve = curve_written(w, shapes, profile).0;
    let n = e0.len() as int;
    let s1 = "CARTESIAN_POINT('',"@ + bracketed(numerals(numbers, p)) + ")"@;
    let s2 = "DIRECTION('',"@ + bracketed(numerals(numbers, a)) + ")"@;
    let s3 = "AXIS1_PLACEMENT('',"@ + name_of(n + 1) + ","@ + name_of(n + 2) + ")"@;
    let s4 = "SURFACE_OF_REVOLUTION('',"@ + name_of(n) + ","@ + name_of(n + 3) + ")"@;
    lemma_point(curve, e0, numbers, p);
    let c = curve.cart(numbers, p);
    lemma_direction(c, e0.push(s1), numbers, a);
    let dz = c.dir(numbers, a);
    lemma_entity(dz, e0.push(s1).push(s2), s3);
    lemma_entity(dz.entity(s3), e0.push(s1).push(s2).push(s3), s4);
    let r = e0.push(s1).push(s2).push(s3).push(s4);
    assert(goes_on(e0, r));
    lemma_curve_stays(e0, r, shapes, n, profile);
    assert(is_point(r, numbers, n + 1, p));
    assert(is_direction(r, numbers, n + 2, a));
    assert(says(r, n + 3, s3));
    assert(says(r, n + 4, s4));
    r
}

/// An offset surface reads back as the offset of the surface that it hangs from,
/// by its own offset, or by the opposite one where its sense is negative. Where
/// the surface that it hangs from is not written, neither is it.
pub proof fn lemma_offset_surfaces_read_back(
    w: WriterView,
    e: Seq<Seq<char>>,
    shapes: Shapes,
    g: GraphView,
    face: NodeId,
    node: NodeView,
    depth: nat,
    base: NodeView,
    offset: u64,
)
    requires
        node.name == "OFFSET_SURF"@,
        depth > 0,
        g.follow(node, "surface"@) == Some(base),
        node.field("offset"@) == Some(ValueView::F64(offset)),
        holds(surface_written(w, shapes, g, face, base, (depth - 1) as nat).0, e),
        room(e, 1),
    ensures
        ({
            let under = surface_written(w, shapes, g, face, base, (depth - 1) as nat);
            let (after, ok) = surface_written(w, shapes, g, face, node, depth);
            &&& ok == under.1
            &&& !ok ==> after == under.0
            &&& ok ==> exists|o: u64|
                {
                    let s = "OFFSET_SURFACE('',"@ + name_of(e.len() as int) + (","@
                        + #[trigger] numeral(shapes.numbers@, o)) + ",.F.)"@;
                    &&& holds(after, e.push(s))
                    &&& match node.field("sense"@) {
                        Some(ValueView::Char(t)) => if t.len() > 0 && t[0] == '-' {
                            opposite(offset, o)
                        } else {
                            o == offset
                        },
                        None => o == offset,
                        _ => true,
                    }
                }
        }),
{
    let under = surface_written(w, shapes, g, face, base, (depth - 1) as nat);
    if under.1 {
        let o = if node.positive() {
            offset
        } else {
            crate::geometry::negated(offset)
        };
        let text = numeral(shapes.numbers@, o);
        let s = "OFFSET_SURFACE('',"@ + name_of(e.len() as int) + (","@ + text) + ",.F.)"@;
        lemma_entity(under.0, e, s);
        let after = surface_written(w, shapes, g, face, node, depth).0;
        assert(holds(after, e.push(s)));
    }
}

// ---- control nets ----

/// The names lead to the points of rows, row by row.
pub open spec fn rows_lead_to(
    e: Seq<Seq<char>>,
    numbers: Map<u64, String>,
    ids: Seq<Seq<int>>,
    rows: Seq<Vec<Point>>,
) -> bool {
    &&& ids.len() == rows.len()
    &&& forall|i: int| 0 <= i < rows.len() ==> lead_to(e, numbers, #[trigger] ids[i], rows[i]@)
}

/// Lists of names, with commas between them.
pub open spec fn lists_of_names(ids: Seq<Seq<int>>) -> Seq<char> {
    joined(ids.map_values(|r: Seq<int>| names_of(r)))
}

/// How many points rows have.
pub open spec fn points_in(rows: Seq<Vec<Point>>) -> int
    decreases rows.len(),
{
    if rows.len() == 0 {
        0
    } else {
        points_in(rows.drop_last()) + rows.last()@.len()
    }
}

proof fn lemma_rows(
    w: WriterView,
    e: Seq<Seq<char>>,
    numbers: Map<u64, String>,
    rows: Seq<Vec<Point>>,
) -> (r: (Seq<Seq<char>>, Seq<Seq<int>>))
    requires
        holds(w, e),
        room(e, points_in(rows)),
    ensures
        goes_on(e, r.0),
        r.0.len() == e.len() + points_in(rows),
        holds(rows_written(w, numbers, rows), r.0),
        rows_lead_to(r.0, numbers, r.1, rows),
        row_lists(w, numbers, rows) == lists_of_names(r.1),
    decreases rows.len(),
{
    if rows.len() == 0 {
        let ids = Seq::<Seq<int>>::empty();
        assert(ids.map_values(|r: Seq<int>| names_of(r)).len() == 0);
        (e, ids)
    } else {
        let few = rows.drop_last();
        let (before, earlier) = lemma_rows(w, e, numbers, few);
        let at = rows_written(w, numbers, few);
        let last = rows.last()@;
        let r = lemma_points(at, before, numbers, last);
        let row = at.cart_ids(numbers, last).map_values(|i: u64| i as int);
        lemma_names(at.cart_ids(numbers, last));
        let ids = earlier.push(row);
        lemma_goes_on(before, r);
        assert forall|i: int| 0 <= i < rows.len() implies lead_to(
            r,
            numbers,
            #[trigger] ids[i],
            rows[i]@,
        ) by {
            if i < few.len() {
                assert(lead_to(before, numbers, earlier[i], few[i]@));
                assert forall|k: int| 0 <= k < few[i]@.len() implies is_point(
                    r,
                    numbers,
                    #[trigger] ids[i][k],
                    rows[i]@[k]@,
                ) by {
                    assert(is_point(before, numbers, earlier[i][k], few[i]@[k]@));
                }
            }
        }
        let parts = ids.map_values(|r: Seq<int>| names_of(r));
        assert(parts.drop_last() =~= earlier.map_values(|r: Seq<int>| names_of(r)));
        assert(parts.last() == names_of(row));
        if rows.len() == 1 {
            assert(parts[0] == names_of(row));
            assert(Seq::<char>::empty() + parts[0] =~= parts[0]);
        }
        (r, ids)
    }
}

/// Lists of numbers, with commas between them.
pub open spec fn lists_of_numerals(numbers: Map<u64, String>, rows: Seq<Vec<u64>>) -> Seq<char> {
    joined(rows.map_values(|r: Vec<u64>| bracketed(numerals(numbers, r@))))
}

proof fn lemma_weights(numbers: Map<u64, String>, rows: Seq<Vec<u64>>)
    ensures
        weight_lists(numbers, rows) == lists_of_numerals(numbers, rows),
    decreases rows.len(),
{
    let parts = rows.map_values(|r: Vec<u64>| bracketed(numerals(numbers, r@)));
    if rows.len() > 0 {
        lemma_weights(numbers, rows.drop_last());
        lemma_reals(numbers, rows.last()@);
        assert(parts.drop_last() =~= rows.drop_last().map_values(
            |r: Vec<u64>| bracketed(numerals(numbers, r@)),
        ));
        assert(parts.last() == bracketed(numerals(numbers, rows.last()@)));
        if rows.len() == 1 {
            assert(Seq::<char>::empty() + parts[0] =~= parts[0]);
        }
    }
}

/// Whole numbers in brackets.
pub open spec fn counts(xs: Seq<usize>) -> Seq<char> {
    bracketed(xs.map_values(|i: usize| decimal(i as nat)))
}

/// The repeats and the knots of a surface: the repeats in both directions, then
/// the knots in both.
pub open spec fn knots_text(
    numbers: Map<u64, String>,
    um: Seq<char>,
    vm: Seq<char>,
    uk: Seq<u64>,
    vk: Seq<u64>,
) -> Seq<char> {
    um + ","@ + vm + ","@ + bracketed(numerals(numbers, uk)) + ","@ + bracketed(
        numerals(numbers, vk),
    )
}

/// The text of a net of control points without weights.
pub open spec fn net_text(u: nat, v: nat, ids: Seq<Seq<int>>, knots: Seq<char>) -> Seq<char> {
    "B_SPLINE_SURFACE_WITH_KNOTS('',"@ + decimal(u) + ","@ + decimal(v) + ",("@ + lists_of_names(
        ids,
    ) + "),.UNSPECIFIED.,.F.,.F.,.F.,"@ + knots + ",.UNSPECIFIED.)"@
}

/// A complete control net reads back: its degrees, its points row by row, its
/// repeats and knots in either direction, and the weights of a rational one.
pub proof fn lemma_nets_read_back(
    w: WriterView,
    e: Seq<Seq<char>>,
    shapes: Shapes,
    g: GraphView,
    face: NodeId,
    node: NodeView,
    depth: nat,
    net: Net,
) -> (r: (Seq<Seq<char>>, Seq<Seq<int>>))
    requires
        holds(w, e),
        node.name == "B_SURFACE"@,
        shapes.nets@.contains_key(node.id),
        shapes.nets@[node.id] == net,
        net.complete,
        room(e, points_in(net.rows@) + 1),
    ensures
        ({
            let (after, ok) = surface_written(w, shapes, g, face, node, depth);
            let numbers = shapes.numbers@;
            let knots = knots_text(
                numbers,
                counts(net.u_mults@),
                counts(net.v_mults@),
                net.u_knots@,
                net.v_knots@,
            );
            &&& ok
            &&& goes_on(e, r.0)
            &&& holds(after, r.0)
            &&& rows_lead_to(r.0, numbers, r.1, net.rows@)
            &&& !net.rational ==> says(
                r.0,
                after.n as int,
                net_text(net.u_degree as nat, net.v_degree as nat, r.1, knots),
            )
            &&& net.rational ==> says(
                r.0,
                after.n as int,
                "(BOUNDED_SURFACE()B_SPLINE_SURFACE("@ + decimal(net.u_degree as nat) + ","@
                    + decimal(net.v_degree as nat) + ",("@ + lists_of_names(r.1)
                    + "),.UNSPECIFIED.,.F.,.F.,.F.)B_SPLINE_SURFACE_WITH_KNOTS("@ + knots
                    + ",.UNSPECIFIED.)GEOMETRIC_REPRESENTATION_ITEM()RATIONAL_B_SPLINE_SURFACE(("@
                    + lists_of_numerals(numbers, net.weights@)
                    + "))REPRESENTATION_ITEM('')SURFACE())"@,
            )
        }),
{
    lemma_surface_names();
    let numbers = shapes.numbers@;
    let (before, ids) = lemma_rows(w, e, numbers, net.rows@);
    lemma_weights(numbers, net.weights@);
    lemma_reals(numbers, net.u_knots@);
    lemma_reals(numbers, net.v_knots@);
    lemma_integers(net.u_mults@);
    lemma_integers(net.v_mults@);
    let knots = knots_text(
        numbers,
        counts(net.u_mults@),
        counts(net.v_mults@),
        net.u_knots@,
        net.v_knots@,
    );
    assert(knots == super::surface::knot_lists(
        numbers,
        net.u_mults@,
        net.v_mults@,
        net.u_knots@,
        net.v_knots@,
    ));
    let s = if net.rational {
        super::surface::weighted_net(
            net.u_degree,
            net.v_degree,
            lists_of_names(ids),
            knots,
            lists_of_numerals(numbers, net.weights@),
        )
    } else {
        net_text(net.u_degree as nat, net.v_degree as nat, ids, knots)
    };
    lemma_entity(rows_written(w, numbers, net.rows@), before, s);
    let r = before.push(s);
    lemma_rows_stay(before, r, numbers, ids, net.rows@);
    (r, ids)
}

proof fn lemma_rows_stay(
    a: Seq<Seq<char>>,
    b: Seq<Seq<char>>,
    numbers: Map<u64, String>,
    ids: Seq<Seq<int>>,
    rows: Seq<Vec<Point>>,
)
    requires
        goes_on(a, b),
        rows_lead_to(a, numbers, ids, rows),
    ensures
        rows_lead_to(b, numbers, ids, rows),
{
    lemma_goes_on(a, b);
    assert forall|i: int| 0 <= i < rows.len() implies lead_to(
        b,
        numbers,
        #[trigger] ids[i],
        rows[i]@,
    ) by {
        assert(lead_to(a, numbers, ids[i], rows[i]@));
        assert forall|k: int| 0 <= k < rows[i]@.len() implies is_point(
            b,
            numbers,
            #[trigger] ids[i][k],
            rows[i]@[k]@,
        ) by {
            assert(is_point(a, numbers, ids[i][k], rows[i]@[k]@));
        }
    }
}

/// The whole numbers from zero on, as knots.
pub open spec fn steps(n: nat) -> Seq<u64> {
    Seq::new(n, |i: int| of_int(i))
}

/// A surface of no type that STEP has reads back as the net of straight pieces
/// through its points, row by row: 25 rows of nine.
pub proof fn lemma_sampled_surfaces_read_back(
    w: WriterView,
    e: Seq<Seq<char>>,
    shapes: Shapes,
    g: GraphView,
    face: NodeId,
    node: NodeView,
    depth: nat,
) -> (r: (Seq<Seq<char>>, Seq<Seq<int>>))
    requires
        holds(w, e),
        node.name != "PLANE"@ && node.name != "CYLINDER"@ && node.name != "CONE"@,
        node.name != "SPHERE"@ && node.name != "TORUS"@ && node.name != "SWEPT_SURF"@,
        node.name != "SPUN_SURF"@ && node.name != "B_SURFACE"@ && node.name != "OFFSET_SURF"@,
        shapes.grids@.contains_key(face),
        room(e, points_in(shapes.grids@[face]@) + 1),
    ensures
        ({
            let (after, ok) = surface_written(w, shapes, g, face, node, depth);
            let numbers = shapes.numbers@;
            let knots = knots_text(
                numbers,
                bracketed(twice_at_the_ends(25)),
                bracketed(twice_at_the_ends(9)),
                steps(25),
                steps(9),
            );
            &&& ok
            &&& goes_on(e, r.0)
            &&& holds(after, r.0)
            &&& rows_lead_to(r.0, numbers, r.1, shapes.grids@[face]@)
            &&& says(r.0, after.n as int, net_text(1, 1, r.1, knots))
        }),
{
    let numbers = shapes.numbers@;
    let rows = shapes.grids@[face]@;
    let (before, ids) = lemma_rows(w, e, numbers, rows);
    lemma_ends(25);
    lemma_ends(9);
    lemma_reals(numbers, steps(25));
    lemma_reals(numbers, steps(9));
    assert(super::surface::counting(25) =~= steps(25));
    assert(super::surface::counting(9) =~= steps(9));
    let knots = knots_text(
        numbers,
        bracketed(twice_at_the_ends(25)),
        bracketed(twice_at_the_ends(9)),
        steps(25),
        steps(9),
    );
    let s = net_text(1, 1, ids, knots);
    lemma_entity(rows_written(w, numbers, rows), before, s);
    let r = before.push(s);
    lemma_rows_stay(before, r, numbers, ids, rows);
    (r, ids)
}

} // verus!
