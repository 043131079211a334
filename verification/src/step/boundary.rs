//! The boundaries of faces read back: vertices, edges, the loops that run along
//! them, and the faces and shells that they bound.

use vstd::prelude::*;

use super::export::{
    anchor, bound_written, circuit, course, edge_written, face_on, file_written, is_solid,
    loops_written,
    oriented, oriented_ids, pair_written, shape_written, vertex_written, BodyView, EdgeEntity,
    PlanView, SharedView,
};
use super::readback::{
    goes_on, holds, is_direction, is_placement, is_point, is_polyline, lemma_entity, lemma_goes_on,
    lemma_names, lemma_placement, lemma_point, lemma_polylines_read_back, name_of, names_of, room,
    says,
};
use super::rims::{gap_at, joinable, partner_of, steps_along, Winding};
use super::surface::{polyline_written, Polyline, Shapes};
use super::writer::WriterView;
use crate::double::{below, nan, rank};
use crate::graph::{of_type, GraphView};
use crate::value::{NodeId, NodeView, ValueView};

verus! {

/// The entity is a vertex at the point.
pub open spec fn is_vertex(
    e: Seq<Seq<char>>,
    numbers: Map<u64, String>,
    id: int,
    p: Seq<u64>,
) -> bool {
    exists|c: int|
        #![trigger name_of(c)]
        says(e, id, "VERTEX_POINT('',"@ + name_of(c) + ")"@) && is_point(e, numbers, c, p)
}

/// A vertex that is known is not written again: its name is given. One that is
/// not is written at its point, and its name is known from then on, while all
/// others keep theirs.
pub proof fn lemma_vertices_read_back(
    s: SharedView,
    e: Seq<Seq<char>>,
    numbers: Map<u64, String>,
    key: Option<NodeId>,
    at: Seq<u64>,
) -> (r: Seq<Seq<char>>)
    requires
        holds(s.w, e),
        room(e, 2),
    ensures
        ({
            let (after, id) = vertex_written(s, numbers, key, at);
            &&& goes_on(e, r)
            &&& r.len() <= e.len() + 2
            &&& holds(after.w, r)
            &&& after.edges == s.edges
            &&& match key {
                Some(k) => if s.vertices.contains_key(k) {
                    id == s.vertices[k] && after == s && r == e
                } else {
                    is_vertex(r, numbers, id as int, at) && after.vertices == s.vertices.insert(
                        k,
                        id,
                    )
                },
                None => is_vertex(r, numbers, id as int, at) && after.vertices == s.vertices,
            }
        }),
{
    if key is Some && s.vertices.contains_key(key->0) {
        e
    } else {
        let e1 = e.push(
            "CARTESIAN_POINT('',"@ + super::readback::bracketed(
                super::readback::numerals(numbers, at),
            ) + ")"@,
        );
        let n = e.len() as int;
        let t = "VERTEX_POINT('',"@ + name_of(n + 1) + ")"@;
        lemma_point(s.w, e, numbers, at);
        lemma_entity(s.w.cart(numbers, at), e1, t);
        let r = e1.push(t);
        assert(is_point(r, numbers, n + 1, at));
        assert(says(r, n + 2, t));
        r
    }
}

/// The node id of the vertex of a halfedge.
pub open spec fn vertex_id(g: GraphView, he: Option<NodeView>) -> Option<NodeId> {
    match he {
        Some(h) => match g.follow(h, "vertex"@) {
            Some(v) => Some(v.id),
            None => None,
        },
        None => None,
    }
}

/// The name is that of the vertex: the one that is known, or that of a vertex at
/// the point.
pub open spec fn names_vertex(
    e: Seq<Seq<char>>,
    numbers: Map<u64, String>,
    known: Map<NodeId, u64>,
    key: Option<NodeId>,
    id: u64,
    at: Seq<u64>,
) -> bool {
    if key is Some && known.contains_key(key->0) {
        id == known[key->0]
    } else {
        is_vertex(e, numbers, id as int, at)
    }
}

proof fn lemma_vertex_stays(
    a: Seq<Seq<char>>,
    b: Seq<Seq<char>>,
    numbers: Map<u64, String>,
    id: int,
    p: Seq<u64>,
)
    requires
        goes_on(a, b),
        is_vertex(a, numbers, id, p),
    ensures
        is_vertex(b, numbers, id, p),
{
    lemma_goes_on(a, b);
    let c = choose|c: int|
        #![trigger name_of(c)]
        says(a, id, "VERTEX_POINT('',"@ + name_of(c) + ")"@) && is_point(a, numbers, c, p);
    assert(is_point(b, numbers, c, p));
}

proof fn lemma_polyline_stays(
    a: Seq<Seq<char>>,
    b: Seq<Seq<char>>,
    numbers: Map<u64, String>,
    id: int,
    line: Polyline,
)
    requires
        goes_on(a, b),
        is_polyline(a, numbers, id, line),
    ensures
        is_polyline(b, numbers, id, line),
{
    lemma_goes_on(a, b);
    let ids = choose|ids: Seq<int>|
        {
            &&& #[trigger] super::readback::lead_to(a, numbers, ids, line.points@)
            &&& says(
                a,
                id,
                "B_SPLINE_CURVE_WITH_KNOTS('',1,"@ + names_of(ids) + ",.POLYLINE_FORM.,.F.,.F.,"@
                    + super::readback::bracketed(
                    super::readback::twice_at_the_ends(line.points@.len()),
                ) + ","@ + super::readback::bracketed(
                    super::readback::numerals(numbers, line.knots@),
                ) + ",.UNSPECIFIED.)"@,
            )
        };
    assert(super::readback::lead_to(b, numbers, ids, line.points@)) by {
        assert forall|i: int| 0 <= i < ids.len() implies is_point(
            b,
            numbers,
            #[trigger] ids[i],
            line.points@[i]@,
        ) by {
            assert(is_point(a, numbers, ids[i], line.points@[i]@));
        }
    }
}

/// An edge reads back as its line of samples, from the vertex of its positive
/// halfedge, which lies at the first sample, to that of the other one, which lies
/// at the last. An edge without two different vertices ends where it begins.
pub proof fn lemma_edges_read_back(
    s: SharedView,
    e: Seq<Seq<char>>,
    numbers: Map<u64, String>,
    g: GraphView,
    edge: NodeView,
    h: NodeView,
    o: NodeView,
    line: Polyline,
) -> (r: Seq<Seq<char>>)
    requires
        holds(s.w, e),
        line.points@.len() >= 2,
        room(e, line.points@.len() + 6int),
        g.follow(edge, "halfedge"@) == Some(h),
        g.follow(h, "other"@) == Some(o),
        g.follow(o, "other"@) == Some(h),
    ensures
        ({
            let after = edge_written(s, numbers, g, edge, line);
            let first = if h.positive() {
                h
            } else {
                o
            };
            let second = if h.positive() {
                o
            } else {
                h
            };
            let a = vertex_id(g, Some(first));
            let b = vertex_id(g, Some(second));
            let made = after.edges[edge.id];
            &&& goes_on(e, r)
            &&& holds(after.w, r)
            &&& after.edges == s.edges.insert(edge.id, made)
            &&& exists|c: int|
                #![trigger name_of(c)]
                says(
                    r,
                    made.curve as int,
                    "EDGE_CURVE('',"@ + name_of(made.start as int) + ","@ + name_of(
                        made.end as int,
                    ) + ","@ + name_of(c) + ",.T.)"@,
                ) && is_polyline(r, numbers, c, line)
            &&& names_vertex(r, numbers, s.vertices, a, made.start, line.points@[0]@)
            &&& a is Some && b is Some && a != b ==> names_vertex(
                r,
                numbers,
                s.vertices,
                b,
                made.end,
                line.points@[line.points@.len() - 1]@,
            )
            &&& a is None || b is None || a == b ==> made.end == made.start
            &&& a is Some ==> after.vertices.contains_key(a->0) && after.vertices[a->0]
                == made.start
            &&& a is Some && b is Some ==> after.vertices.contains_key(b->0)
                && after.vertices[b->0] == made.end
        }),
{
    let first = if h.positive() {
        h
    } else {
        o
    };
    let second = if h.positive() {
        o
    } else {
        h
    };
    let a = vertex_id(g, Some(first));
    let b = vertex_id(g, Some(second));
    let e0 = lemma_polylines_read_back(s.w, e, numbers, line);
    let w0 = polyline_written(s.w, numbers, line).0;
    let c = e0.len() as int;
    assert(e0.len() == e.len() + line.points@.len() + 1) by {
        lemma_polyline_length(s.w, e, numbers, line);
    }
    let s1 = SharedView { w: w0, ..s };
    let p = line.points@[0]@;
    let q = line.points@[line.points@.len() - 1]@;
    let e1 = lemma_vertices_read_back(s1, e0, numbers, a, p);
    let (s2, start) = vertex_written(s1, numbers, a, p);
    let shut = a is None || b is None || a == b;
    let e2 = if shut {
        e1
    } else {
        lemma_vertices_read_back(s2, e1, numbers, b, q)
    };
    let (s3, end) = if shut {
        (s2, start)
    } else {
        vertex_written(s2, numbers, b, q)
    };
    let t = "EDGE_CURVE('',"@ + name_of(start as int) + ","@ + name_of(end as int) + ","@ + name_of(
        c,
    ) + ",.T.)"@;
    lemma_entity(s3.w, e2, t);
    let r = e2.push(t);
    assert(goes_on(e0, r));
    assert(goes_on(e1, r));
    assert(goes_on(e2, r));
    lemma_polyline_stays(e0, r, numbers, c, line);
    let after = edge_written(s, numbers, g, edge, line);
    assert(after.w == s3.w.entity(t));
    assert(after.edges[edge.id] == (EdgeEntity { curve: after.w.n, start, end }));
    if !(a is Some && s.vertices.contains_key(a->0)) {
        lemma_vertex_stays(e1, r, numbers, start as int, p);
    }
    if !shut && !s.vertices.contains_key(b->0) {
        lemma_vertex_stays(e2, r, numbers, end as int, q);
    }
    r
}

proof fn lemma_polyline_length(
    w: WriterView,
    e: Seq<Seq<char>>,
    numbers: Map<u64, String>,
    line: Polyline,
)
    requires
        holds(w, e),
        line.points@.len() >= 2,
        room(e, line.points@.len() + 1int),
    ensures
        polyline_written(w, numbers, line).0.n == e.len() + line.points@.len() + 1,
{
    lemma_count(w, numbers, line.points@);
}

proof fn lemma_count(w: WriterView, numbers: Map<u64, String>, pts: Seq<crate::sample::Point>)
    requires
        w.n + pts.len() <= u64::MAX,
    ensures
        w.carts(numbers, pts).n == w.n + pts.len(),
    decreases pts.len(),
{
    if pts.len() > 0 {
        lemma_count(w, numbers, pts.drop_last());
    }
}

/// Steps run along the edges of halfedges in their order, forwards where the
/// halfedge has a positive sense.
pub proof fn lemma_steps_follow_their_halfedges(
    g: GraphView,
    edges: Map<NodeId, Polyline>,
    halfedges: Seq<NodeView>,
    along: Seq<NodeView>,
)
    requires
        halfedges.len() == along.len(),
        forall|i: int|
            0 <= i < along.len() ==> #[trigger] g.follow(halfedges[i], "edge"@) == Some(along[i])
                && edges.contains_key(along[i].id) && edges[along[i].id].points@.len() >= 2,
    ensures
        steps_along(g, edges, halfedges).len() == along.len(),
        forall|i: int|
            0 <= i < along.len() ==> #[trigger] steps_along(g, edges, halfedges)[i] == (
                along[i],
                halfedges[i].positive(),
            ),
    decreases along.len(),
{
    if along.len() > 0 {
        let n = along.len() - 1;
        assert forall|i: int| 0 <= i < n implies #[trigger] g.follow(
            halfedges.drop_last()[i],
            "edge"@,
        ) == Some(along.drop_last()[i]) && edges.contains_key(along.drop_last()[i].id)
            && edges[along.drop_last()[i].id].points@.len() >= 2 by {
            assert(g.follow(halfedges[i], "edge"@) == Some(along[i]));
        }
        lemma_steps_follow_their_halfedges(g, edges, halfedges.drop_last(), along.drop_last());
        assert(g.follow(halfedges[n], "edge"@) == Some(along[n]));
        let before = steps_along(g, edges, halfedges.drop_last());
        let all = steps_along(g, edges, halfedges);
        assert forall|i: int| 0 <= i < along.len() implies #[trigger] all[i] == (
            along[i],
            halfedges[i].positive(),
        ) by {
            if i < n {
                assert(all[i] == before[i]);
            }
        }
    }
}

/// The entity is a boundary of a face: a loop of edges, each by its name and with
/// a true flag where it is run along forwards.
pub open spec fn is_bound(e: Seq<Seq<char>>, id: int, c: Seq<(u64, bool)>) -> bool {
    exists|l: int, ids: Seq<int>|
        #![trigger name_of(l), names_of(ids)]
        {
            &&& says(e, id, "FACE_BOUND('',"@ + name_of(l) + ",.T.)"@)
            &&& says(e, l, "EDGE_LOOP('',"@ + names_of(ids) + ")"@)
            &&& runs_along(e, ids, c)
        }
}

/// The names lead to the edges of a course, one by one.
pub open spec fn runs_along(e: Seq<Seq<char>>, ids: Seq<int>, c: Seq<(u64, bool)>) -> bool {
    &&& ids.len() == c.len()
    &&& forall|i: int|
        0 <= i < c.len() ==> says(
            e,
            #[trigger] ids[i],
            "ORIENTED_EDGE('',*,*,"@ + name_of(c[i].0 as int) + (if c[i].1 {
                ",.T.)"@
            } else {
                ",.F.)"@
            }),
        )
}

proof fn lemma_oriented(w: WriterView, e: Seq<Seq<char>>, c: Seq<(u64, bool)>) -> (r: Seq<
    Seq<char>,
>)
    requires
        holds(w, e),
        room(e, c.len() as int),
    ensures
        goes_on(e, r),
        r.len() == e.len() + c.len(),
        holds(oriented(w, c), r),
        runs_along(r, oriented_ids(w, c).map_values(|i: u64| i as int), c),
    decreases c.len(),
{
    if c.len() == 0 {
        e
    } else {
        let few = c.drop_last();
        let before = lemma_oriented(w, e, few);
        let s = "ORIENTED_EDGE('',*,*,"@ + name_of(c.last().0 as int) + (if c.last().1 {
            ",.T.)"@
        } else {
            ",.F.)"@
        });
        lemma_entity(oriented(w, few), before, s);
        let r = before.push(s);
        lemma_goes_on(before, r);
        let ids = oriented_ids(w, c).map_values(|i: u64| i as int);
        let earlier = oriented_ids(w, few).map_values(|i: u64| i as int);
        assert forall|i: int| 0 <= i < c.len() implies says(
            r,
            #[trigger] ids[i],
            "ORIENTED_EDGE('',*,*,"@ + name_of(c[i].0 as int) + (if c[i].1 {
                ",.T.)"@
            } else {
                ",.F.)"@
            }),
        ) by {
            if i < few.len() {
                assert(says(
                    before,
                    earlier[i],
                    "ORIENTED_EDGE('',*,*,"@ + name_of(few[i].0 as int) + (if few[i].1 {
                        ",.T.)"@
                    } else {
                        ",.F.)"@
                    }),
                ));
                assert(ids[i] == earlier[i]);
            }
        }
        r
    }
}

/// A boundary reads back as its course: the edges in their order, each the way it
/// is run along.
pub proof fn lemma_bounds_read_back(w: WriterView, e: Seq<Seq<char>>, c: Seq<(u64, bool)>) -> (r:
    Seq<Seq<char>>)
    requires
        holds(w, e),
        room(e, c.len() + 2int),
    ensures
        goes_on(e, r),
        r.len() == e.len() + c.len() + 2,
        holds(bound_written(w, c), r),
        is_bound(r, bound_written(w, c).n as int, c),
{
    let before = lemma_oriented(w, e, c);
    let ids = oriented_ids(w, c);
    lemma_names(ids);
    let named = ids.map_values(|i: u64| i as int);
    let n = before.len() as int;
    let s1 = "EDGE_LOOP('',"@ + names_of(named) + ")"@;
    let s2 = "FACE_BOUND('',"@ + name_of(n + 1) + ",.T.)"@;
    lemma_entity(oriented(w, c), before, s1);
    lemma_entity(oriented(w, c).entity(s1), before.push(s1), s2);
    let r = before.push(s1).push(s2);
    assert(goes_on(before, r));
    lemma_goes_on(before, r);
    assert(runs_along(r, named, c)) by {
        assert forall|i: int| 0 <= i < c.len() implies says(
            r,
            #[trigger] named[i],
            "ORIENTED_EDGE('',*,*,"@ + name_of(c[i].0 as int) + (if c[i].1 {
                ",.T.)"@
            } else {
                ",.F.)"@
            }),
        ) by {
            assert(says(
                before,
                named[i],
                "ORIENTED_EDGE('',*,*,"@ + name_of(c[i].0 as int) + (if c[i].1 {
                    ",.T.)"@
                } else {
                    ",.F.)"@
                }),
            ));
        }
    }
    assert(says(r, n + 1, s1));
    assert(says(r, n + 2, s2));
    r
}

/// The course of a run names the edges that were written for its steps, and goes
/// each the way of its step.
pub proof fn lemma_courses_name_their_edges(
    edges: Map<NodeId, EdgeEntity>,
    run: Seq<(NodeView, bool)>,
    i: int,
)
    requires
        0 <= i < run.len(),
        edges.contains_key(run[i].0.id),
    ensures
        course(edges, run).len() == run.len(),
        course(edges, run)[i] == (edges[run[i].0.id].curve, run[i].1),
{
}

/// A run begins at the start of its first edge, or at its end where that is run
/// along backwards.
pub proof fn lemma_runs_begin_at_their_first_edge(
    edges: Map<NodeId, EdgeEntity>,
    run: Seq<(NodeView, bool)>,
)
    requires
        run.len() > 0,
        edges.contains_key(run[0].0.id),
    ensures
        run[0].1 ==> anchor(edges, run) == edges[run[0].0.id].start,
        !run[0].1 ==> anchor(edges, run) == edges[run[0].0.id].end,
{
}

/// Two rims are joined by one boundary: along the first, over the seam, along the
/// second the other way round than the first winds, and back over the seam. The
/// seam is an edge along its samples from where the first rim begins to where the
/// second does.
pub proof fn lemma_joined_rims_read_back(
    w: WriterView,
    e: Seq<Seq<char>>,
    numbers: Map<u64, String>,
    edges: Map<NodeId, EdgeEntity>,
    plan: PlanView,
    runs: Seq<Seq<(NodeView, bool)>>,
    p: int,
    a: Winding,
    b: Winding,
) -> (r: (Seq<Seq<char>>, u64, int, Seq<(u64, bool)>))
    requires
        holds(w, e),
        0 <= p < plan.pairs.len(),
        p < plan.seams.len(),
        plan.pairs[p].0 < runs.len(),
        plan.pairs[p].1 < runs.len(),
        plan.pairs[p].0 < plan.windings.len(),
        plan.pairs[p].1 < plan.windings.len(),
        plan.windings[plan.pairs[p].0 as int] == Some(a),
        plan.windings[plan.pairs[p].1 as int] == Some(b),
        plan.seams[p].points@.len() >= 2,
        room(
            e,
            plan.seams[p].points@.len() + runs[plan.pairs[p].0 as int].len()
                + runs[plan.pairs[p].1 as int].len() + 6int,
        ),
    ensures
        ({
            let after = pair_written(w, numbers, edges, plan, runs, p);
            let first = course(edges, runs[plan.pairs[p].0 as int]);
            let second = course(edges, runs[plan.pairs[p].1 as int]);
            let n = second.len() as int;
            let (entities, seam, c, all) = r;
            &&& goes_on(e, entities)
            &&& holds(after, entities)
            &&& is_bound(entities, after.n as int, all)
            &&& says(
                entities,
                seam as int,
                "EDGE_CURVE('',"@ + name_of(anchor(edges, runs[plan.pairs[p].0 as int]) as int)
                    + ","@ + name_of(anchor(edges, runs[plan.pairs[p].1 as int]) as int) + ","@
                    + name_of(c) + ",.T.)"@,
            )
            &&& is_polyline(entities, numbers, c, plan.seams[p])
            &&& all.len() == first.len() + n + 2
            &&& all.take(first.len() as int) == first
            &&& all[first.len() as int] == (seam, true)
            &&& all[first.len() + n + 1] == (seam, false)
            &&& forall|i: int|
                0 <= i < n ==> (#[trigger] all[first.len() + 1 + i]) == if a.positive
                    == b.positive {
                    (second[n - 1 - i].0, !second[n - 1 - i].1)
                } else {
                    second[i]
                }
        }),
{
    let i = plan.pairs[p].0 as int;
    let j = plan.pairs[p].1 as int;
    let line = plan.seams[p];
    let e0 = lemma_polylines_read_back(w, e, numbers, line);
    lemma_polyline_length(w, e, numbers, line);
    let curve = polyline_written(w, numbers, line).0;
    let c = e0.len() as int;
    let s = "EDGE_CURVE('',"@ + name_of(anchor(edges, runs[i]) as int) + ","@ + name_of(
        anchor(edges, runs[j]) as int,
    ) + ","@ + name_of(c) + ",.T.)"@;
    lemma_entity(curve, e0, s);
    let made = curve.entity(s);
    let first = course(edges, runs[i]);
    let second = course(edges, runs[j]);
    let all = circuit(first, second, a.positive == b.positive, made.n);
    assert(all.len() == first.len() + second.len() + 2);
    let r = lemma_bounds_read_back(made, e0.push(s), all);
    let after = pair_written(w, numbers, edges, plan, runs, p);
    assert(after == bound_written(made, all));
    assert(goes_on(e0, r));
    lemma_polyline_stays(e0, r, numbers, c, line);
    lemma_goes_on(e0.push(s), r);
    assert(says(r, made.n as int, s));
    assert(all.take(first.len() as int) =~= first);
    (r, made.n, c, all)
}

/// Every loop that is not joined to another is a boundary of its own, in the order
/// of the loops.
pub proof fn lemma_single_loops_read_back(
    w: WriterView,
    e: Seq<Seq<char>>,
    edges: Map<NodeId, EdgeEntity>,
    plan: PlanView,
    runs: Seq<Seq<(NodeView, bool)>>,
    n: int,
) -> (r: Seq<Seq<char>>)
    requires
        holds(w, e),
        plan.pairs.len() == 0,
        0 <= n <= runs.len(),
        room(e, steps_in(runs, n)),
    ensures
        ({
            let (after, ids) = loops_written(w, edges, plan, runs, n);
            &&& goes_on(e, r)
            &&& r.len() == e.len() + steps_in(runs, n)
            &&& holds(after, r)
            &&& ids.len() == n
            &&& forall|k: int|
                0 <= k < n ==> is_bound(r, #[trigger] ids[k] as int, course(edges, runs[k]))
        }),
    decreases n,
{
    if n == 0 {
        e
    } else {
        lemma_steps_in(runs, n - 1);
        let before = lemma_single_loops_read_back(w, e, edges, plan, runs, n - 1);
        let (at, earlier) = loops_written(w, edges, plan, runs, n - 1);
        let c = course(edges, runs[n - 1]);
        let r = lemma_bounds_read_back(at, before, c);
        let ids = loops_written(w, edges, plan, runs, n).1;
        assert forall|k: int| 0 <= k < n implies is_bound(
            r,
            #[trigger] ids[k] as int,
            course(edges, runs[k]),
        ) by {
            if k < n - 1 {
                assert(is_bound(before, earlier[k] as int, course(edges, runs[k])));
                lemma_bound_stays(before, r, earlier[k] as int, course(edges, runs[k]));
            }
        }
        r
    }
}

/// How many entities the boundaries along the first runs take.
pub open spec fn steps_in(runs: Seq<Seq<(NodeView, bool)>>, n: int) -> int
    decreases n,
{
    if n <= 0 {
        0
    } else {
        steps_in(runs, n - 1) + runs[n - 1].len() + 2
    }
}

proof fn lemma_steps_in(runs: Seq<Seq<(NodeView, bool)>>, n: int)
    ensures
        0 <= steps_in(runs, n),
    decreases n,
{
    if n > 0 {
        lemma_steps_in(runs, n - 1);
    }
}

proof fn lemma_bound_stays(a: Seq<Seq<char>>, b: Seq<Seq<char>>, id: int, c: Seq<(u64, bool)>)
    requires
        goes_on(a, b),
        is_bound(a, id, c),
    ensures
        is_bound(b, id, c),
{
    lemma_goes_on(a, b);
    let (l, ids) = choose|l: int, ids: Seq<int>|
        #![trigger name_of(l), names_of(ids)]
        {
            &&& says(a, id, "FACE_BOUND('',"@ + name_of(l) + ",.T.)"@)
            &&& says(a, l, "EDGE_LOOP('',"@ + names_of(ids) + ")"@)
            &&& runs_along(a, ids, c)
        };
    assert(runs_along(b, ids, c)) by {
        assert forall|i: int| 0 <= i < c.len() implies says(
            b,
            #[trigger] ids[i],
            "ORIENTED_EDGE('',*,*,"@ + name_of(c[i].0 as int) + (if c[i].1 {
                ",.T.)"@
            } else {
                ",.F.)"@
            }),
        ) by {
            assert(says(
                a,
                ids[i],
                "ORIENTED_EDGE('',*,*,"@ + name_of(c[i].0 as int) + (if c[i].1 {
                    ",.T.)"@
                } else {
                    ",.F.)"@
                }),
            ));
        }
    }
}

/// A face that is written is the last entity: it bears the face's id, lists its
/// boundaries, refers to its surface, and has a true flag exactly where its sense
/// and that of its surface agree. The face and its entity are noted at the end.
pub proof fn lemma_faces_name_their_surface(
    body: BodyView,
    shapes: Shapes,
    g: GraphView,
    plan: PlanView,
    face: NodeView,
    surface: NodeView,
    w: WriterView,
) -> (r: (Seq<char>, Seq<int>))
    requires
        face_on(body, shapes, g, plan, face, surface, w).shared.w.n < u64::MAX,
    ensures
        ({
            let done = face_on(body, shapes, g, plan, face, surface, w);
            &&& done.faces == body.faces.push(face.id)
            &&& done.entities == body.entities.push(done.shared.w.n)
            &&& done.skipped == body.skipped
            &&& done.shared.w.body == r.0 + (name_of(done.shared.w.n as int) + "="@ + (
            "ADVANCED_FACE('f"@ + crate::text::signed_decimal(face.id as int) + "',"@ + names_of(
                r.1,
            ) + ","@ + name_of(w.n as int) + (if face.positive() == surface.positive() {
                ",.T.)"@
            } else {
                ",.F.)"@
            })) + ";\n"@)
        }),
{
    let done = face_on(body, shapes, g, plan, face, surface, w);
    let runs = super::rims::runs_of(g, shapes.edges@, face);
    let shared = super::export::all_edges_written(
        SharedView { w, ..body.shared },
        shapes,
        g,
        runs,
    );
    let (bounded, bounds) = super::export::bounds_written(
        shared.w,
        shapes.numbers@,
        shared.edges,
        plan,
        runs,
    );
    lemma_names(bounds);
    let named = bounds.map_values(|i: u64| i as int);
    let text = "ADVANCED_FACE('f"@ + crate::text::signed_decimal(face.id as int) + "',"@
        + names_of(named) + ","@ + name_of(w.n as int) + (if face.positive()
        == surface.positive() {
        ",.T.)"@
    } else {
        ",.F.)"@
    });
    assert(done.shared.w == bounded.entity(text));
    lemma_entity_text(bounded, text);
    (bounded.body, named)
}

proof fn lemma_entity_text(w: WriterView, s: Seq<char>)
    ensures
        w.entity(s).body == w.body + (name_of(w.entity(s).n as int) + "="@ + s + ";\n"@),
{
    assert(w.entity(s).body =~= w.body + (name_of(w.entity(s).n as int) + "="@ + s + ";\n"@));
}

/// A solid is a closed shell of all its faces, and any other body an open one.
pub proof fn lemma_shells_list_their_faces(
    w: WriterView,
    e: Seq<Seq<char>>,
    solid: bool,
    faces: Seq<u64>,
)
    requires
        holds(w, e),
        room(e, 2),
    ensures
        ({
            let n = e.len() as int;
            let names = names_of(faces.map_values(|i: u64| i as int));
            let shell = if solid {
                "CLOSED_SHELL('',"@ + names + ")"@
            } else {
                "OPEN_SHELL('',"@ + names + ")"@
            };
            let shape = if solid {
                "MANIFOLD_SOLID_BREP('',"@ + name_of(n + 1) + ")"@
            } else {
                "SHELL_BASED_SURFACE_MODEL('',("@ + name_of(n + 1) + "))"@
            };
            holds(shape_written(w, solid, faces), e.push(shell).push(shape))
        }),
{
    lemma_names(faces);
    let n = e.len() as int;
    let names = names_of(faces.map_values(|i: u64| i as int));
    let shell = if solid {
        "CLOSED_SHELL('',"@ + names + ")"@
    } else {
        "OPEN_SHELL('',"@ + names + ")"@
    };
    let shape = if solid {
        "MANIFOLD_SOLID_BREP('',"@ + name_of(n + 1) + ")"@
    } else {
        "SHELL_BASED_SURFACE_MODEL('',("@ + name_of(n + 1) + "))"@
    };
    lemma_entity(w, e, shell);
    lemma_entity(w.entity(shell), e.push(shell), shape);
}

/// A part is a solid where its first body is of type 1, and where no body says of
/// which type it is.
pub proof fn lemma_solids_are_bodies_of_type_one(g: GraphView, body: NodeView, t: i16)
    ensures
        of_type(g.nodes, g.order, "BODY"@).len() == 0 ==> is_solid(g),
        of_type(g.nodes, g.order, "BODY"@).len() > 0 && of_type(g.nodes, g.order, "BODY"@)[0]
            == body ==> {
            &&& body.field("body_type"@) is None ==> is_solid(g)
            &&& body.field("body_type"@) == Some(ValueView::I16(t)) ==> is_solid(g) == (t == 1)
        },
{
}

/// A rim is joined to the nearest of those that can be: of all the later rims that
/// wind in the same direction and are not joined yet, none is nearer, and none of
/// those before it is as near.
pub proof fn lemma_rims_are_joined_to_the_nearest(
    windings: Seq<Option<Winding>>,
    gaps: Seq<Vec<u64>>,
    pairs: Seq<(usize, usize)>,
    i: int,
    m: int,
)
    requires
        0 <= i < m <= windings.len(),
        forall|j: int| !nan(#[trigger] gap_at(gaps, i, j)),
    ensures
        match partner_of(windings, gaps, pairs, i, m) {
            Some(j) => {
                &&& i < j < m
                &&& joinable(windings, pairs, i, j)
                &&& forall|k: int|
                    i < k < m && #[trigger] joinable(windings, pairs, i, k) ==> rank(
                        gap_at(gaps, i, k),
                    ) >= rank(gap_at(gaps, i, j)) && (k < j ==> rank(gap_at(gaps, i, k)) > rank(
                        gap_at(gaps, i, j),
                    ))
            },
            None => forall|k: int| i < k < m ==> !#[trigger] joinable(windings, pairs, i, k),
        },
    decreases m,
{
    if m > i + 1 {
        lemma_rims_are_joined_to_the_nearest(windings, gaps, pairs, i, m - 1);
        let best = partner_of(windings, gaps, pairs, i, m - 1);
        if best is Some {
            assert(below(gap_at(gaps, i, m - 1), gap_at(gaps, i, best->0)) == (rank(
                gap_at(gaps, i, m - 1),
            ) < rank(gap_at(gaps, i, best->0))));
        }
    }
}


/// Behind the faces come the shell and the body, the product, the units, and the
/// representation, which places the body at the origin with its axes as they are
/// and ties it to the product.
#[verifier::spinoff_prover]
pub proof fn lemma_files_tie_the_body_to_the_product(
    w: WriterView,
    e: Seq<Seq<char>>,
    numbers: Map<u64, String>,
    solid: bool,
    faces: Seq<u64>,
) -> (r: Seq<Seq<char>>)
    requires
        holds(w, e),
        room(e, 21),
    ensures
        ({
            let n = e.len() as int;
            &&& goes_on(e, r)
            &&& r.len() == n + 21
            &&& holds(file_written(w, numbers, solid, faces), r)
            &&& says(
                r,
                n + 21,
                "SHAPE_DEFINITION_REPRESENTATION("@ + name_of(n + 10) + ","@ + name_of(n + 20)
                    + ")"@,
            )
            &&& says(
                r,
                n + 20,
                (if solid {
                    "ADVANCED_BREP_SHAPE_REPRESENTATION"@
                } else {
                    "MANIFOLD_SURFACE_SHAPE_REPRESENTATION"@
                }) + "('',("@ + name_of(n + 19) + ","@ + name_of(n + 2) + "),"@ + name_of(n + 15)
                    + ")"@,
            )
            &&& is_placement(
                r,
                numbers,
                n + 19,
                seq![0u64, 0u64, 0u64],
                seq![0u64, 0u64, 0x3ff0000000000000u64],
                seq![0x3ff0000000000000u64, 0u64, 0u64],
            )
        }),
{
    let n = e.len() as int;
    let e10 = lemma_before_units(w, e, solid, faces);
    let w10 = super::export::product_written(shape_written(w, solid, faces));
    let e15 = lemma_with_units(w10, e10);
    let w15 = super::export::units_written(w10);
    let s20 = (if solid {
        "ADVANCED_BREP_SHAPE_REPRESENTATION"@
    } else {
        "MANIFOLD_SURFACE_SHAPE_REPRESENTATION"@
    }) + "('',("@ + name_of(n + 19) + ","@ + name_of(n + 2) + "),"@ + name_of(n + 15) + ")"@;
    let s21 = "SHAPE_DEFINITION_REPRESENTATION("@ + name_of(n + 10) + ","@ + name_of(n + 20)
        + ")"@;
    let r = lemma_representation(w15, e15, numbers, s20, s21);
    lemma_file(
        w,
        numbers,
        solid,
        faces,
        shape_written(w, solid, faces).n,
        w10.n,
        w15,
        n,
    );
    r
}

/// The last two entities of a file, by the numbers of those that they refer to.
#[verifier::spinoff_prover]
proof fn lemma_file(
    w: WriterView,
    numbers: Map<u64, String>,
    solid: bool,
    faces: Seq<u64>,
    shape: u64,
    product: u64,
    units: WriterView,
    n: int,
)
    requires
        shape == shape_written(w, solid, faces).n,
        product == super::export::product_written(shape_written(w, solid, faces)).n,
        units == super::export::units_written(
            super::export::product_written(shape_written(w, solid, faces)),
        ),
        shape == n + 2,
        product == n + 10,
        units.n == n + 15,
        n + 21 <= u64::MAX,
    ensures
        file_written(w, numbers, solid, faces) == units.ax2(
            numbers,
            seq![0u64, 0u64, 0u64],
            seq![0u64, 0u64, 0x3ff0000000000000u64],
            seq![0x3ff0000000000000u64, 0u64, 0u64],
        ).entity(
            (if solid {
                "ADVANCED_BREP_SHAPE_REPRESENTATION"@
            } else {
                "MANIFOLD_SURFACE_SHAPE_REPRESENTATION"@
            }) + "('',("@ + name_of(n + 19) + ","@ + name_of(n + 2) + "),"@ + name_of(n + 15)
                + ")"@,
        ).entity(
            "SHAPE_DEFINITION_REPRESENTATION("@ + name_of(n + 10) + ","@ + name_of(n + 20) + ")"@,
        ),
{
}

proof fn lemma_before_units(w: WriterView, e: Seq<Seq<char>>, solid: bool, faces: Seq<u64>) -> (r:
    Seq<Seq<char>>)
    requires
        holds(w, e),
        room(e, 10),
    ensures
        goes_on(e, r),
        r.len() == e.len() + 10,
        shape_written(w, solid, faces).n == e.len() + 2,
        holds(super::export::product_written(shape_written(w, solid, faces)), r),
{
    lemma_shells_list_their_faces(w, e, solid, faces);
    let n = e.len() as int;
    let names = names_of(faces.map_values(|i: u64| i as int));
    let shell = if solid {
        "CLOSED_SHELL('',"@ + names + ")"@
    } else {
        "OPEN_SHELL('',"@ + names + ")"@
    };
    let body = if solid {
        "MANIFOLD_SOLID_BREP('',"@ + name_of(n + 1) + ")"@
    } else {
        "SHELL_BASED_SURFACE_MODEL('',("@ + name_of(n + 1) + "))"@
    };
    lemma_files_are_of_one_product(shape_written(w, solid, faces), e.push(shell).push(body))
}

proof fn lemma_with_units(w: WriterView, e: Seq<Seq<char>>) -> (r: Seq<Seq<char>>)
    requires
        holds(w, e),
        room(e, 5),
    ensures
        goes_on(e, r),
        r.len() == e.len() + 5,
        holds(super::export::units_written(w), r),
{
    lemma_files_are_in_metres(w, e)
}

proof fn lemma_representation(
    w: WriterView,
    e: Seq<Seq<char>>,
    numbers: Map<u64, String>,
    s1: Seq<char>,
    s2: Seq<char>,
) -> (r: Seq<Seq<char>>)
    requires
        holds(w, e),
        room(e, 6),
    ensures
        goes_on(e, r),
        r.len() == e.len() + 6,
        holds(
            w.ax2(
                numbers,
                seq![0u64, 0u64, 0u64],
                seq![0u64, 0u64, 0x3ff0000000000000u64],
                seq![0x3ff0000000000000u64, 0u64, 0u64],
            ).entity(s1).entity(s2),
            r,
        ),
        says(r, e.len() + 5int, s1),
        says(r, e.len() + 6int, s2),
        is_placement(
            r,
            numbers,
            e.len() + 4int,
            seq![0u64, 0u64, 0u64],
            seq![0u64, 0u64, 0x3ff0000000000000u64],
            seq![0x3ff0000000000000u64, 0u64, 0u64],
        ),
{
    let zero = seq![0u64, 0u64, 0u64];
    let z = seq![0u64, 0u64, 0x3ff0000000000000u64];
    let x = seq![0x3ff0000000000000u64, 0u64, 0u64];
    let before = lemma_placement(w, e, numbers, zero, z, x);
    let at = w.ax2(numbers, zero, z, x);
    lemma_entity(at, before, s1);
    lemma_entity(at.entity(s1), before.push(s1), s2);
    let r = before.push(s1).push(s2);
    assert(goes_on(before, r));
    lemma_goes_on(before, r);
    let n = before.len() as int;
    let (c, d1, d2) = choose|c: int, d1: int, d2: int|
        #![trigger name_of(c), name_of(d1), name_of(d2)]
        {
            &&& says(
                before,
                n,
                "AXIS2_PLACEMENT_3D('',"@ + name_of(c) + ","@ + name_of(d1) + ","@ + name_of(d2)
                    + ")"@,
            )
            &&& is_point(before, numbers, c, zero)
            &&& is_direction(before, numbers, d1, z)
            &&& is_direction(before, numbers, d2, x)
        };
    assert(is_point(r, numbers, c, zero));
    assert(is_direction(r, numbers, d1, z));
    assert(is_direction(r, numbers, d2, x));
    r
}

/// A file is of one product, a part of mechanical design.
pub proof fn lemma_files_are_of_one_product(w: WriterView, e: Seq<Seq<char>>) -> (r: Seq<Seq<char>>)
    requires
        holds(w, e),
        room(e, 8),
    ensures
        ({
            let n = e.len() as int;
            &&& goes_on(e, r)
            &&& r.len() == n + 8
            &&& holds(super::export::product_written(w), r)
            &&& says(r, n + 8, "PRODUCT_DEFINITION_SHAPE('','',"@ + name_of(n + 7) + ")"@)
            &&& says(
                r,
                n + 7,
                "PRODUCT_DEFINITION('design','',"@ + name_of(n + 5) + ","@ + name_of(n + 6) + ")"@,
            )
            &&& says(
                r,
                n + 6,
                "PRODUCT_DEFINITION_CONTEXT('part definition',"@ + name_of(n + 1) + ",'design')"@,
            )
            &&& says(r, n + 5, "PRODUCT_DEFINITION_FORMATION('','',"@ + name_of(n + 4) + ")"@)
            &&& says(r, n + 4, "PRODUCT('part','part','',("@ + name_of(n + 3) + "))"@)
            &&& says(r, n + 3, "PRODUCT_CONTEXT('',"@ + name_of(n + 1) + ",'mechanical')"@)
            &&& says(
                r,
                n + 2,
                "APPLICATION_PROTOCOL_DEFINITION('','automotive_design',2010,"@ + name_of(n + 1)
                    + ")"@,
            )
            &&& says(r, n + 1, "APPLICATION_CONTEXT('automotive design')"@)
        }),
{
    let n = e.len() as int;
    let s1 = "APPLICATION_CONTEXT('automotive design')"@;
    let s2 = "APPLICATION_PROTOCOL_DEFINITION('','automotive_design',2010,"@ + name_of(n + 1)
        + ")"@;
    let s3 = "PRODUCT_CONTEXT('',"@ + name_of(n + 1) + ",'mechanical')"@;
    let s4 = "PRODUCT('part','part','',("@ + name_of(n + 3) + "))"@;
    let s5 = "PRODUCT_DEFINITION_FORMATION('','',"@ + name_of(n + 4) + ")"@;
    let s6 = "PRODUCT_DEFINITION_CONTEXT('part definition',"@ + name_of(n + 1) + ",'design')"@;
    let s7 = "PRODUCT_DEFINITION('design','',"@ + name_of(n + 5) + ","@ + name_of(n + 6) + ")"@;
    let s8 = "PRODUCT_DEFINITION_SHAPE('','',"@ + name_of(n + 7) + ")"@;
    let e1 = e.push(s1);
    let e2 = e1.push(s2);
    let e3 = e2.push(s3);
    let e4 = e3.push(s4);
    let e5 = e4.push(s5);
    let e6 = e5.push(s6);
    let e7 = e6.push(s7);
    let w1 = w.entity(s1);
    let w2 = w1.entity(s2);
    let w3 = w2.entity(s3);
    let w4 = w3.entity(s4);
    let w5 = w4.entity(s5);
    let w6 = w5.entity(s6);
    let w7 = w6.entity(s7);
    lemma_entity(w, e, s1);
    lemma_entity(w1, e1, s2);
    lemma_entity(w2, e2, s3);
    lemma_entity(w3, e3, s4);
    lemma_entity(w4, e4, s5);
    lemma_entity(w5, e5, s6);
    lemma_entity(w6, e6, s7);
    lemma_entity(w7, e7, s8);
    e7.push(s8)
}

/// Lengths are in metres, accurate to a millionth, and angles in radians and
/// steradians.
pub proof fn lemma_files_are_in_metres(w: WriterView, e: Seq<Seq<char>>) -> (r: Seq<Seq<char>>)
    requires
        holds(w, e),
        room(e, 5),
    ensures
        ({
            let n = e.len() as int;
            &&& goes_on(e, r)
            &&& r.len() == n + 5
            &&& holds(super::export::units_written(w), r)
            &&& says(
                r,
                n + 5,
                "(GEOMETRIC_REPRESENTATION_CONTEXT(3)GLOBAL_UNCERTAINTY_ASSIGNED_CONTEXT(("@
                    + name_of(n + 4) + "))GLOBAL_UNIT_ASSIGNED_CONTEXT(("@ + name_of(n + 1) + ","@
                    + name_of(n + 2) + ","@ + name_of(n + 3)
                    + "))REPRESENTATION_CONTEXT('',''))"@,
            )
            &&& says(
                r,
                n + 4,
                "UNCERTAINTY_MEASURE_WITH_UNIT(LENGTH_MEASURE(1.0E-6),"@ + name_of(n + 1)
                    + ",'distance_accuracy_value','')"@,
            )
            &&& says(r, n + 3, "(NAMED_UNIT(*)SI_UNIT($,.STERADIAN.)SOLID_ANGLE_UNIT())"@)
            &&& says(r, n + 2, "(NAMED_UNIT(*)PLANE_ANGLE_UNIT()SI_UNIT($,.RADIAN.))"@)
            &&& says(r, n + 1, "(LENGTH_UNIT()NAMED_UNIT(*)SI_UNIT($,.METRE.))"@)
        }),
{
    let n = e.len() as int;
    let s1 = "(LENGTH_UNIT()NAMED_UNIT(*)SI_UNIT($,.METRE.))"@;
    let s2 = "(NAMED_UNIT(*)PLANE_ANGLE_UNIT()SI_UNIT($,.RADIAN.))"@;
    let s3 = "(NAMED_UNIT(*)SI_UNIT($,.STERADIAN.)SOLID_ANGLE_UNIT())"@;
    let s4 = "UNCERTAINTY_MEASURE_WITH_UNIT(LENGTH_MEASURE(1.0E-6),"@ + name_of(n + 1)
        + ",'distance_accuracy_value','')"@;
    let s5 = "(GEOMETRIC_REPRESENTATION_CONTEXT(3)GLOBAL_UNCERTAINTY_ASSIGNED_CONTEXT(("@ + name_of(
        n + 4,
    ) + "))GLOBAL_UNIT_ASSIGNED_CONTEXT(("@ + name_of(n + 1) + ","@ + name_of(n + 2) + ","@
        + name_of(n + 3) + "))REPRESENTATION_CONTEXT('',''))"@;
    let e1 = e.push(s1);
    let e2 = e1.push(s2);
    let e3 = e2.push(s3);
    let e4 = e3.push(s4);
    let w1 = w.entity(s1);
    let w2 = w1.entity(s2);
    let w3 = w2.entity(s3);
    let w4 = w3.entity(s4);
    lemma_entity(w, e, s1);
    lemma_entity(w1, e1, s2);
    lemma_entity(w2, e2, s3);
    lemma_entity(w3, e3, s4);
    lemma_entity(w4, e4, s5);
    e4.push(s5)
}

} // verus!
