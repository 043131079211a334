//! The whole body as a STEP file.

use std::collections::HashMap;

use vstd::prelude::*;

use super::rims::{face_runs, run_views, runs_of, step_views, usable, Run, Winding};
use super::surface::{
    polyline_bspline, polyline_written, surface_entity, surface_written, Polyline, Shapes,
    MAX_OFFSETS,
};
use super::writer::{list_u32, push_ref, ref_list, refer, Writer, WriterView};
use crate::graph::{found_views, of_type, Graph, GraphView};
use crate::nurbs::ONE_BITS;
use crate::sample::{start_halfedge, Point};
use crate::text::{push_signed, signed_decimal};
use crate::value::{Node, NodeId, NodeView};

verus! {

broadcast use vstd::std_specs::hash::group_hash_axioms;

/// A finished export: the STEP text plus the FACE node ids actually written,
/// in emission order, for whoever needs to map faces back to the graph.
pub struct StepExport {
    pub text: String,
    pub faces: Vec<NodeId>,
    pub skipped: usize,
}

/// The entities of an edge: its curve and its two vertices.
#[derive(Debug, Clone, Copy, PartialEq, Eq, Structural)]
pub struct EdgeEntity {
    pub curve: u64,
    pub start: u64,
    pub end: u64,
}

/// What was written, and the entities that faces share.
pub struct Shared {
    pub w: Writer,
    pub vertices: HashMap<NodeId, u64>,
    pub edges: HashMap<NodeId, EdgeEntity>,
}

/// The contents of what was written.
#[verifier::ext_equal]
pub struct SharedView {
    pub w: WriterView,
    pub vertices: Map<NodeId, u64>,
    pub edges: Map<NodeId, EdgeEntity>,
}

impl View for Shared {
    type V = SharedView;

    open spec fn view(&self) -> SharedView {
        SharedView { w: self.w@, vertices: self.vertices@, edges: self.edges@ }
    }
}

/// How the loops of a face wind, which of them a seam joins, and the seams.
pub struct FacePlan {
    pub windings: Vec<Option<Winding>>,
    pub pairs: Vec<(usize, usize)>,
    pub seams: Vec<Polyline>,
}

/// The contents of a plan.
#[verifier::ext_equal]
pub struct PlanView {
    pub windings: Seq<Option<Winding>>,
    pub pairs: Seq<(usize, usize)>,
    pub seams: Seq<Polyline>,
}

impl View for FacePlan {
    type V = PlanView;

    open spec fn view(&self) -> PlanView {
        PlanView { windings: self.windings@, pairs: self.pairs@, seams: self.seams@ }
    }
}

// ---- vertices and edges ----

/// The vertex that a halfedge starts at.
pub open spec fn vertex_of(g: GraphView, halfedge: Option<NodeView>) -> Option<NodeId> {
    match halfedge {
        Some(h) => match g.follow(h, "vertex"@) {
            Some(v) => Some(v.id),
            None => None,
        },
        None => None,
    }
}

/// A vertex, written unless it was before; its number.
pub open spec fn vertex_written(
    s: SharedView,
    numbers: Map<u64, String>,
    key: Option<NodeId>,
    at: Seq<u64>,
) -> (SharedView, u64) {
    if key is Some && s.vertices.contains_key(key->0) {
        (s, s.vertices[key->0])
    } else {
        let c = s.w.cart(numbers, at);
        let w = c.entity("VERTEX_POINT('',"@ + refer(c.n) + ")"@);
        (
            SharedView {
                w,
                vertices: match key {
                    Some(k) => s.vertices.insert(k, w.n),
                    None => s.vertices,
                },
                edges: s.edges,
            },
            w.n,
        )
    }
}

/// The other end of an edge's start.
pub open spec fn end_halfedge(g: GraphView, edge: NodeView) -> Option<NodeView> {
    match start_halfedge(g, edge) {
        Some(h) => g.follow(h, "other"@),
        None => None,
    }
}

/// An edge is closed when it has no vertices, or one at both ends. That is a
/// fact of the topology; proximity is not evidence, or genuinely short edges
/// lose a vertex and their wire acquires a gap.
pub open spec fn closed_edge(g: GraphView, edge: NodeView) -> bool {
    match (vertex_of(g, start_halfedge(g, edge)), vertex_of(g, end_halfedge(g, edge))) {
        (Some(a), Some(b)) => a == b,
        _ => true,
    }
}

/// An edge, written along its samples.
pub open spec fn edge_written(
    s: SharedView,
    numbers: Map<u64, String>,
    g: GraphView,
    edge: NodeView,
    line: Polyline,
) -> SharedView {
    let curve = polyline_written(s.w, numbers, line).0;
    let s1 = SharedView { w: curve, ..s };
    let (s2, start) = vertex_written(
        s1,
        numbers,
        vertex_of(g, start_halfedge(g, edge)),
        line.points@[0]@,
    );
    let (s3, end) = if closed_edge(g, edge) {
        (s2, start)
    } else {
        vertex_written(s2, numbers, vertex_of(g, end_halfedge(g, edge)), line.points@.last()@)
    };
    let w = s3.w.entity(
        "EDGE_CURVE('',"@ + refer(start) + ","@ + refer(end) + ","@ + refer(curve.n) + ",.T.)"@,
    );
    SharedView {
        w,
        vertices: s3.vertices,
        edges: s3.edges.insert(edge.id, EdgeEntity { curve: w.n, start, end }),
    }
}

/// The edges of a run, each written unless it was before.
pub open spec fn edges_written(
    s: SharedView,
    shapes: Shapes,
    g: GraphView,
    run: Seq<(NodeView, bool)>,
) -> SharedView
    decreases run.len(),
{
    if run.len() == 0 {
        s
    } else {
        let before = edges_written(s, shapes, g, run.drop_last());
        let edge = run.last().0;
        if before.edges.contains_key(edge.id) || !usable(shapes.edges@, edge.id) {
            before
        } else {
            edge_written(before, shapes.numbers@, g, edge, shapes.edges@[edge.id])
        }
    }
}

/// The edges of runs.
pub open spec fn all_edges_written(
    s: SharedView,
    shapes: Shapes,
    g: GraphView,
    runs: Seq<Seq<(NodeView, bool)>>,
) -> SharedView
    decreases runs.len(),
{
    if runs.len() == 0 {
        s
    } else {
        edges_written(all_edges_written(s, shapes, g, runs.drop_last()), shapes, g, runs.last())
    }
}

/// The vertex that a halfedge starts at.
fn vertex_id(graph: &Graph, halfedge: Option<&Node>) -> (r: Option<NodeId>)
    ensures
        r == vertex_of(
            graph@,
            match halfedge {
                Some(h) => Some(h@),
                None => None,
            },
        ),
{
    match halfedge {
        Some(h) => match graph.deref(h, "vertex") {
            Some(v) => Some(v.id),
            None => None,
        },
        None => None,
    }
}

impl Shared {
    pub fn new() -> (r: Self)
        ensures
            r@ == (SharedView {
                w: WriterView::blank(),
                vertices: Map::empty(),
                edges: Map::empty(),
            }),
    {
        Shared { w: Writer::new(), vertices: HashMap::new(), edges: HashMap::new() }
    }

    /// Write a vertex unless it was before; its number.
    fn vertex(&mut self, numbers: &HashMap<u64, String>, key: Option<NodeId>, at: Point) -> (id:
        u64)
        ensures
            (final(self)@, id) == vertex_written(old(self)@, numbers@, key, at@),
    {
        if let Some(k) = key {
            if let Some(id) = self.vertices.get(&k) {
                return *id;
            }
        }
        let c: u64 = self.w.cart(numbers, at);
        let mut s = "VERTEX_POINT('',".to_owned();
        push_ref(&mut s, c);
        s.append(")");
        let id: u64 = self.w.add(s.as_str());
        if let Some(k) = key {
            self.vertices.insert(k, id);
        }
        id
    }

    /// Write an edge along its samples.
    fn edge(&mut self, numbers: &HashMap<u64, String>, graph: &Graph, edge: &Node, line: &Polyline)
        requires
            line.points@.len() >= 2,
        ensures
            final(self)@ == edge_written(old(self)@, numbers@, graph@, edge@, *line),
    {
        let ghost s0 = self@;
        let curve: u64 = match polyline_bspline(&mut self.w, numbers, line) {
            Some(id) => id,
            None => 0,
        };
        let hp: Option<&Node> = match graph.deref(edge, "halfedge") {
            Some(h) => if h.sense_positive() {
                Some(h)
            } else {
                graph.deref(h, "other")
            },
            None => None,
        };
        let hm: Option<&Node> = match hp {
            Some(h) => graph.deref(h, "other"),
            None => None,
        };
        let from: Option<NodeId> = vertex_id(graph, hp);
        let to: Option<NodeId> = vertex_id(graph, hm);
        let closed: bool = match (from, to) {
            (Some(a), Some(b)) => a == b,
            _ => true,
        };
        assert(closed == closed_edge(graph@, edge@));
        let ghost s1 = self@;
        assert(s1 =~= (SharedView { w: polyline_written(s0.w, numbers@, *line).0, ..s0 }));
        let start: u64 = self.vertex(numbers, from, line.points[0]);
        let end: u64 = if closed {
            start
        } else {
            self.vertex(numbers, to, line.points[line.points.len() - 1])
        };
        let mut s = "EDGE_CURVE('',".to_owned();
        push_ref(&mut s, start);
        s.append(",");
        push_ref(&mut s, end);
        s.append(",");
        push_ref(&mut s, curve);
        s.append(",.T.)");
        assert(s@ =~= "EDGE_CURVE('',"@ + refer(start) + ","@ + refer(end) + ","@ + refer(curve)
            + ",.T.)"@);
        let id: u64 = self.w.add(s.as_str());
        self.edges.insert(edge.id, EdgeEntity { curve: id, start, end });
        assert(self@ =~= edge_written(s0, numbers@, graph@, edge@, *line));
    }

    /// Write the edges of a run.
    fn run_edges(&mut self, shapes: &Shapes, graph: &Graph, run: &Run)
        ensures
            final(self)@ == edges_written(old(self)@, *shapes, graph@, step_views(run.steps@)),
    {
        let ghost start = self@;
        let ghost views = step_views(run.steps@);
        let mut i: usize = 0;
        while i < run.steps.len()
            invariant
                i <= run.steps@.len(),
                views == step_views(run.steps@),
                self@ == edges_written(start, *shapes, graph@, views.take(i as int)),
            decreases run.steps@.len() - i,
        {
            assert(views.take(i + 1).drop_last() =~= views.take(i as int));
            let (edge, forward) = run.steps[i];
            assert(views.take(i + 1).last() == (edge@, forward));
            if !self.edges.contains_key(&edge.id) {
                if let Some(line) = shapes.edges.get(&edge.id) {
                    if line.points.len() >= 2 {
                        self.edge(&shapes.numbers, graph, edge, line);
                    }
                }
            }
            i += 1;
        }
        assert(views.take(i as int) =~= views);
    }

    /// Write the edges of runs.
    fn all_edges(&mut self, shapes: &Shapes, graph: &Graph, runs: &Vec<Run>)
        ensures
            final(self)@ == all_edges_written(old(self)@, *shapes, graph@, run_views(runs@)),
    {
        let ghost start = self@;
        let ghost views = run_views(runs@);
        let mut i: usize = 0;
        while i < runs.len()
            invariant
                i <= runs@.len(),
                views == run_views(runs@),
                self@ == all_edges_written(start, *shapes, graph@, views.take(i as int)),
            decreases runs@.len() - i,
        {
            assert(views.take(i + 1).drop_last() =~= views.take(i as int));
            assert(views.take(i + 1).last() == step_views(runs@[i as int].steps@));
            self.run_edges(shapes, graph, &runs[i]);
            i += 1;
        }
        assert(views.take(i as int) =~= views);
    }
}

// ---- bounds ----

/// The curves of a run and whether each is run along forwards.
pub open spec fn course(edges: Map<NodeId, EdgeEntity>, run: Seq<(NodeView, bool)>) -> Seq<
    (u64, bool),
> {
    run.map_values(
        |s: (NodeView, bool)|
            (
                if edges.contains_key(s.0.id) {
                    edges[s.0.id].curve
                } else {
                    0
                },
                s.1,
            ),
    )
}

/// A course run along the other way round.
pub open spec fn turned_course(c: Seq<(u64, bool)>) -> Seq<(u64, bool)> {
    Seq::new(c.len(), |i: int| (c[c.len() - 1 - i].0, !c[c.len() - 1 - i].1))
}

/// The vertex that a run starts at.
pub open spec fn anchor(edges: Map<NodeId, EdgeEntity>, run: Seq<(NodeView, bool)>) -> u64 {
    if run.len() > 0 && edges.contains_key(run[0].0.id) {
        if run[0].1 {
            edges[run[0].0.id].start
        } else {
            edges[run[0].0.id].end
        }
    } else {
        0
    }
}

/// The oriented edges of a course.
pub open spec fn oriented(w: WriterView, c: Seq<(u64, bool)>) -> WriterView
    decreases c.len(),
{
    if c.len() == 0 {
        w
    } else {
        oriented(w, c.drop_last()).entity(
            "ORIENTED_EDGE('',*,*,"@ + refer(c.last().0) + (if c.last().1 {
                ",.T.)"@
            } else {
                ",.F.)"@
            }),
        )
    }
}

/// The numbers of those oriented edges.
pub open spec fn oriented_ids(w: WriterView, c: Seq<(u64, bool)>) -> Seq<u64>
    decreases c.len(),
{
    if c.len() == 0 {
        Seq::empty()
    } else {
        oriented_ids(w, c.drop_last()).push(oriented(w, c).n)
    }
}

/// A bound along a course.
pub open spec fn bound_written(w: WriterView, c: Seq<(u64, bool)>) -> WriterView {
    let el = oriented(w, c).entity("EDGE_LOOP('',"@ + ref_list(oriented_ids(w, c)) + ")"@);
    el.entity("FACE_BOUND('',"@ + refer(el.n) + ",.T.)"@)
}

/// The course around a band: one rim, the seam, the other rim, and the seam
/// back. The rims must travel opposite ways round the period to bound a band
/// between them.
pub open spec fn circuit(
    a: Seq<(u64, bool)>,
    b: Seq<(u64, bool)>,
    same_way: bool,
    seam: u64,
) -> Seq<(u64, bool)> {
    a + seq![(seam, true)] + (if same_way {
        turned_course(b)
    } else {
        b
    }) + seq![(seam, false)]
}

fn turn(c: &Vec<(u64, bool)>) -> (r: Vec<(u64, bool)>)
    ensures
        r@ == turned_course(c@),
{
    let n: usize = c.len();
    let mut out: Vec<(u64, bool)> = Vec::new();
    let mut i: usize = 0;
    while i < n
        invariant
            i <= n,
            n == c@.len(),
            out@ == turned_course(c@).take(i as int),
        decreases n - i,
    {
        let (id, forward) = c[n - 1 - i];
        out.push((id, !forward));
        assert(out@ =~= turned_course(c@).take(i + 1));
        i += 1;
    }
    assert(out@ =~= turned_course(c@));
    out
}

/// Write a bound along a course; its number.
fn write_bound(w: &mut Writer, c: &Vec<(u64, bool)>) -> (id: u64)
    ensures
        final(w)@ == bound_written(old(w)@, c@),
        id == final(w)@.n,
{
    let ghost start = w@;
    let mut ids: Vec<u64> = Vec::new();
    let mut i: usize = 0;
    assert(ids@ =~= oriented_ids(start, c@.take(0)));
    while i < c.len()
        invariant
            i <= c@.len(),
            w@ == oriented(start, c@.take(i as int)),
            ids@ == oriented_ids(start, c@.take(i as int)),
        decreases c@.len() - i,
    {
        assert(c@.take(i + 1).drop_last() =~= c@.take(i as int));
        assert(c@.take(i + 1).last() == c@[i as int]);
        let (edge, forward) = c[i];
        let mut s = "ORIENTED_EDGE('',*,*,".to_owned();
        push_ref(&mut s, edge);
        if forward {
            s.append(",.T.)");
        } else {
            s.append(",.F.)");
        }
        assert(s@ =~= "ORIENTED_EDGE('',*,*,"@ + refer(edge) + (if forward {
            ",.T.)"@
        } else {
            ",.F.)"@
        }));
        let id: u64 = w.add(s.as_str());
        ids.push(id);
        i += 1;
    }
    assert(c@.take(i as int) =~= c@);
    let mut s = "EDGE_LOOP('',".to_owned();
    s.append(list_u32(ids.as_slice()).as_str());
    s.append(")");
    let el: u64 = w.add(s.as_str());
    let mut t = "FACE_BOUND('',".to_owned();
    push_ref(&mut t, el);
    t.append(",.T.)");
    w.add(t.as_str())
}

impl Shared {
    /// The curves of a run.
    fn course_of(&self, run: &Run) -> (r: Vec<(u64, bool)>)
        ensures
            r@ == course(self@.edges, step_views(run.steps@)),
    {
        let ghost whole = course(self@.edges, step_views(run.steps@));
        let mut out: Vec<(u64, bool)> = Vec::new();
        let mut i: usize = 0;
        while i < run.steps.len()
            invariant
                i <= run.steps@.len(),
                whole == course(self@.edges, step_views(run.steps@)),
                out@ == whole.take(i as int),
            decreases run.steps@.len() - i,
        {
            let (edge, forward) = run.steps[i];
            let id: u64 = match self.edges.get(&edge.id) {
                Some(e) => e.curve,
                None => 0,
            };
            out.push((id, forward));
            assert(out@ =~= whole.take(i + 1));
            i += 1;
        }
        assert(out@ =~= whole);
        out
    }

    /// The vertex that a run starts at.
    fn anchor_of(&self, run: &Run) -> (r: u64)
        ensures
            r == anchor(self@.edges, step_views(run.steps@)),
    {
        if run.steps.len() == 0 {
            return 0;
        }
        let (edge, forward) = run.steps[0];
        assert(step_views(run.steps@)[0] == (edge@, forward));
        match self.edges.get(&edge.id) {
            Some(e) => if forward {
                e.start
            } else {
                e.end
            },
            None => 0,
        }
    }
}

/// A pair that can be joined: both loops are there, and the seam has samples.
pub open spec fn pair_holds(
    plan: PlanView,
    runs: Seq<Seq<(NodeView, bool)>>,
    p: int,
) -> bool {
    &&& 0 <= p < plan.seams.len()
    &&& plan.pairs[p].0 < runs.len()
    &&& plan.pairs[p].1 < runs.len()
    &&& plan.seams[p].points@.len() >= 2
}

/// Two loops wind the same way round.
pub open spec fn winds_alike(windings: Seq<Option<Winding>>, i: int, j: int) -> bool {
    match (
        if 0 <= i < windings.len() {
            windings[i]
        } else {
            None
        },
        if 0 <= j < windings.len() {
            windings[j]
        } else {
            None
        },
    ) {
        (Some(a), Some(b)) => a.positive == b.positive,
        _ => false,
    }
}

/// The bound of one pair of loops that a seam joins.
pub open spec fn pair_written(
    w: WriterView,
    numbers: Map<u64, String>,
    edges: Map<NodeId, EdgeEntity>,
    plan: PlanView,
    runs: Seq<Seq<(NodeView, bool)>>,
    p: int,
) -> WriterView {
    let i = plan.pairs[p].0 as int;
    let j = plan.pairs[p].1 as int;
    let curve = polyline_written(w, numbers, plan.seams[p]).0;
    let seam = curve.entity(
        "EDGE_CURVE('',"@ + refer(anchor(edges, runs[i])) + ","@ + refer(anchor(edges, runs[j]))
            + ","@ + refer(curve.n) + ",.T.)"@,
    );
    bound_written(
        seam,
        circuit(
            course(edges, runs[i]),
            course(edges, runs[j]),
            winds_alike(plan.windings, i, j),
            seam.n,
        ),
    )
}

/// The bounds of the first `n` pairs.
pub open spec fn pairs_written(
    w: WriterView,
    numbers: Map<u64, String>,
    edges: Map<NodeId, EdgeEntity>,
    plan: PlanView,
    runs: Seq<Seq<(NodeView, bool)>>,
    n: int,
) -> (WriterView, Seq<u64>)
    decreases n,
{
    if n <= 0 {
        (w, Seq::empty())
    } else {
        let (before, ids) = pairs_written(w, numbers, edges, plan, runs, n - 1);
        if pair_holds(plan, runs, n - 1) {
            let after = pair_written(before, numbers, edges, plan, runs, n - 1);
            (after, ids.push(after.n))
        } else {
            (before, ids)
        }
    }
}

/// A loop is in one of the pairs that are joined.
pub open spec fn joined_up(plan: PlanView, runs: Seq<Seq<(NodeView, bool)>>, k: int) -> bool {
    exists|p: int|
        0 <= p < plan.pairs.len() && #[trigger] pair_holds(plan, runs, p) && (plan.pairs[p].0 == k
            || plan.pairs[p].1 == k)
}

/// The bounds of those of the first `n` loops that no seam joins.
pub open spec fn loops_written(
    w: WriterView,
    edges: Map<NodeId, EdgeEntity>,
    plan: PlanView,
    runs: Seq<Seq<(NodeView, bool)>>,
    n: int,
) -> (WriterView, Seq<u64>)
    decreases n,
{
    if n <= 0 {
        (w, Seq::empty())
    } else {
        let (before, ids) = loops_written(w, edges, plan, runs, n - 1);
        if joined_up(plan, runs, n - 1) {
            (before, ids)
        } else {
            let after = bound_written(before, course(edges, runs[n - 1]));
            (after, ids.push(after.n))
        }
    }
}

/// All the bounds of a face.
pub open spec fn bounds_written(
    w: WriterView,
    numbers: Map<u64, String>,
    edges: Map<NodeId, EdgeEntity>,
    plan: PlanView,
    runs: Seq<Seq<(NodeView, bool)>>,
) -> (WriterView, Seq<u64>) {
    let (first, pairs) = pairs_written(
        w,
        numbers,
        edges,
        plan,
        runs,
        plan.pairs.len() as int,
    );
    let (second, loops) = loops_written(first, edges, plan, runs, runs.len() as int);
    (second, pairs + loops)
}

impl Shared {
    /// Write the bound of a pair of loops that a seam joins; its number.
    fn pair(
        &mut self,
        numbers: &HashMap<u64, String>,
        plan: &FacePlan,
        runs: &Vec<Run>,
        p: usize,
    ) -> (id: u64)
        requires
            p < plan.pairs@.len(),
            pair_holds(plan@, run_views(runs@), p as int),
        ensures
            final(self)@.w == pair_written(
                old(self)@.w,
                numbers@,
                old(self)@.edges,
                plan@,
                run_views(runs@),
                p as int,
            ),
            final(self)@.edges == old(self)@.edges,
            final(self)@.vertices == old(self)@.vertices,
            id == final(self)@.w.n,
    {
        let (i, j) = plan.pairs[p];
        let ghost views = run_views(runs@);
        assert(views[i as int] == step_views(runs@[i as int].steps@));
        assert(views[j as int] == step_views(runs@[j as int].steps@));
        let va: u64 = self.anchor_of(&runs[i]);
        let vb: u64 = self.anchor_of(&runs[j]);
        let a = self.course_of(&runs[i]);
        let b = self.course_of(&runs[j]);
        let curve: u64 = match polyline_bspline(&mut self.w, numbers, &plan.seams[p]) {
            Some(id) => id,
            None => 0,
        };
        let mut s = "EDGE_CURVE('',".to_owned();
        push_ref(&mut s, va);
        s.append(",");
        push_ref(&mut s, vb);
        s.append(",");
        push_ref(&mut s, curve);
        s.append(",.T.)");
        assert(s@ =~= "EDGE_CURVE('',"@ + refer(va) + ","@ + refer(vb) + ","@ + refer(curve)
            + ",.T.)"@);
        let seam: u64 = self.w.add(s.as_str());
        let wi: Option<Winding> = if i < plan.windings.len() {
            plan.windings[i]
        } else {
            None
        };
        let wj: Option<Winding> = if j < plan.windings.len() {
            plan.windings[j]
        } else {
            None
        };
        let alike: bool = match (wi, wj) {
            (Some(x), Some(y)) => x.positive == y.positive,
            _ => false,
        };
        assert(alike == winds_alike(plan.windings@, i as int, j as int));
        let other: Vec<(u64, bool)> = if alike {
            turn(&b)
        } else {
            b
        };
        let mut c: Vec<(u64, bool)> = a;
        c.push((seam, true));
        let ghost head = c@;
        let mut k: usize = 0;
        while k < other.len()
            invariant
                k <= other@.len(),
                c@ == head + other@.take(k as int),
            decreases other@.len() - k,
        {
            c.push(other[k]);
            assert(c@ =~= head + other@.take(k + 1));
            k += 1;
        }
        c.push((seam, false));
        assert(c@ =~= circuit(a@, b@, alike, seam));
        write_bound(&mut self.w, &c)
    }

    /// Write all the bounds of a face; their numbers.
    fn bounds(&mut self, numbers: &HashMap<u64, String>, plan: &FacePlan, runs: &Vec<Run>) -> (r:
        Vec<u64>)
        ensures
            (final(self)@.w, r@) == bounds_written(
                old(self)@.w,
                numbers@,
                old(self)@.edges,
                plan@,
                run_views(runs@),
            ),
            final(self)@.edges == old(self)@.edges,
            final(self)@.vertices == old(self)@.vertices,
    {
        let ghost start = self@;
        let ghost views = run_views(runs@);
        let mut used: Vec<bool> = Vec::new();
        let mut c: usize = 0;
        while c < runs.len()
            invariant
                c <= runs@.len(),
                used@.len() == c,
                forall|k: int| 0 <= k < c ==> !used@[k],
            decreases runs@.len() - c,
        {
            used.push(false);
            c += 1;
        }
        let mut ids: Vec<u64> = Vec::new();
        let mut p: usize = 0;
        while p < plan.pairs.len()
            invariant
                p <= plan.pairs@.len(),
                views == run_views(runs@),
                used@.len() == runs@.len(),
                self@.edges == start.edges,
                self@.vertices == start.vertices,
                (self@.w, ids@) == pairs_written(
                    start.w,
                    numbers@,
                    start.edges,
                    plan@,
                    views,
                    p as int,
                ),
                forall|k: int|
                    0 <= k < used@.len() ==> #[trigger] used@[k] == (exists|q: int|
                        0 <= q < p && #[trigger] pair_holds(plan@, views, q) && (plan.pairs@[q].0
                            == k || plan.pairs@[q].1 == k)),
            decreases plan.pairs@.len() - p,
        {
            let (i, j) = plan.pairs[p];
            let ghost before = used@;
            if p < plan.seams.len() && i < runs.len() && j < runs.len()
                && plan.seams[p].points.len() >= 2 {
                assert(pair_holds(plan@, views, p as int));
                let id: u64 = self.pair(numbers, plan, runs, p);
                ids.push(id);
                used.set(i, true);
                used.set(j, true);
            } else {
                assert(!pair_holds(plan@, views, p as int));
            }
            assert forall|k: int| 0 <= k < used@.len() implies #[trigger] used@[k] == (exists|
                q: int,
            |
                0 <= q < p + 1 && #[trigger] pair_holds(plan@, views, q) && (plan.pairs@[q].0 == k
                    || plan.pairs@[q].1 == k)) by {
                let was = before[k];
                if was {
                    let q = choose|q: int|
                        0 <= q < p && #[trigger] pair_holds(plan@, views, q) && (plan.pairs@[q].0
                            == k || plan.pairs@[q].1 == k);
                    assert(pair_holds(plan@, views, q));
                }
                if used@[k] && !was {
                    assert(pair_holds(plan@, views, p as int));
                    assert(plan.pairs@[p as int].0 == k || plan.pairs@[p as int].1 == k);
                }
            }
            p += 1;
        }
        let ghost first = self@;
        let ghost pair_ids = ids@;
        let mut k: usize = 0;
        assert(ids@ =~= pair_ids + loops_written(first.w, start.edges, plan@, views, 0).1);
        while k < runs.len()
            invariant
                k <= runs@.len(),
                views == run_views(runs@),
                used@.len() == runs@.len(),
                forall|k: int|
                    0 <= k < used@.len() ==> #[trigger] used@[k] == joined_up(plan@, views, k),
                self@.edges == start.edges,
                self@.vertices == start.vertices,
                self@.w == loops_written(first.w, start.edges, plan@, views, k as int).0,
                ids@ == pair_ids + loops_written(first.w, start.edges, plan@, views, k as int).1,
            decreases runs@.len() - k,
        {
            assert(views[k as int] == step_views(runs@[k as int].steps@));
            if !used[k] {
                let c = self.course_of(&runs[k]);
                let id: u64 = write_bound(&mut self.w, &c);
                ids.push(id);
                assert(ids@ =~= pair_ids + loops_written(
                    first.w,
                    start.edges,
                    plan@,
                    views,
                    k + 1,
                ).1);
            }
            k += 1;
        }
        ids
    }
}

// ---- faces ----

/// What was written, the faces among it, and how many were left out.
#[verifier::ext_equal]
pub struct BodyView {
    pub shared: SharedView,
    pub faces: Seq<NodeId>,
    pub entities: Seq<u64>,
    pub skipped: nat,
}

/// The plan of a face; without one no loop is joined.
pub open spec fn plan_of(plans: Map<NodeId, FacePlan>, face: NodeId) -> PlanView {
    if plans.contains_key(face) {
        plans[face]@
    } else {
        PlanView { windings: Seq::empty(), pairs: Seq::empty(), seams: Seq::empty() }
    }
}

/// A face on its surface, with its bounds. Outward normal = parametric normal x
/// surface sense x face sense; the STEP surface reproduces the parametric
/// normal, so the sense is the product of the two senses.
pub open spec fn face_on(
    body: BodyView,
    shapes: Shapes,
    g: GraphView,
    plan: PlanView,
    face: NodeView,
    surface: NodeView,
    w: WriterView,
) -> BodyView {
    let runs = runs_of(g, shapes.edges@, face);
    let shared = all_edges_written(SharedView { w, ..body.shared }, shapes, g, runs);
    let (bounded, bounds) = bounds_written(shared.w, shapes.numbers@, shared.edges, plan, runs);
    let af = bounded.entity(
        "ADVANCED_FACE('f"@ + signed_decimal(face.id as int) + "',"@ + ref_list(bounds) + ","@
            + refer(w.n) + (if face.positive() == surface.positive() {
            ",.T.)"@
        } else {
            ",.F.)"@
        }),
    );
    BodyView {
        shared: SharedView { w: af, ..shared },
        faces: body.faces.push(face.id),
        entities: body.entities.push(af.n),
        skipped: body.skipped,
    }
}

/// A face; one whose surface cannot be written is left out.
pub open spec fn face_written(
    body: BodyView,
    shapes: Shapes,
    g: GraphView,
    plans: Map<NodeId, FacePlan>,
    face: NodeView,
) -> BodyView {
    match g.follow(face, "surface"@) {
        None => BodyView { skipped: body.skipped + 1, ..body },
        Some(surface) => {
            let (w, ok) = surface_written(
                body.shared.w,
                shapes,
                g,
                face.id,
                surface,
                MAX_OFFSETS as nat,
            );
            if ok {
                face_on(body, shapes, g, plan_of(plans, face.id), face, surface, w)
            } else {
                BodyView {
                    shared: SharedView { w, ..body.shared },
                    skipped: body.skipped + 1,
                    ..body
                }
            }
        },
    }
}

/// A face is to be written: all are, or those of a list.
pub open spec fn asked_for(only: Option<&[NodeId]>, face: NodeId) -> bool {
    match only {
        Some(list) => list@.contains(face),
        None => true,
    }
}

/// Nothing written yet.
pub open spec fn blank_body() -> BodyView {
    BodyView {
        shared: SharedView {
            w: WriterView::blank(),
            vertices: Map::empty(),
            edges: Map::empty(),
        },
        faces: Seq::empty(),
        entities: Seq::empty(),
        skipped: 0,
    }
}

/// Faces, in order.
pub open spec fn faces_written(
    shapes: Shapes,
    g: GraphView,
    plans: Map<NodeId, FacePlan>,
    only: Option<&[NodeId]>,
    faces: Seq<NodeView>,
) -> BodyView
    decreases faces.len(),
{
    if faces.len() == 0 {
        blank_body()
    } else {
        let before = faces_written(shapes, g, plans, only, faces.drop_last());
        if asked_for(only, faces.last().id) {
            face_written(before, shapes, g, plans, faces.last())
        } else {
            before
        }
    }
}

/// A body under construction.
struct Body {
    shared: Shared,
    faces: Vec<NodeId>,
    entities: Vec<u64>,
    skipped: usize,
}

impl View for Body {
    type V = BodyView;

    closed spec fn view(&self) -> BodyView {
        BodyView {
            shared: self.shared@,
            faces: self.faces@,
            entities: self.entities@,
            skipped: self.skipped as nat,
        }
    }
}

impl Body {
    /// Write a face on its surface.
    fn bounded(
        &mut self,
        shapes: &Shapes,
        graph: &Graph,
        plan: &FacePlan,
        face: &Node,
        surface: &Node,
        id: u64,
    )
        requires
            id == old(self)@.shared.w.n,
        ensures
            final(self)@ == face_on(
                old(self)@,
                *shapes,
                graph@,
                plan@,
                face@,
                surface@,
                old(self)@.shared.w,
            ),
    {
        let ghost start = self@;
        let runs = face_runs(graph, &shapes.edges, face);
        self.shared.all_edges(shapes, graph, &runs);
        let bounds = self.shared.bounds(&shapes.numbers, plan, &runs);
        let mut s = "ADVANCED_FACE('f".to_owned();
        push_signed(&mut s, face.id as i64);
        s.append("',");
        s.append(list_u32(bounds.as_slice()).as_str());
        s.append(",");
        push_ref(&mut s, id);
        if face.sense_positive() == surface.sense_positive() {
            s.append(",.T.)");
        } else {
            s.append(",.F.)");
        }
        assert(s@ =~= "ADVANCED_FACE('f"@ + signed_decimal(face.id as int) + "',"@ + ref_list(
            bounds@,
        ) + ","@ + refer(id) + (if face@.positive() == surface@.positive() {
            ",.T.)"@
        } else {
            ",.F.)"@
        }));
        let af: u64 = self.shared.w.add(s.as_str());
        self.faces.push(face.id);
        self.entities.push(af);
        assert((SharedView { w: start.shared.w, ..start.shared }) =~= start.shared);
        assert(self@ =~= face_on(
            start,
            *shapes,
            graph@,
            plan@,
            face@,
            surface@,
            start.shared.w,
        ));
    }

    /// Write a face, or count it as left out.
    fn face(
        &mut self,
        shapes: &Shapes,
        graph: &Graph,
        plans: &HashMap<NodeId, FacePlan>,
        face: &Node,
    )
        requires
            old(self)@.skipped < usize::MAX,
        ensures
            final(self)@ == face_written(old(self)@, *shapes, graph@, plans@, face@),
    {
        let ghost start = self@;
        let surface: &Node = match graph.deref(face, "surface") {
            Some(n) => n,
            None => {
                self.skipped += 1;
                assert(self@ =~= BodyView { skipped: start.skipped + 1, ..start });
                return ;
            },
        };
        let id: u64 = match surface_entity(&mut self.shared.w, shapes, graph, face.id, surface) {
            Some(id) => id,
            None => {
                self.skipped += 1;
                let ghost w = self@.shared.w;
                assert(self@ =~= BodyView {
                    shared: SharedView { w, ..start.shared },
                    skipped: start.skipped + 1,
                    ..start
                });
                return ;
            },
        };
        let ghost mid = self@;
        assert((SharedView { w: mid.shared.w, ..start.shared }) =~= mid.shared);
        match plans.get(&face.id) {
            Some(plan) => self.bounded(shapes, graph, plan, face, surface, id),
            None => {
                let none = FacePlan { windings: Vec::new(), pairs: Vec::new(), seams: Vec::new() };
                assert(none@ =~= plan_of(plans@, face@.id));
                self.bounded(shapes, graph, &none, face, surface, id)
            },
        }
    }
}

// ---- the file ----

/// Solid bodies get a closed shell; everything else is a sheet.
pub open spec fn is_solid(g: GraphView) -> bool {
    let bodies = of_type(g.nodes, g.order, "BODY"@);
    if bodies.len() == 0 {
        true
    } else {
        match bodies[0].field("body_type"@) {
            Some(v) => match v.integer() {
                Some(t) => t == 1,
                None => true,
            },
            None => true,
        }
    }
}

/// The shell and the shape made of it.
pub open spec fn shape_written(w: WriterView, solid: bool, faces: Seq<u64>) -> WriterView {
    if solid {
        let shell = w.entity("CLOSED_SHELL('',"@ + ref_list(faces) + ")"@);
        shell.entity("MANIFOLD_SOLID_BREP('',"@ + refer(shell.n) + ")"@)
    } else {
        let shell = w.entity("OPEN_SHELL('',"@ + ref_list(faces) + ")"@);
        shell.entity("SHELL_BASED_SURFACE_MODEL('',("@ + refer(shell.n) + "))"@)
    }
}

/// The product that the shape is of.
pub open spec fn product_written(w: WriterView) -> WriterView {
    let app = w.entity("APPLICATION_CONTEXT('automotive design')"@);
    let protocol = app.entity(
        "APPLICATION_PROTOCOL_DEFINITION('','automotive_design',2010,"@ + refer(app.n) + ")"@,
    );
    let pctx = protocol.entity("PRODUCT_CONTEXT('',"@ + refer(app.n) + ",'mechanical')"@);
    let prod = pctx.entity("PRODUCT('part','part','',("@ + refer(pctx.n) + "))"@);
    let pdf = prod.entity("PRODUCT_DEFINITION_FORMATION('','',"@ + refer(prod.n) + ")"@);
    let pdc = pdf.entity(
        "PRODUCT_DEFINITION_CONTEXT('part definition',"@ + refer(app.n) + ",'design')"@,
    );
    let pd = pdc.entity(
        "PRODUCT_DEFINITION('design','',"@ + refer(pdf.n) + ","@ + refer(pdc.n) + ")"@,
    );
    pd.entity("PRODUCT_DEFINITION_SHAPE('','',"@ + refer(pd.n) + ")"@)
}

/// The units: metres, radians, 1e-6 uncertainty.
pub open spec fn units_written(w: WriterView) -> WriterView {
    let lu = w.entity("(LENGTH_UNIT()NAMED_UNIT(*)SI_UNIT($,.METRE.))"@);
    let au = lu.entity("(NAMED_UNIT(*)PLANE_ANGLE_UNIT()SI_UNIT($,.RADIAN.))"@);
    let su = au.entity("(NAMED_UNIT(*)SI_UNIT($,.STERADIAN.)SOLID_ANGLE_UNIT())"@);
    let unc = su.entity(
        "UNCERTAINTY_MEASURE_WITH_UNIT(LENGTH_MEASURE(1.0E-6),"@ + refer(lu.n)
            + ",'distance_accuracy_value','')"@,
    );
    unc.entity(
        "(GEOMETRIC_REPRESENTATION_CONTEXT(3)GLOBAL_UNCERTAINTY_ASSIGNED_CONTEXT(("@ + refer(unc.n)
            + "))GLOBAL_UNIT_ASSIGNED_CONTEXT(("@ + refer(lu.n) + ","@ + refer(au.n) + ","@
            + refer(su.n) + "))REPRESENTATION_CONTEXT('',''))"@,
    )
}

/// What stands in front of the entities.
pub open spec fn heading() -> Seq<char> {
    "ISO-10303-21;\nHEADER;\nFILE_DESCRIPTION((''),'2;1');\nFILE_NAME('solid-diff.step','',(''),(''),'solid-diff','solid-diff','');\nFILE_SCHEMA(('AUTOMOTIVE_DESIGN { 1 0 10303 214 1 1 1 1 }'));\nENDSEC;\nDATA;\n"@
}

/// What stands behind them.
pub open spec fn ending() -> Seq<char> {
    "ENDSEC;\nEND-ISO-10303-21;\n"@
}

/// The entities of a whole file: the faces, their shape, and what it is of.
pub open spec fn file_written(
    w: WriterView,
    numbers: Map<u64, String>,
    solid: bool,
    faces: Seq<u64>,
) -> WriterView {
    let shape = shape_written(w, solid, faces);
    let product = product_written(shape);
    let units = units_written(product);
    let origin = units.ax2(
        numbers,
        seq![0u64, 0u64, 0u64],
        seq![0u64, 0u64, ONE_BITS],
        seq![ONE_BITS, 0u64, 0u64],
    );
    let rep = origin.entity(
        (if solid {
            "ADVANCED_BREP_SHAPE_REPRESENTATION"@
        } else {
            "MANIFOLD_SURFACE_SHAPE_REPRESENTATION"@
        }) + "('',("@ + refer(origin.n) + ","@ + refer(shape.n) + "),"@ + refer(units.n) + ")"@,
    );
    rep.entity("SHAPE_DEFINITION_REPRESENTATION("@ + refer(product.n) + ","@ + refer(rep.n) + ")"@)
}

/// Write an entity of a name, one reference and an ending.
fn write_one(w: &mut Writer, head: &str, id: u64, tail: &str) -> (r: u64)
    ensures
        final(w)@ == old(w)@.entity(head@ + refer(id) + tail@),
        r == final(w)@.n,
{
    let mut s = head.to_owned();
    push_ref(&mut s, id);
    s.append(tail);
    w.add(s.as_str())
}

fn write_shape(w: &mut Writer, solid: bool, faces: &Vec<u64>) -> (r: u64)
    ensures
        final(w)@ == shape_written(old(w)@, solid, faces@),
        r == final(w)@.n,
{
    if solid {
        let mut s = "CLOSED_SHELL('',".to_owned();
        s.append(list_u32(faces.as_slice()).as_str());
        s.append(")");
        let shell: u64 = w.add(s.as_str());
        write_one(w, "MANIFOLD_SOLID_BREP('',", shell, ")")
    } else {
        let mut s = "OPEN_SHELL('',".to_owned();
        s.append(list_u32(faces.as_slice()).as_str());
        s.append(")");
        let shell: u64 = w.add(s.as_str());
        write_one(w, "SHELL_BASED_SURFACE_MODEL('',(", shell, "))")
    }
}

fn write_product(w: &mut Writer) -> (r: u64)
    ensures
        final(w)@ == product_written(old(w)@),
        r == final(w)@.n,
{
    let app: u64 = w.add("APPLICATION_CONTEXT('automotive design')");
    write_one(w, "APPLICATION_PROTOCOL_DEFINITION('','automotive_design',2010,", app, ")");
    let pctx: u64 = write_one(w, "PRODUCT_CONTEXT('',", app, ",'mechanical')");
    let prod: u64 = write_one(w, "PRODUCT('part','part','',(", pctx, "))");
    let pdf: u64 = write_one(w, "PRODUCT_DEFINITION_FORMATION('','',", prod, ")");
    let pdc: u64 = write_one(
        w,
        "PRODUCT_DEFINITION_CONTEXT('part definition',",
        app,
        ",'design')",
    );
    let mut s = "PRODUCT_DEFINITION('design','',".to_owned();
    push_ref(&mut s, pdf);
    s.append(",");
    push_ref(&mut s, pdc);
    s.append(")");
    let pd: u64 = w.add(s.as_str());
    write_one(w, "PRODUCT_DEFINITION_SHAPE('','',", pd, ")")
}

fn write_units(w: &mut Writer) -> (r: u64)
    ensures
        final(w)@ == units_written(old(w)@),
        r == final(w)@.n,
{
    let lu: u64 = w.add("(LENGTH_UNIT()NAMED_UNIT(*)SI_UNIT($,.METRE.))");
    let au: u64 = w.add("(NAMED_UNIT(*)PLANE_ANGLE_UNIT()SI_UNIT($,.RADIAN.))");
    let su: u64 = w.add("(NAMED_UNIT(*)SI_UNIT($,.STERADIAN.)SOLID_ANGLE_UNIT())");
    let unc: u64 = write_one(
        w,
        "UNCERTAINTY_MEASURE_WITH_UNIT(LENGTH_MEASURE(1.0E-6),",
        lu,
        ",'distance_accuracy_value','')",
    );
    let mut s =
        "(GEOMETRIC_REPRESENTATION_CONTEXT(3)GLOBAL_UNCERTAINTY_ASSIGNED_CONTEXT((".to_owned();
    push_ref(&mut s, unc);
    s.append("))GLOBAL_UNIT_ASSIGNED_CONTEXT((");
    push_ref(&mut s, lu);
    s.append(",");
    push_ref(&mut s, au);
    s.append(",");
    push_ref(&mut s, su);
    s.append("))REPRESENTATION_CONTEXT('',''))");
    w.add(s.as_str())
}

fn write_file(w: &mut Writer, numbers: &HashMap<u64, String>, solid: bool, faces: &Vec<u64>)
    ensures
        final(w)@ == file_written(old(w)@, numbers@, solid, faces@),
{
    let shape: u64 = write_shape(w, solid, faces);
    let product: u64 = write_product(w);
    let units: u64 = write_units(w);
    let (o, z, x): (Point, Point, Point) = ([0, 0, 0], [0, 0, ONE_BITS], [ONE_BITS, 0, 0]);
    assert(o@ =~= seq![0u64, 0u64, 0u64]);
    assert(z@ =~= seq![0u64, 0u64, ONE_BITS]);
    assert(x@ =~= seq![ONE_BITS, 0u64, 0u64]);
    let origin: u64 = w.ax2(numbers, o, z, x);
    let mut s = if solid {
        "ADVANCED_BREP_SHAPE_REPRESENTATION".to_owned()
    } else {
        "MANIFOLD_SURFACE_SHAPE_REPRESENTATION".to_owned()
    };
    s.append("('',(");
    push_ref(&mut s, origin);
    s.append(",");
    push_ref(&mut s, shape);
    s.append("),");
    push_ref(&mut s, units);
    s.append(")");
    let rep: u64 = w.add(s.as_str());
    let mut t = "SHAPE_DEFINITION_REPRESENTATION(".to_owned();
    push_ref(&mut t, product);
    t.append(",");
    push_ref(&mut t, rep);
    t.append(")");
    w.add(t.as_str());
}

/// A body is solid.
fn solid_body(graph: &Graph) -> (r: bool)
    ensures
        r == is_solid(graph@),
{
    let bodies = graph.by_type("BODY");
    assert(found_views(bodies@).len() == bodies@.len());
    if bodies.len() == 0 {
        return true;
    }
    assert(found_views(bodies@)[0] == bodies@[0]@);
    match bodies[0].i64("body_type") {
        Some(t) => t == 1,
        None => true,
    }
}

/// Export a body as STEP, from what was evaluated of its geometry.
pub fn export(graph: &Graph, shapes: &Shapes, plans: &HashMap<NodeId, FacePlan>) -> (r: StepExport)
    ensures
        exported(r, graph@, *shapes, plans@, None),
{
    export_faces(graph, shapes, plans, None)
}

/// What an export is: the entities of the faces that could be written and of
/// their shape, between heading and ending; the ids of those faces; and how
/// many were left out.
pub open spec fn exported(
    r: StepExport,
    g: GraphView,
    shapes: Shapes,
    plans: Map<NodeId, FacePlan>,
    only: Option<&[NodeId]>,
) -> bool {
    let body = faces_written(shapes, g, plans, only, of_type(g.nodes, g.order, "FACE"@));
    let w = file_written(body.shared.w, shapes.numbers@, is_solid(g), body.entities);
    &&& r.text@ == heading() + w.body + ending()
    &&& r.faces@ == body.faces
    &&& r.skipped == body.skipped
}

/// As [`export`], restricted to the given FACE node ids (debugging aid).
pub fn export_faces(
    graph: &Graph,
    shapes: &Shapes,
    plans: &HashMap<NodeId, FacePlan>,
    only: Option<&[NodeId]>,
) -> (r: StepExport)
    ensures
        exported(r, graph@, *shapes, plans@, only),
{
    let faces = graph.by_type("FACE");
    let ghost views = found_views(faces@);
    let mut body = Body {
        shared: Shared::new(),
        faces: Vec::new(),
        entities: Vec::new(),
        skipped: 0,
    };
    assert(body@ =~= blank_body());
    let mut i: usize = 0;
    while i < faces.len()
        invariant
            i <= faces@.len(),
            views == found_views(faces@),
            body@.skipped <= i,
            body@ == faces_written(*shapes, graph@, plans@, only, views.take(i as int)),
        decreases faces@.len() - i,
    {
        let face = faces[i];
        assert(views.take(i + 1).drop_last() =~= views.take(i as int));
        assert(views.take(i + 1).last() == face@);
        let wanted: bool = match only {
            Some(list) => listed(list, face.id),
            None => true,
        };
        if wanted {
            body.face(shapes, graph, plans, face);
        }
        i += 1;
    }
    assert(views.take(i as int) =~= views);
    write_file(&mut body.shared.w, &shapes.numbers, solid_body(graph), &body.entities);
    let mut text = "ISO-10303-21;\nHEADER;\nFILE_DESCRIPTION((''),'2;1');\nFILE_NAME('solid-diff.step','',(''),(''),'solid-diff','solid-diff','');\nFILE_SCHEMA(('AUTOMOTIVE_DESIGN { 1 0 10303 214 1 1 1 1 }'));\nENDSEC;\nDATA;\n".to_owned();
    text.append(body.shared.w.body.as_str());
    text.append("ENDSEC;\nEND-ISO-10303-21;\n");
    StepExport { text, faces: body.faces, skipped: body.skipped }
}

/// An id is in a list.
fn listed(list: &[NodeId], id: NodeId) -> (r: bool)
    ensures
        r == list@.contains(id),
{
    let mut i: usize = 0;
    while i < list.len()
        invariant
            i <= list@.len(),
            forall|k: int| 0 <= k < i ==> list@[k] != id,
        decreases list@.len() - i,
    {
        if list[i] == id {
            assert(list@[i as int] == id);
            return true;
        }
        i += 1;
    }
    false
}

} // verus!
