//! Shared edge sampling: what each edge of the B-rep runs between, how finely
//! it is sampled, and how the samples of a loop join up.
//!
//! Edges are sampled once, in 3D, at the finest density any adjacent face
//! requires (first [`EdgeSampler::request`], then the samples), so both faces
//! of an edge see bit-identical boundary points.

use std::collections::HashMap;

use vstd::prelude::*;

use crate::double::{below, is_less, nan, rank, INFINITY_BITS};
use crate::graph::{found_views, Graph, GraphView};
use crate::text::{push_signed, same_text};
use crate::value::{same_triple, Node, NodeId, NodeView};

verus! {

broadcast use vstd::std_specs::hash::group_hash_axioms;

pub const MAX_EDGE_SAMPLES: usize = 1024;

/// A point, as the bits of its coordinates.
pub type Point = [u64; 3];

// ---- what an edge runs between ----

/// The point that a vertex field of a node leads to.
pub open spec fn point_at(g: GraphView, node: NodeView, field: Seq<char>) -> Option<Seq<u64>> {
    match g.follow(node, field) {
        Some(v) => match g.follow(v, "point"@) {
            Some(p) => match p.field("pvec"@) {
                Some(x) => x.coordinates(),
                None => None,
            },
            None => None,
        },
        None => None,
    }
}

/// The halfedge that runs along the curve of an edge.
pub open spec fn start_halfedge(g: GraphView, edge: NodeView) -> Option<NodeView> {
    match g.follow(edge, "halfedge"@) {
        Some(h) => if h.positive() {
            Some(h)
        } else {
            g.follow(h, "other"@)
        },
        None => None,
    }
}

/// Where an edge starts.
pub open spec fn start_point(g: GraphView, edge: NodeView) -> Option<Seq<u64>> {
    match start_halfedge(g, edge) {
        Some(h) => point_at(g, h, "vertex"@),
        None => None,
    }
}

/// Where an edge ends: at the vertex of the mate of its start.
pub open spec fn end_point(g: GraphView, edge: NodeView) -> Option<Seq<u64>> {
    match start_halfedge(g, edge) {
        Some(h) => match g.follow(h, "other"@) {
            Some(o) => point_at(g, o, "vertex"@),
            None => None,
        },
        None => None,
    }
}

pub fn vertex_point(graph: &Graph, node: &Node, field: &str) -> (r: Option<Point>)
    ensures
        same_triple(r, point_at(graph@, node@, field@)),
{
    match graph.deref(node, field) {
        Some(v) => match graph.deref(v, "point") {
            Some(p) => p.vec3("pvec"),
            None => None,
        },
        None => None,
    }
}

/// The two ends of an edge, from its '+' halfedge's start vertex. The '+'
/// halfedge runs along the curve: it starts at its own vertex and ends at its
/// mate's.
pub fn edge_ends(graph: &Graph, edge: &Node) -> (r: (Option<Point>, Option<Point>))
    ensures
        same_triple(r.0, start_point(graph@, edge@)),
        same_triple(r.1, end_point(graph@, edge@)),
{
    let he: Option<&Node> = match graph.deref(edge, "halfedge") {
        Some(h) => if h.sense_positive() {
            Some(h)
        } else {
            graph.deref(h, "other")
        },
        None => None,
    };
    match he {
        Some(h) => {
            let end: Option<Point> = match graph.deref(h, "other") {
                Some(o) => vertex_point(graph, o, "vertex"),
                None => None,
            };
            (vertex_point(graph, h, "vertex"), end)
        },
        None => (None, None),
    }
}

/// What an edge is sampled along.
#[derive(Debug, Clone, Copy, PartialEq, Eq)]
pub enum EdgeRange {
    /// No usable curve: straight line between the bounding vertices.
    Line(Point, Point),
    /// The curve between the bounding vertices.
    Between(Point, Point),
    /// Closed edge with no bounding vertices: the whole curve.
    Whole,
}

/// What an edge is sampled along, by its ends, by whether it has a curve, and
/// by whether that curve has a full range of its own. `None`: it cannot be
/// sampled.
pub fn edge_range(
    start: Option<Point>,
    end: Option<Point>,
    has_curve: bool,
    has_full_range: bool,
) -> (r: Option<EdgeRange>)
    ensures
        r == (match (start, end) {
            (Some(a), Some(b)) => if has_curve {
                Some(EdgeRange::Between(a, b))
            } else {
                Some(EdgeRange::Line(a, b))
            },
            _ => if has_curve && has_full_range {
                Some(EdgeRange::Whole)
            } else {
                None
            },
        }),
{
    match (start, end) {
        (Some(a), Some(b)) => if has_curve {
            Some(EdgeRange::Between(a, b))
        } else {
            Some(EdgeRange::Line(a, b))
        },
        _ => if has_curve && has_full_range {
            Some(EdgeRange::Whole)
        } else {
            None
        },
    }
}

// ---- edges without a curve ----

/// Surfaces with a closed form, of which the file states everything.
pub open spec fn exact_surface(name: Seq<char>) -> bool {
    name == "PLANE"@ || name == "CYLINDER"@ || name == "CONE"@ || name == "SPHERE"@ || name
        == "TORUS"@ || name == "SWEPT_SURF"@ || name == "SPUN_SURF"@ || name == "B_SURFACE"@ || name
        == "OFFSET_SURF"@
}

/// True for the name of a surface with a closed form.
pub fn is_exact_surface(name: &str) -> (r: bool)
    ensures
        r == exact_surface(name@),
{
    same_text(name, "PLANE") || same_text(name, "CYLINDER") || same_text(name, "CONE") || same_text(
        name,
        "SPHERE",
    ) || same_text(name, "TORUS") || same_text(name, "SWEPT_SURF") || same_text(name, "SPUN_SURF")
        || same_text(name, "B_SURFACE") || same_text(name, "OFFSET_SURF")
}

/// The surface of the face that a halfedge bounds.
pub open spec fn surface_beside(g: GraphView, he: NodeView) -> Option<NodeView> {
    match g.follow(he, "loop"@) {
        Some(l) => match g.follow(l, "face"@) {
            Some(f) => g.follow(f, "surface"@),
            None => None,
        },
        None => None,
    }
}

/// The surface of the face on the side of a halfedge.
pub fn face_surface_node<'a>(graph: &'a Graph, he: &'a Node) -> (r: Option<&'a Node>)
    ensures
        match r {
            Some(n) => surface_beside(graph@, he@) == Some(n@),
            None => surface_beside(graph@, he@) is None,
        },
{
    match graph.deref(he, "loop") {
        Some(l) => match graph.deref(l, "face") {
            Some(f) => graph.deref(f, "surface"),
            None => None,
        },
        None => None,
    }
}

/// The two surfaces whose intersection an edge is: they lie on either side of
/// it, differ, and both have a closed form.
pub open spec fn surfaces_across(g: GraphView, edge: NodeView) -> Option<(NodeView, NodeView)> {
    match g.follow(edge, "halfedge"@) {
        Some(h) => match g.follow(h, "other"@) {
            Some(o) => match (surface_beside(g, h), surface_beside(g, o)) {
                (Some(a), Some(b)) => if a.id != b.id && exact_surface(a.name) && exact_surface(
                    b.name,
                ) {
                    Some((a, b))
                } else {
                    None
                },
                _ => None,
            },
            None => None,
        },
        None => None,
    }
}

/// The surfaces from which an edge that carries no curve can be rebuilt, as
/// their intersection.
///
/// Declines rather than guesses when either surface has no closed form (a
/// BLENDED_EDGE is a reconstruction, not the file's) or both sides name the
/// same surface (a seam edge, where the "intersection" is the whole surface).
pub fn meeting_surfaces<'a>(graph: &'a Graph, edge: &'a Node) -> (r: Option<(&'a Node, &'a Node)>)
    ensures
        match r {
            Some((a, b)) => surfaces_across(graph@, edge@) == Some((a@, b@)),
            None => surfaces_across(graph@, edge@) is None,
        },
{
    let h: &Node = match graph.deref(edge, "halfedge") {
        Some(h) => h,
        None => {
            return None;
        },
    };
    let o: &Node = match graph.deref(h, "other") {
        Some(o) => o,
        None => {
            return None;
        },
    };
    match (face_surface_node(graph, h), face_surface_node(graph, o)) {
        (Some(a), Some(b)) => if a.id != b.id && is_exact_surface(a.name.as_str())
            && is_exact_surface(b.name.as_str()) {
            Some((a, b))
        } else {
            None
        },
        _ => None,
    }
}

// ---- the edges of a face ----

/// The edges of halfedges, in order; a halfedge without an edge has none.
pub open spec fn edges_along(g: GraphView, halfedges: Seq<NodeView>) -> Seq<NodeView>
    decreases halfedges.len(),
{
    if halfedges.len() == 0 {
        Seq::empty()
    } else {
        let before = edges_along(g, halfedges.drop_last());
        match g.follow(halfedges.last(), "edge"@) {
            Some(e) => before.push(e),
            None => before,
        }
    }
}

/// The edges of loops, in order.
pub open spec fn edges_around(g: GraphView, loops: Seq<NodeView>) -> Seq<NodeView>
    decreases loops.len(),
{
    if loops.len() == 0 {
        Seq::empty()
    } else {
        edges_around(g, loops.drop_last()) + edges_along(
            g,
            g.chain(loops.last().pointer("halfedge"@), "backward"@),
        )
    }
}

/// The edges of one loop, in the order in which its halfedges chain.
pub fn loop_edges<'a>(graph: &'a Graph, lp: &'a Node) -> (r: Vec<&'a Node>)
    ensures
        found_views(r@) == edges_along(
            graph@,
            graph@.chain(lp@.pointer("halfedge"@), "backward"@),
        ),
{
    let halfedges = graph.loop_halfedges(lp);
    let ghost views = found_views(halfedges@);
    let mut out: Vec<&'a Node> = Vec::new();
    let mut i: usize = 0;
    assert(found_views(out@) =~= edges_along(graph@, views.take(0)));
    while i < halfedges.len()
        invariant
            i <= halfedges@.len(),
            views == found_views(halfedges@),
            found_views(out@) == edges_along(graph@, views.take(i as int)),
        decreases halfedges@.len() - i,
    {
        assert(views.take(i + 1).drop_last() =~= views.take(i as int));
        assert(views.take(i + 1).last() == halfedges@[i as int]@);
        let ghost before = out@;
        if let Some(e) = graph.deref(halfedges[i], "edge") {
            out.push(e);
            assert(found_views(out@) =~= found_views(before).push(e@));
        }
        i += 1;
    }
    assert(views.take(i as int) =~= views);
    out
}

/// The edges of a face, loop by loop.
pub fn face_edges<'a>(graph: &'a Graph, face: &'a Node) -> (r: Vec<&'a Node>)
    ensures
        found_views(r@) == edges_around(graph@, graph@.chain(face@.pointer("loop"@), "next"@)),
{
    let loops = graph.face_loops(face);
    let ghost views = found_views(loops@);
    let mut out: Vec<&'a Node> = Vec::new();
    let mut i: usize = 0;
    assert(found_views(out@) =~= edges_around(graph@, views.take(0)));
    while i < loops.len()
        invariant
            i <= loops@.len(),
            views == found_views(loops@),
            found_views(out@) == edges_around(graph@, views.take(i as int)),
        decreases loops@.len() - i,
    {
        assert(views.take(i + 1).drop_last() =~= views.take(i as int));
        assert(views.take(i + 1).last() == loops@[i as int]@);
        let ghost before = out@;
        let found = loop_edges(graph, loops[i]);
        let mut k: usize = 0;
        while k < found.len()
            invariant
                k <= found@.len(),
                out@ == before + found@.take(k as int),
            decreases found@.len() - k,
        {
            out.push(found[k]);
            assert(out@ =~= before + found@.take(k + 1));
            k += 1;
        }
        assert(found@.take(k as int) =~= found@);
        assert(found_views(out@) =~= found_views(before) + found_views(found@));
        i += 1;
    }
    assert(views.take(i as int) =~= views);
    out
}

// ---- how finely an edge is sampled ----

/// The finer of two spacings.
pub open spec fn finer(a: u64, b: u64) -> u64 {
    if below(b, a) {
        b
    } else {
        a
    }
}

/// The spacing wanted of an edge: infinite where nothing was asked for.
pub open spec fn wanted(spacing: Map<NodeId, u64>, edge: NodeId) -> u64 {
    if spacing.contains_key(edge) {
        spacing[edge]
    } else {
        INFINITY_BITS
    }
}

/// The spacings after requests, made in order.
pub open spec fn requested(spacing: Map<NodeId, u64>, requests: Seq<(NodeId, u64)>) -> Map<
    NodeId,
    u64,
>
    decreases requests.len(),
{
    if requests.len() == 0 {
        spacing
    } else {
        let before = requested(spacing, requests.drop_last());
        let (edge, ask) = requests.last();
        before.insert(edge, finer(wanted(before, edge), ask))
    }
}

/// Edge and spacing in one key.
pub open spec fn cache_key(edge: NodeId, spacing: u64) -> u128 {
    ((edge + 0x80000000) * 0x10000000000000000 + spacing) as u128
}

/// Samples of edges, shared by both adjacent faces.
///
/// A first pass records the finest spacing each face wants via
/// [`request`](Self::request); the second one serves the samples, so boundary
/// points are bit-identical on both sides of every edge.
pub struct EdgeSampler {
    pub spacing: HashMap<NodeId, u64>,
    /// Keyed by edge and requested spacing: the first pass samples at the
    /// default spacing, the second at the negotiated one, and the two must not
    /// collide.
    pub cache: HashMap<u128, Vec<Point>>,
}

/// The contents of an edge sampler.
#[verifier::ext_equal]
pub struct SamplerView {
    pub spacing: Map<NodeId, u64>,
    pub cache: Map<u128, Seq<Point>>,
}

impl View for EdgeSampler {
    type V = SamplerView;

    open spec fn view(&self) -> SamplerView {
        SamplerView {
            spacing: self.spacing@,
            cache: self.cache@.map_values(|pts: Vec<Point>| pts@),
        }
    }
}

impl SamplerView {
    /// The samples that are served for an edge: those kept for the spacing that
    /// is wanted of it.
    pub open spec fn served(self, edge: NodeId) -> Option<Seq<Point>> {
        let k = cache_key(edge, wanted(self.spacing, edge));
        if self.cache.contains_key(k) {
            Some(self.cache[k])
        } else {
            None
        }
    }

    /// A spacing was asked for.
    pub open spec fn with_request(self, edge: NodeId, spacing: u64) -> SamplerView {
        SamplerView {
            spacing: self.spacing.insert(edge, finer(wanted(self.spacing, edge), spacing)),
            ..self
        }
    }

    /// Samples were kept.
    pub open spec fn with_samples(self, edge: NodeId, points: Seq<Point>) -> SamplerView {
        SamplerView {
            cache: self.cache.insert(cache_key(edge, wanted(self.spacing, edge)), points),
            ..self
        }
    }
}

/// Samples with the exact coordinates of the ends at their ends, where both are
/// known.
pub open spec fn pinned(
    points: Seq<Point>,
    start: Option<Seq<u64>>,
    end: Option<Seq<u64>>,
    r: Seq<Point>,
) -> bool {
    match (start, end) {
        (Some(a), Some(b)) => {
            &&& r.len() == points.len()
            &&& r[0]@ == a
            &&& r[r.len() - 1]@ == b
            &&& forall|i: int| 0 < i < r.len() - 1 ==> r[i] == points[i]
        },
        _ => r == points,
    }
}

impl EdgeSampler {
    pub fn new() -> (r: Self)
        ensures
            r.spacing@ == Map::<NodeId, u64>::empty(),
            r.cache@ == Map::<u128, Vec<Point>>::empty(),
    {
        EdgeSampler { spacing: HashMap::new(), cache: HashMap::new() }
    }

    /// The spacing wanted of an edge.
    pub fn spacing_of(&self, edge_id: NodeId) -> (r: u64)
        ensures
            r == wanted(self.spacing@, edge_id),
    {
        match self.spacing.get(&edge_id) {
            Some(s) => *s,
            None => INFINITY_BITS,
        }
    }

    /// Ask for this edge to be sampled at no coarser than `spacing` (3D).
    pub fn request(&mut self, edge_id: NodeId, spacing: u64)
        ensures
            final(self).spacing@ == old(self).spacing@.insert(
                edge_id,
                finer(wanted(old(self).spacing@, edge_id), spacing),
            ),
            final(self).cache == old(self).cache,
            final(self)@ == old(self)@.with_request(edge_id, spacing),
    {
        let now: u64 = self.spacing_of(edge_id);
        let next: u64 = if is_less(spacing, now) {
            spacing
        } else {
            now
        };
        self.spacing.insert(edge_id, next);
    }

    /// The key of an edge at the spacing wanted of it.
    fn key(&self, edge_id: NodeId) -> (r: u128)
        ensures
            r == cache_key(edge_id, wanted(self.spacing@, edge_id)),
    {
        ((edge_id as i64 + 0x80000000) as u128) * 0x10000000000000000 + (self.spacing_of(edge_id)
            as u128)
    }

    /// The samples of an edge, from its '+' halfedge's start vertex, where it
    /// was sampled at the spacing that is wanted now.
    pub fn get(&self, edge_id: NodeId) -> (r: Option<&Vec<Point>>)
        ensures
            ({
                let k = cache_key(edge_id, wanted(self.spacing@, edge_id));
                match r {
                    Some(pts) => self.cache@.contains_key(k) && *pts == self.cache@[k],
                    None => !self.cache@.contains_key(k),
                }
            }),
            match r {
                Some(pts) => self@.served(edge_id) == Some(pts@),
                None => self@.served(edge_id) is None,
            },
    {
        self.cache.get(&self.key(edge_id))
    }

    /// Keep the samples of an edge for the spacing that is wanted now.
    pub fn keep(&mut self, edge_id: NodeId, points: Vec<Point>)
        ensures
            final(self).spacing == old(self).spacing,
            final(self).cache@ == old(self).cache@.insert(
                cache_key(edge_id, wanted(old(self).spacing@, edge_id)),
                points,
            ),
            final(self)@ == old(self)@.with_samples(edge_id, points@),
    {
        let ghost before = self@;
        let k = self.key(edge_id);
        self.cache.insert(k, points);
        assert(self@ =~= before.with_samples(edge_id, points@));
    }

    /// Keep the samples of an edge along its curve, from its '+' halfedge's start
    /// vertex to its mate's: they begin and end on the exact points of these.
    pub fn keep_along(&mut self, graph: &Graph, edge: &Node, points: Vec<Point>)
        requires
            points@.len() >= 2,
        ensures
            final(self)@.served(edge.id) is Some,
            final(self)@ == old(self)@.with_samples(
                edge.id,
                final(self)@.served(edge.id)->0,
            ),
            pinned(
                points@,
                start_point(graph@, edge@),
                end_point(graph@, edge@),
                final(self)@.served(edge.id)->0,
            ),
            final(self)@.served(edge.id)->0.len() >= 2,
    {
        let mut pts = points;
        let (start, end) = edge_ends(graph, edge);
        pin_ends(&mut pts, start, end);
        self.keep(edge.id, pts);
    }
}

impl Default for EdgeSampler {
    fn default() -> (r: Self)
        ensures
            r.spacing@ == Map::<NodeId, u64>::empty(),
            r.cache@ == Map::<u128, Vec<Point>>::empty(),
    {
        EdgeSampler::new()
    }
}

/// How many parts a straight edge is divided into, by its length counted in
/// spacings; one where no spacing is wanted.
pub fn line_parts(spacings: Option<usize>) -> (r: usize)
    ensures
        r == (match spacings {
            None => 1,
            Some(n) => if n < 1 {
                1
            } else if n > 64 {
                64
            } else {
                n
            },
        }),
{
    match spacings {
        None => 1,
        Some(n) => if n < 1 {
            1
        } else if n > 64 {
            64
        } else {
            n
        },
    }
}

/// How many parts a curve is divided into next, after `parts` were either fine
/// enough or not. `None`: it stays with `parts`.
pub fn next_parts(parts: usize, fine: bool) -> (r: Option<usize>)
    ensures
        r == (if fine || parts >= MAX_EDGE_SAMPLES {
            None
        } else {
            Some((2 * parts) as usize)
        }),
{
    if fine || parts >= MAX_EDGE_SAMPLES {
        None
    } else {
        Some(2 * parts)
    }
}

/// Trust the exact vertex coordinates at the ends: they are shared verbatim
/// with every other edge meeting there.
pub fn pin_ends(points: &mut Vec<Point>, start: Option<Point>, end: Option<Point>)
    requires
        old(points)@.len() > 0,
    ensures
        final(points)@ == (match (start, end) {
            (Some(a), Some(b)) => old(points)@.update(0, a).update(old(points)@.len() - 1, b),
            _ => old(points)@,
        }),
{
    if let (Some(a), Some(b)) = (start, end) {
        let last: usize = points.len() - 1;
        points.set(0, a);
        points.set(last, b);
    }
}

// ---- joining the samples of a loop ----

/// How a run of samples met the end of the chain before it.
#[derive(Debug, Clone, Copy, PartialEq, Eq, Structural)]
pub enum Join {
    /// It is the first.
    Begun,
    /// Its head was there.
    Along,
    /// Its tail was there, so it was turned round.
    Turned,
    /// Neither was there.
    Apart,
}

/// The polyline of a loop, assembled by endpoint continuity.
pub struct Chain {
    pub points: Vec<Point>,
}

/// How a run meets a chain, by whether its head and its tail are near the
/// chain's end.
pub open spec fn join_of(chain: Seq<Point>, head_near: bool, tail_near: bool) -> Join {
    if chain.len() == 0 {
        Join::Begun
    } else if head_near {
        Join::Along
    } else if tail_near {
        Join::Turned
    } else {
        Join::Apart
    }
}

/// A chain with one more run: the point where they meet stands once, as the run
/// has it.
pub open spec fn joined(chain: Seq<Point>, run: Seq<Point>, join: Join) -> Seq<Point> {
    match join {
        Join::Begun => run,
        Join::Turned => chain.drop_last() + run.reverse(),
        _ => chain.drop_last() + run,
    }
}

/// The closed polyline that a chain makes: where its ends meet, the last point
/// is the first; with fewer than three points there is none.
pub open spec fn closed_up(chain: Seq<Point>, ends_meet: bool) -> Option<Seq<Point>> {
    let ring = if chain.len() >= 2 && ends_meet {
        chain.drop_last()
    } else {
        chain
    };
    if ring.len() >= 3 {
        Some(ring)
    } else {
        None
    }
}

impl Chain {
    pub fn new() -> (r: Self)
        ensures
            r.points@ == Seq::<Point>::empty(),
    {
        Chain { points: Vec::new() }
    }

    /// The last point, where there is one.
    pub fn tail(&self) -> (r: Option<Point>)
        ensures
            r == (if self.points@.len() > 0 {
                Some(self.points@.last())
            } else {
                None
            }),
    {
        if self.points.len() > 0 {
            Some(self.points[self.points.len() - 1])
        } else {
            None
        }
    }

    /// Take a run of samples up at the end of the chain. `head_near` and
    /// `tail_near` say whether its first and its last point lie at the chain's
    /// last point.
    pub fn offer(&mut self, run: &Vec<Point>, head_near: bool, tail_near: bool) -> (r: Join)
        ensures
            r == join_of(old(self).points@, head_near, tail_near),
            final(self).points@ == joined(old(self).points@, run@, r),
    {
        let join: Join = if self.points.len() == 0 {
            Join::Begun
        } else if head_near {
            Join::Along
        } else if tail_near {
            Join::Turned
        } else {
            Join::Apart
        };
        let ghost before = self.points@;
        if join != Join::Begun {
            self.points.pop();
        }
        let ghost base = self.points@;
        let ghost whole = if join == Join::Turned {
            run@.reverse()
        } else {
            run@
        };
        let mut i: usize = 0;
        while i < run.len()
            invariant
                i <= run@.len(),
                whole == (if join == Join::Turned {
                    run@.reverse()
                } else {
                    run@
                }),
                self.points@ == base + whole.take(i as int),
            decreases run@.len() - i,
        {
            let p: Point = if join == Join::Turned {
                run[run.len() - 1 - i]
            } else {
                run[i]
            };
            self.points.push(p);
            assert(self.points@ =~= base + whole.take(i + 1));
            i += 1;
        }
        assert(whole.take(i as int) =~= whole);
        proof {
            if join == Join::Begun {
                assert(before =~= Seq::<Point>::empty());
            }
            assert(self.points@ =~= joined(before, run@, join));
        }
        join
    }

    /// The closed polyline, where the chain makes one.
    pub fn close(self, ends_meet: bool) -> (r: Option<Vec<Point>>)
        ensures
            match r {
                Some(ring) => closed_up(self.points@, ends_meet) == Some(ring@),
                None => closed_up(self.points@, ends_meet) is None,
            },
    {
        let mut ring = self.points;
        if ring.len() >= 2 && ends_meet {
            ring.pop();
        }
        if ring.len() >= 3 {
            Some(ring)
        } else {
            None
        }
    }
}

impl Default for Chain {
    fn default() -> (r: Self)
        ensures
            r.points@ == Seq::<Point>::empty(),
    {
        Chain::new()
    }
}

/// What is said of an edge that cannot be sampled.
pub open spec fn unusable_edge_text(edge: NodeId) -> Seq<char> {
    "edge #"@ + crate::text::signed_decimal(edge as int) + ": no usable curve or vertices"@
}

/// The warning about an edge that cannot be sampled.
pub fn unusable_edge(edge: NodeId) -> (r: String)
    ensures
        r@ == unusable_edge_text(edge),
{
    let mut s = "edge #".to_owned();
    push_signed(&mut s, edge as i64);
    s.append(": no usable curve or vertices");
    s
}

// ---- laws ----

/// However many faces ask, and in whatever order, an edge is sampled at the
/// finest spacing that any of them asked for.
pub proof fn lemma_finest_request_wins(requests: Seq<(NodeId, u64)>, edge: NodeId)
    ensures
        ({
            let got = wanted(requested(Map::empty(), requests), edge);
            &&& !nan(got)
            &&& forall|i: int|
                0 <= i < requests.len() && (#[trigger] requests[i]).0 == edge && !nan(
                    requests[i].1,
                ) ==> rank(got) <= rank(requests[i].1)
            &&& got == INFINITY_BITS || exists|i: int|
                0 <= i < requests.len() && (#[trigger] requests[i]) == (edge, got)
        }),
    decreases requests.len(),
{
    if requests.len() > 0 {
        let fewer = requests.drop_last();
        lemma_finest_request_wins(fewer, edge);
        let before = requested(Map::<NodeId, u64>::empty(), fewer);
        let got = wanted(requested(Map::<NodeId, u64>::empty(), requests), edge);
        let was = wanted(before, edge);
        let last = requests.last();
        assert(requests[requests.len() - 1] == last);
        assert forall|i: int|
            0 <= i < requests.len() && (#[trigger] requests[i]).0 == edge && !nan(
                requests[i].1,
            ) implies rank(got) <= rank(requests[i].1) by {
            if i < fewer.len() {
                assert(fewer[i] == requests[i]);
            }
        }
        if got == was && was != INFINITY_BITS {
            let i = choose|i: int| 0 <= i < fewer.len() && (#[trigger] fewer[i]) == (edge, was);
            assert(requests[i] == (edge, got));
        }
    } else {
        assert(!nan(INFINITY_BITS));
    }
}

/// Samples that were kept for one edge and spacing are never served for
/// another.
pub proof fn lemma_cache_keys_are_distinct(e1: NodeId, s1: u64, e2: NodeId, s2: u64)
    ensures
        cache_key(e1, s1) == cache_key(e2, s2) <==> e1 == e2 && s1 == s2,
{
}

/// The samples of an edge are the same for whichever face asks, as long as the
/// spacing wanted of it stays.
pub proof fn lemma_kept_samples_are_served(
    before: EdgeSampler,
    after: EdgeSampler,
    edge: NodeId,
    points: Vec<Point>,
)
    requires
        after.spacing == before.spacing,
        after.cache@ == before.cache@.insert(
            cache_key(edge, wanted(before.spacing@, edge)),
            points,
        ),
    ensures
        ({
            let k = cache_key(edge, wanted(after.spacing@, edge));
            after.cache@.contains_key(k) && after.cache@[k] == points
        }),
        forall|other: NodeId, s: u64|
            other != edge ==> (after.cache@.contains_key(#[trigger] cache_key(other, s))
                <==> before.cache@.contains_key(cache_key(other, s))),
{
    assert forall|other: NodeId, s: u64| other != edge implies (after.cache@.contains_key(
        #[trigger] cache_key(other, s),
    ) <==> before.cache@.contains_key(cache_key(other, s))) by {
        lemma_cache_keys_are_distinct(edge, wanted(before.spacing@, edge), other, s);
    }
}

/// What can happen to a sampler between two uses of an edge.
pub enum SamplerStep {
    Request { edge: NodeId, spacing: u64 },
    Keep { edge: NodeId, points: Seq<Point> },
}

impl SamplerStep {
    /// The edge that the step is about.
    pub open spec fn about(self) -> NodeId {
        match self {
            SamplerStep::Request { edge, .. } => edge,
            SamplerStep::Keep { edge, .. } => edge,
        }
    }
}

impl SamplerView {
    /// The sampler after a step.
    pub open spec fn after(self, step: SamplerStep) -> SamplerView {
        match step {
            SamplerStep::Request { edge, spacing } => self.with_request(edge, spacing),
            SamplerStep::Keep { edge, points } => self.with_samples(edge, points),
        }
    }

    /// The sampler after steps, in order.
    pub open spec fn after_all(self, steps: Seq<SamplerStep>) -> SamplerView
        decreases steps.len(),
    {
        if steps.len() == 0 {
            self
        } else {
            self.after_all(steps.drop_last()).after(steps.last())
        }
    }
}

/// Both faces of an edge share one boundary: the samples that were kept of it
/// begin and end on its vertices, where both are known, and they are served
/// point for point alike, whatever is asked or kept of other edges meanwhile.
pub proof fn lemma_faces_share_the_boundary(
    before: SamplerView,
    points: Seq<Point>,
    kept: Seq<Point>,
    start: Option<Seq<u64>>,
    end: Option<Seq<u64>>,
    steps: Seq<SamplerStep>,
    edge: NodeId,
)
    requires
        points.len() >= 2,
        pinned(points, start, end, kept),
        forall|i: int| 0 <= i < steps.len() ==> (#[trigger] steps[i]).about() != edge,
    ensures
        before.with_samples(edge, kept).served(edge) == Some(kept),
        before.with_samples(edge, kept).after_all(steps).served(edge) == Some(kept),
        kept.len() >= 2,
        start is Some && end is Some ==> kept.first()@ == start->0 && kept.last()@ == end->0,
{
    lemma_other_edges_change_nothing(before.with_samples(edge, kept), steps, edge);
}

/// What is asked or kept of other edges changes nothing of what is served for
/// one.
pub proof fn lemma_other_edges_change_nothing(
    v: SamplerView,
    steps: Seq<SamplerStep>,
    edge: NodeId,
)
    requires
        forall|i: int| 0 <= i < steps.len() ==> (#[trigger] steps[i]).about() != edge,
    ensures
        v.after_all(steps).served(edge) == v.served(edge),
    decreases steps.len(),
{
    if steps.len() > 0 {
        let fewer = steps.drop_last();
        assert forall|i: int| 0 <= i < fewer.len() implies (#[trigger] fewer[i]).about()
            != edge by {
            assert(steps[i].about() != edge);
        }
        lemma_other_edges_change_nothing(v, fewer, edge);
        let w = v.after_all(fewer);
        assert(steps[steps.len() - 1].about() != edge);
        match steps.last() {
            SamplerStep::Request { edge: other, spacing } => {},
            SamplerStep::Keep { edge: other, points } => {
                lemma_cache_keys_are_distinct(
                    other,
                    wanted(w.spacing, other),
                    edge,
                    wanted(w.spacing, edge),
                );
            },
        }
    }
}

} // verus!
