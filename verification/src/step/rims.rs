//! The boundary loops of a face, and which of them a seam joins.
//!
//! A loop that winds a period of a closed surface cannot bound a face by
//! itself. Two of them that wind the same period bound a band between them, once
//! a seam joins them: an edge that the joint loop runs along twice, in opposite
//! directions.

use std::collections::HashMap;

use vstd::prelude::*;

use super::surface::Polyline;
use crate::double::{below, is_less, INFINITY_BITS};
use crate::graph::{found_views, Graph, GraphView};
use crate::sample::Point;
use crate::value::{Node, NodeId, NodeView};

verus! {

broadcast use vstd::std_specs::hash::group_hash_axioms;

/// An edge that has samples to be written.
pub open spec fn usable(edges: Map<NodeId, Polyline>, edge: NodeId) -> bool {
    edges.contains_key(edge) && edges[edge].points@.len() >= 2
}

/// The edges of halfedges that have samples, and whether each is run along
/// forwards.
pub open spec fn steps_along(
    g: GraphView,
    edges: Map<NodeId, Polyline>,
    halfedges: Seq<NodeView>,
) -> Seq<(NodeView, bool)>
    decreases halfedges.len(),
{
    if halfedges.len() == 0 {
        Seq::empty()
    } else {
        let before = steps_along(g, edges, halfedges.drop_last());
        match g.follow(halfedges.last(), "edge"@) {
            Some(e) => if usable(edges, e.id) {
                before.push((e, halfedges.last().positive()))
            } else {
                before
            },
            None => before,
        }
    }
}

/// The runs of loops; a loop without an edge to walk has none.
pub open spec fn runs_around(
    g: GraphView,
    edges: Map<NodeId, Polyline>,
    loops: Seq<NodeView>,
) -> Seq<Seq<(NodeView, bool)>>
    decreases loops.len(),
{
    if loops.len() == 0 {
        Seq::empty()
    } else {
        let before = runs_around(g, edges, loops.drop_last());
        let run = steps_along(
            g,
            edges,
            g.chain(loops.last().pointer("halfedge"@), "backward"@),
        );
        if run.len() > 0 {
            before.push(run)
        } else {
            before
        }
    }
}

/// The runs of a face.
pub open spec fn runs_of(g: GraphView, edges: Map<NodeId, Polyline>, face: NodeView) -> Seq<
    Seq<(NodeView, bool)>,
> {
    runs_around(g, edges, g.chain(face.pointer("loop"@), "next"@))
}

/// The way along one loop: its edges, and whether each is run along forwards.
pub struct Run<'a> {
    pub steps: Vec<(&'a Node, bool)>,
}

/// The steps of a run.
pub open spec fn step_views(steps: Seq<(&Node, bool)>) -> Seq<(NodeView, bool)> {
    steps.map_values(|s: (&Node, bool)| (s.0@, s.1))
}

/// The steps of runs.
pub open spec fn run_views(runs: Seq<Run>) -> Seq<Seq<(NodeView, bool)>> {
    runs.map_values(|r: Run| step_views(r.steps@))
}

/// The run of one loop.
fn run_along<'a>(graph: &'a Graph, edges: &HashMap<NodeId, Polyline>, lp: &'a Node) -> (r: Run<'a>)
    ensures
        step_views(r.steps@) == steps_along(
            graph@,
            edges@,
            graph@.chain(lp@.pointer("halfedge"@), "backward"@),
        ),
{
    let halfedges = graph.loop_halfedges(lp);
    let ghost views = found_views(halfedges@);
    let mut steps: Vec<(&'a Node, bool)> = Vec::new();
    let mut i: usize = 0;
    assert(step_views(steps@) =~= steps_along(graph@, edges@, views.take(0)));
    while i < halfedges.len()
        invariant
            i <= halfedges@.len(),
            views == found_views(halfedges@),
            step_views(steps@) == steps_along(graph@, edges@, views.take(i as int)),
        decreases halfedges@.len() - i,
    {
        assert(views.take(i + 1).drop_last() =~= views.take(i as int));
        assert(views.take(i + 1).last() == halfedges@[i as int]@);
        let ghost before = steps@;
        if let Some(e) = graph.deref(halfedges[i], "edge") {
            if let Some(line) = edges.get(&e.id) {
                if line.points.len() >= 2 {
                    let forward: bool = halfedges[i].sense_positive();
                    steps.push((e, forward));
                    assert(step_views(steps@) =~= step_views(before).push((e@, forward)));
                }
            }
        }
        i += 1;
    }
    assert(views.take(i as int) =~= views);
    Run { steps }
}

/// The runs of a face, loop by loop.
pub fn face_runs<'a>(
    graph: &'a Graph,
    edges: &HashMap<NodeId, Polyline>,
    face: &'a Node,
) -> (r: Vec<Run<'a>>)
    ensures
        run_views(r@) == runs_of(graph@, edges@, face@),
{
    let loops = graph.face_loops(face);
    let ghost views = found_views(loops@);
    let mut out: Vec<Run<'a>> = Vec::new();
    let mut i: usize = 0;
    assert(run_views(out@) =~= runs_around(graph@, edges@, views.take(0)));
    while i < loops.len()
        invariant
            i <= loops@.len(),
            views == found_views(loops@),
            run_views(out@) == runs_around(graph@, edges@, views.take(i as int)),
        decreases loops@.len() - i,
    {
        assert(views.take(i + 1).drop_last() =~= views.take(i as int));
        assert(views.take(i + 1).last() == loops@[i as int]@);
        let run = run_along(graph, edges, loops[i]);
        let ghost before = out@;
        let ghost steps = step_views(run.steps@);
        assert(steps.len() == run.steps@.len());
        if run.steps.len() > 0 {
            out.push(run);
            assert(run_views(out@) =~= run_views(before).push(steps));
        }
        i += 1;
    }
    assert(views.take(i as int) =~= views);
    out
}

/// The samples of one step, in the direction in which it is run along.
pub open spec fn step_points(edges: Map<NodeId, Polyline>, step: (NodeView, bool)) -> Seq<Point> {
    if !edges.contains_key(step.0.id) {
        Seq::empty()
    } else if step.1 {
        edges[step.0.id].points@
    } else {
        edges[step.0.id].points@.reverse()
    }
}

/// The samples along a run.
pub open spec fn trace_of(edges: Map<NodeId, Polyline>, run: Seq<(NodeView, bool)>) -> Seq<Point>
    decreases run.len(),
{
    if run.len() == 0 {
        Seq::empty()
    } else {
        trace_of(edges, run.drop_last()) + step_points(edges, run.last())
    }
}

/// The samples along a run.
pub fn run_trace(edges: &HashMap<NodeId, Polyline>, run: &Run) -> (r: Vec<Point>)
    ensures
        r@ == trace_of(edges@, step_views(run.steps@)),
{
    let ghost views = step_views(run.steps@);
    let mut out: Vec<Point> = Vec::new();
    let mut i: usize = 0;
    while i < run.steps.len()
        invariant
            i <= run.steps@.len(),
            views == step_views(run.steps@),
            out@ == trace_of(edges@, views.take(i as int)),
        decreases run.steps@.len() - i,
    {
        assert(views.take(i + 1).drop_last() =~= views.take(i as int));
        let (edge, forward) = run.steps[i];
        assert(views.take(i + 1).last() == (edge@, forward));
        let ghost before = out@;
        let ghost more = step_points(edges@, (edge@, forward));
        if let Some(line) = edges.get(&edge.id) {
            let n: usize = line.points.len();
            let mut k: usize = 0;
            assert(out@ =~= before + more.take(0));
            while k < n
                invariant
                    k <= n,
                    n == line.points@.len(),
                    more == (if forward {
                        line.points@
                    } else {
                        line.points@.reverse()
                    }),
                    out@ == before + more.take(k as int),
                decreases n - k,
            {
                let p: Point = if forward {
                    line.points[k]
                } else {
                    line.points[n - 1 - k]
                };
                out.push(p);
                assert(out@ =~= before + more.take(k + 1));
                k += 1;
            }
            assert(more.take(k as int) =~= more);
        } else {
            assert(out@ =~= before + more);
        }
        i += 1;
    }
    assert(views.take(i as int) =~= views);
    out
}

// ---- rims ----

/// How a loop winds a period: in which direction of the parameters, and which
/// way round.
#[derive(Debug, Clone, Copy, PartialEq, Eq, Structural)]
pub struct Winding {
    pub dim: usize,
    pub positive: bool,
}

/// A loop is in one of the pairs.
pub open spec fn paired_up(pairs: Seq<(usize, usize)>, k: int) -> bool {
    exists|p: int| 0 <= p < pairs.len() && (#[trigger] pairs[p].0 == k || pairs[p].1 == k)
}

/// How far two loops are apart.
pub open spec fn gap_at(gaps: Seq<Vec<u64>>, i: int, j: int) -> u64 {
    if 0 <= i < gaps.len() && 0 <= j < gaps[i]@.len() {
        gaps[i]@[j]
    } else {
        INFINITY_BITS
    }
}

/// A seam between two loops would cross a third.
pub open spec fn crossed_at(crossed: Seq<Vec<bool>>, i: int, j: int) -> bool {
    0 <= i < crossed.len() && 0 <= j < crossed[i]@.len() && crossed[i]@[j]
}

/// A loop can be joined with loop `i`: it is free and winds the same period.
pub open spec fn joinable(
    windings: Seq<Option<Winding>>,
    pairs: Seq<(usize, usize)>,
    i: int,
    j: int,
) -> bool {
    !paired_up(pairs, j) && windings[j] is Some && windings[j]->0.dim == windings[i]->0.dim
}

/// The nearest of the loops behind loop `i`, and before `m`, that it can be
/// joined with; of equally near ones the first. Nearest, because a face can
/// carry several bands and pairing across bands ties the boundary in a knot.
pub open spec fn partner_of(
    windings: Seq<Option<Winding>>,
    gaps: Seq<Vec<u64>>,
    pairs: Seq<(usize, usize)>,
    i: int,
    m: int,
) -> Option<int>
    decreases m - i,
{
    if m <= i + 1 {
        None
    } else {
        let j = m - 1;
        let best = partner_of(windings, gaps, pairs, i, j);
        if !joinable(windings, pairs, i, j) {
            best
        } else if best is None || below(gap_at(gaps, i, j), gap_at(gaps, i, best->0)) {
            Some(j)
        } else {
            best
        }
    }
}

/// The pairs that begin with one of the first `n` loops.
pub open spec fn pairs_among(
    windings: Seq<Option<Winding>>,
    gaps: Seq<Vec<u64>>,
    crossed: Seq<Vec<bool>>,
    n: int,
) -> Seq<(usize, usize)>
    decreases n,
{
    if n <= 0 {
        Seq::empty()
    } else {
        let before = pairs_among(windings, gaps, crossed, n - 1);
        let i = n - 1;
        if paired_up(before, i) || windings[i] is None {
            before
        } else {
            match partner_of(windings, gaps, before, i, windings.len() as int) {
                Some(j) => if crossed_at(crossed, i, j) {
                    before
                } else {
                    before.push((i as usize, j as usize))
                },
                None => before,
            }
        }
    }
}

/// A partner is a free loop behind that winds the same period.
proof fn lemma_partner(
    windings: Seq<Option<Winding>>,
    gaps: Seq<Vec<u64>>,
    pairs: Seq<(usize, usize)>,
    i: int,
    m: int,
)
    ensures
        partner_of(windings, gaps, pairs, i, m) matches Some(j) ==> i < j < m && joinable(
            windings,
            pairs,
            i,
            j,
        ),
    decreases m - i,
{
    if m > i + 1 {
        lemma_partner(windings, gaps, pairs, i, m - 1);
    }
}

/// One more pair.
proof fn lemma_one_more_pair(pairs: Seq<(usize, usize)>, p: (usize, usize), k: int)
    ensures
        paired_up(pairs.push(p), k) <==> paired_up(pairs, k) || p.0 == k || p.1 == k,
{
    let more = pairs.push(p);
    if paired_up(pairs, k) {
        let q = choose|q: int|
            0 <= q < pairs.len() && (#[trigger] pairs[q].0 == k || pairs[q].1 == k);
        assert(more[q].0 == k || more[q].1 == k);
    }
    assert(more[pairs.len() as int] == p);
    if p.0 == k || p.1 == k {
        assert(more[pairs.len() as int].0 == k || more[pairs.len() as int].1 == k);
    }
    if paired_up(more, k) && p.0 != k && p.1 != k {
        let q = choose|q: int|
            0 <= q < more.len() && (#[trigger] more[q].0 == k || more[q].1 == k);
        assert(pairs[q].0 == k || pairs[q].1 == k);
    }
}

/// Join pairs of winding loops through a seam. `gaps` says how far loops are
/// apart, `crossed` which seams would cross another loop: where something is in
/// the way, the loops stay as they are rather than guess.
pub fn rim_pairs(
    windings: &[Option<Winding>],
    gaps: &[Vec<u64>],
    crossed: &[Vec<bool>],
) -> (r: Vec<(usize, usize)>)
    ensures
        r@ == pairs_among(windings@, gaps@, crossed@, windings@.len() as int),
{
    let n: usize = windings.len();
    let mut used: Vec<bool> = Vec::new();
    let mut c: usize = 0;
    while c < n
        invariant
            c <= n,
            used@.len() == c,
            forall|k: int| 0 <= k < c ==> !used@[k],
        decreases n - c,
    {
        used.push(false);
        c += 1;
    }
    let mut pairs: Vec<(usize, usize)> = Vec::new();
    let mut i: usize = 0;
    while i < n
        invariant
            i <= n,
            n == windings@.len(),
            used@.len() == n,
            forall|k: int| 0 <= k < n ==> used@[k] == #[trigger] paired_up(pairs@, k),
            pairs@ == pairs_among(windings@, gaps@, crossed@, i as int),
        decreases n - i,
    {
        assert(used@[i as int] == paired_up(pairs@, i as int));
        if !used[i] {
            if let Some(wi) = windings[i] {
                let mut best: Option<usize> = None;
                let mut least: u64 = INFINITY_BITS;
                let mut j: usize = i + 1;
                while j < n
                    invariant
                        i < j <= n,
                        n == windings@.len(),
                        windings@[i as int] == Some(wi),
                        used@.len() == n,
                        forall|k: int| 0 <= k < n ==> used@[k] == #[trigger] paired_up(pairs@, k),
                        best is Some <==> partner_of(
                            windings@,
                            gaps@,
                            pairs@,
                            i as int,
                            j as int,
                        ) is Some,
                        best matches Some(b) ==> b < n && partner_of(
                            windings@,
                            gaps@,
                            pairs@,
                            i as int,
                            j as int,
                        ) == Some(b as int) && least == gap_at(gaps@, i as int, b as int),
                    decreases n - j,
                {
                    assert(used@[j as int] == paired_up(pairs@, j as int));
                    let here: u64 = if i < gaps.len() && j < gaps[i].len() {
                        gaps[i][j]
                    } else {
                        INFINITY_BITS
                    };
                    let same: bool = match windings[j] {
                        Some(wj) => wj.dim == wi.dim,
                        None => false,
                    };
                    if !used[j] && same {
                        if best.is_none() || is_less(here, least) {
                            best = Some(j);
                            least = here;
                        }
                    }
                    j += 1;
                }
                if let Some(b) = best {
                    let stopped: bool = i < crossed.len() && b < crossed[i].len() && crossed[i][b];
                    if !stopped {
                        let ghost before = pairs@;
                        pairs.push((i, b));
                        used.set(i, true);
                        used.set(b, true);
                        assert forall|k: int| 0 <= k < n implies used@[k]
                            == #[trigger] paired_up(pairs@, k) by {
                            lemma_one_more_pair(before, (i, b), k);
                            assert(paired_up(before, k) || !paired_up(before, k));
                        }
                    }
                }
            }
        }
        i += 1;
    }
    pairs
}

/// No loop is joined twice, and loops that are joined wind the same period.
pub proof fn lemma_rims_are_joined_once(
    windings: Seq<Option<Winding>>,
    gaps: Seq<Vec<u64>>,
    crossed: Seq<Vec<bool>>,
    n: int,
)
    requires
        0 <= n <= windings.len() <= usize::MAX,
    ensures
        ({
            let pairs = pairs_among(windings, gaps, crossed, n);
            &&& forall|p: int|
                0 <= p < pairs.len() ==> {
                    let (i, j) = #[trigger] pairs[p];
                    i < j < windings.len() && windings[i as int] is Some && windings[j as int] is Some
                        && windings[i as int]->0.dim == windings[j as int]->0.dim
                }
            &&& forall|p: int, q: int|
                0 <= p < q < pairs.len() ==> {
                    let (i, j) = #[trigger] pairs[p];
                    let (k, m) = #[trigger] pairs[q];
                    i != k && i != m && j != k && j != m
                }
        }),
    decreases n,
{
    if n > 0 {
        lemma_rims_are_joined_once(windings, gaps, crossed, n - 1);
        let before = pairs_among(windings, gaps, crossed, n - 1);
        let after = pairs_among(windings, gaps, crossed, n);
        let i = n - 1;
        lemma_partner(windings, gaps, before, i, windings.len() as int);
        if after != before {
            let j = partner_of(windings, gaps, before, i, windings.len() as int)->0;
            assert(after == before.push((i as usize, j as usize)));
            assert forall|p: int, q: int| 0 <= p < q < after.len() implies {
                let (a, b) = #[trigger] after[p];
                let (k, m) = #[trigger] after[q];
                a != k && a != m && b != k && b != m
            } by {
                assert(before[p] == after[p]);
                if q == before.len() {
                    assert(!paired_up(before, i));
                    assert(!paired_up(before, j));
                    assert(!(before[p].0 == i || before[p].1 == i));
                    assert(!(before[p].0 == j || before[p].1 == j));
                } else {
                    assert(before[q] == after[q]);
                }
            }
        }
    }
}

} // verus!
