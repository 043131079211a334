//! What holds of every STEP export.

use vstd::prelude::*;

use super::export::{
    all_edges_written, asked_for, circuit, edge_written, edges_written, face_on, face_written,
    faces_written, plan_of, turned_course, BodyView, FacePlan, PlanView,
    SharedView,
};
use super::rims::{runs_of, usable};
use super::surface::{surface_written, Shapes, MAX_OFFSETS};
use super::writer::WriterView;
use crate::graph::GraphView;
use crate::value::{NodeId, NodeView};

verus! {

/// Whatever `a` knows, `b` knows by the same entities.
pub open spec fn keeps_known(a: SharedView, b: SharedView) -> bool {
    &&& forall|k: NodeId|
        #[trigger] a.vertices.contains_key(k) ==> b.vertices.contains_key(k) && b.vertices[k]
            == a.vertices[k]
    &&& forall|k: NodeId|
        #[trigger] a.edges.contains_key(k) ==> b.edges.contains_key(k) && b.edges[k] == a.edges[k]
}

proof fn lemma_run_keeps_known(
    s: SharedView,
    shapes: Shapes,
    g: GraphView,
    run: Seq<(NodeView, bool)>,
)
    ensures
        keeps_known(s, edges_written(s, shapes, g, run)),
    decreases run.len(),
{
    if run.len() > 0 {
        lemma_run_keeps_known(s, shapes, g, run.drop_last());
        let before = edges_written(s, shapes, g, run.drop_last());
        let edge = run.last().0;
        if !before.edges.contains_key(edge.id) {
            assert(keeps_known(
                before,
                edge_written(before, shapes.numbers@, g, edge, shapes.edges@[edge.id]),
            ));
        }
    }
}

proof fn lemma_runs_keep_known(
    s: SharedView,
    shapes: Shapes,
    g: GraphView,
    runs: Seq<Seq<(NodeView, bool)>>,
)
    ensures
        keeps_known(s, all_edges_written(s, shapes, g, runs)),
    decreases runs.len(),
{
    if runs.len() > 0 {
        lemma_runs_keep_known(s, shapes, g, runs.drop_last());
        lemma_run_keeps_known(
            all_edges_written(s, shapes, g, runs.drop_last()),
            shapes,
            g,
            runs.last(),
        );
    }
}

proof fn lemma_face_on_keeps_known(
    body: BodyView,
    shapes: Shapes,
    g: GraphView,
    plan: PlanView,
    face: NodeView,
    surface: NodeView,
    w: WriterView,
)
    ensures
        keeps_known(body.shared, face_on(body, shapes, g, plan, face, surface, w).shared),
{
    let runs = runs_of(g, shapes.edges@, face);
    let shared = SharedView { w, ..body.shared };
    let after = all_edges_written(shared, shapes, g, runs);
    lemma_runs_keep_known(shared, shapes, g, runs);
    let done = face_on(body, shapes, g, plan, face, surface, w);
    assert(done.shared.vertices == after.vertices);
    assert(done.shared.edges == after.edges);
    assert(shared.vertices == body.shared.vertices);
    assert(shared.edges == body.shared.edges);
    assert forall|k: NodeId| #[trigger]
        body.shared.vertices.contains_key(k) implies done.shared.vertices.contains_key(k)
        && done.shared.vertices[k] == body.shared.vertices[k] by {
        assert(shared.vertices.contains_key(k));
    }
    assert forall|k: NodeId| #[trigger]
        body.shared.edges.contains_key(k) implies done.shared.edges.contains_key(k)
        && done.shared.edges[k] == body.shared.edges[k] by {
        assert(shared.edges.contains_key(k));
    }
}

proof fn lemma_face_keeps_known(
    body: BodyView,
    shapes: Shapes,
    g: GraphView,
    plans: Map<NodeId, FacePlan>,
    face: NodeView,
)
    ensures
        keeps_known(body.shared, face_written(body, shapes, g, plans, face).shared),
{
    match g.follow(face, "surface"@) {
        None => {},
        Some(surface) => {
            let (w, ok) = surface_written(
                body.shared.w,
                shapes,
                g,
                face.id,
                surface,
                MAX_OFFSETS as nat,
            );
            lemma_face_on_keeps_known(
                body,
                shapes,
                g,
                plan_of(plans, face.id),
                face,
                surface,
                w,
            );
        },
    }
}

/// Faces share their edges and vertices: whatever the first `n` faces wrote,
/// all later faces refer to by the same entities and never write again.
pub proof fn lemma_entities_are_shared(
    shapes: Shapes,
    g: GraphView,
    plans: Map<NodeId, FacePlan>,
    only: Option<&[NodeId]>,
    faces: Seq<NodeView>,
    n: int,
)
    requires
        0 <= n <= faces.len(),
    ensures
        keeps_known(
            faces_written(shapes, g, plans, only, faces.take(n)).shared,
            faces_written(shapes, g, plans, only, faces).shared,
        ),
    decreases faces.len(),
{
    if n == faces.len() {
        assert(faces.take(n) =~= faces);
    } else {
        let front = faces.drop_last();
        assert(front.take(n) =~= faces.take(n));
        lemma_entities_are_shared(shapes, g, plans, only, front, n);
        let before = faces_written(shapes, g, plans, only, front);
        lemma_face_keeps_known(before, shapes, g, plans, faces.last());
        assert(keeps_known(
            before.shared,
            faces_written(shapes, g, plans, only, faces).shared,
        ));
    }
}

/// Every edge of a run that has samples is known once the run is written.
pub proof fn lemma_usable_edges_are_written(
    s: SharedView,
    shapes: Shapes,
    g: GraphView,
    run: Seq<(NodeView, bool)>,
    i: int,
)
    requires
        0 <= i < run.len(),
        usable(shapes.edges@, run[i].0.id),
    ensures
        edges_written(s, shapes, g, run).edges.contains_key(run[i].0.id),
    decreases run.len(),
{
    if i == run.len() - 1 {
    } else {
        lemma_usable_edges_are_written(s, shapes, g, run.drop_last(), i);
        assert(run.drop_last()[i] == run[i]);
    }
}

/// Every face that was asked for is either written or counted as left out, and
/// there is one entity for each that is written.
pub proof fn lemma_every_face_is_accounted_for(
    shapes: Shapes,
    g: GraphView,
    plans: Map<NodeId, FacePlan>,
    only: Option<&[NodeId]>,
    faces: Seq<NodeView>,
)
    ensures
        faces_written(shapes, g, plans, only, faces).faces.len() + faces_written(
            shapes,
            g,
            plans,
            only,
            faces,
        ).skipped == faces.filter(|f: NodeView| asked_for(only, f.id)).len(),
        faces_written(shapes, g, plans, only, faces).entities.len() == faces_written(
            shapes,
            g,
            plans,
            only,
            faces,
        ).faces.len(),
    decreases faces.len(),
{
    reveal(Seq::filter);
    if faces.len() > 0 {
        lemma_every_face_is_accounted_for(shapes, g, plans, only, faces.drop_last());
    }
}

/// A seam is run along exactly twice, once each way, on edges that are not the
/// seam: after the first rim forwards, and at the end backwards.
pub proof fn lemma_seam_is_run_both_ways(
    a: Seq<(u64, bool)>,
    b: Seq<(u64, bool)>,
    same_way: bool,
    seam: u64,
    i: int,
)
    requires
        forall|k: int| 0 <= k < a.len() ==> (#[trigger] a[k]).0 != seam,
        forall|k: int| 0 <= k < b.len() ==> (#[trigger] b[k]).0 != seam,
        0 <= i < a.len() + b.len() + 2,
    ensures
        circuit(a, b, same_way, seam).len() == a.len() + b.len() + 2,
        circuit(a, b, same_way, seam)[a.len() as int] == (seam, true),
        circuit(a, b, same_way, seam).last() == (seam, false),
        circuit(a, b, same_way, seam)[i].0 == seam ==> i == a.len() || i == a.len() + b.len() + 1,
{
    let other = if same_way {
        turned_course(b)
    } else {
        b
    };
    if a.len() < i < a.len() + 1 + b.len() {
        assert(circuit(a, b, same_way, seam)[i] == other[i - a.len() - 1]);
        assert(b[b.len() - 1 - (i - a.len() - 1)].0 != seam);
        assert(b[i - a.len() - 1].0 != seam);
    }
}

/// Turning a course twice gives it back.
pub proof fn lemma_turning_twice(c: Seq<(u64, bool)>)
    ensures
        turned_course(turned_course(c)) == c,
{
    assert(turned_course(turned_course(c)) =~= c);
}

} // verus!
