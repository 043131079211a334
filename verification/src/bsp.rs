//! Exact back-to-front order by a BSP tree.
//!
//! Polygons are lists of point numbers. On which side of a plane their points
//! lie, and where an edge that crosses a plane meets it, is told by whoever
//! holds the points. Build and traversal are iterative (explicit stacks): the
//! trees get deep enough on real parts that recursion is not safe.

use vstd::prelude::*;

verus! {

/// On which side of a plane a point lies.
#[derive(Debug, Clone, Copy, PartialEq, Eq, Structural)]
pub enum Sign {
    /// In the halfspace that the normal points into.
    Front,
    /// On the plane, within tolerance.
    On,
    Back,
}

/// A convex polygon fragment carried through the tree.
pub struct Poly {
    /// The numbers of its points.
    pub pts: Vec<u32>,
    /// The triangle that it is a fragment of.
    pub source: usize,
    /// Pairs of places in `pts` to stroke as feature edges.
    pub edges: Vec<(usize, usize)>,
}

/// The contents of a fragment.
#[verifier::ext_equal]
pub struct PolyView {
    pub pts: Seq<u32>,
    pub source: usize,
    pub edges: Seq<(usize, usize)>,
}

impl View for Poly {
    type V = PolyView;

    open spec fn view(&self) -> PolyView {
        PolyView { pts: self.pts@, source: self.source, edges: self.edges@ }
    }
}

/// The contents of fragments.
pub open spec fn poly_views(polys: Seq<Poly>) -> Seq<PolyView> {
    polys.map_values(|p: Poly| p@)
}

impl Clone for Poly {
    fn clone(&self) -> (r: Self)
        ensures
            r@ == self@,
    {
        let mut pts: Vec<u32> = Vec::new();
        let mut i: usize = 0;
        while i < self.pts.len()
            invariant
                i <= self.pts@.len(),
                pts@ == self.pts@.take(i as int),
            decreases self.pts@.len() - i,
        {
            pts.push(self.pts[i]);
            assert(pts@ =~= self.pts@.take(i + 1));
            i += 1;
        }
        assert(pts@ =~= self.pts@);
        let mut edges: Vec<(usize, usize)> = Vec::new();
        let mut k: usize = 0;
        while k < self.edges.len()
            invariant
                k <= self.edges@.len(),
                edges@ == self.edges@.take(k as int),
            decreases self.edges@.len() - k,
        {
            edges.push(self.edges[k]);
            assert(edges@ =~= self.edges@.take(k + 1));
            k += 1;
        }
        assert(edges@ =~= self.edges@);
        Poly { pts, source: self.source, edges }
    }
}

// ---- splitting ----

/// An edge runs from one side of the plane to the other.
pub open spec fn crossing(a: Sign, b: Sign) -> bool {
    (a == Sign::Front && b == Sign::Back) || (a == Sign::Back && b == Sign::Front)
}

/// The points, among the first `n` and the crossings behind them, that are not
/// on the side `away`.
pub open spec fn kept_points(
    pts: Seq<u32>,
    signs: Seq<Sign>,
    cuts: Seq<u32>,
    away: Sign,
    n: int,
) -> Seq<u32>
    decreases n,
{
    if n <= 0 {
        Seq::empty()
    } else {
        let i = n - 1;
        let before = kept_points(pts, signs, cuts, away, i);
        let with_point = if signs[i] != away {
            before.push(pts[i])
        } else {
            before
        };
        if crossing(signs[i], signs[(i + 1) % (pts.len() as int)]) {
            with_point.push(cuts[i])
        } else {
            with_point
        }
    }
}

/// The place that a point has in what is kept.
pub open spec fn kept_place(
    pts: Seq<u32>,
    signs: Seq<Sign>,
    cuts: Seq<u32>,
    away: Sign,
    i: int,
) -> Option<usize> {
    if 0 <= i < pts.len() && signs[i] != away {
        Some(kept_points(pts, signs, cuts, away, i).len() as usize)
    } else {
        None
    }
}

/// The feature edges of which both ends are kept.
pub open spec fn kept_edges(
    pts: Seq<u32>,
    signs: Seq<Sign>,
    cuts: Seq<u32>,
    away: Sign,
    edges: Seq<(usize, usize)>,
) -> Seq<(usize, usize)>
    decreases edges.len(),
{
    if edges.len() == 0 {
        Seq::empty()
    } else {
        let before = kept_edges(pts, signs, cuts, away, edges.drop_last());
        match (
            kept_place(pts, signs, cuts, away, edges.last().0 as int),
            kept_place(pts, signs, cuts, away, edges.last().1 as int),
        ) {
            (Some(a), Some(b)) => before.push((a, b)),
            _ => before,
        }
    }
}

/// What of a polygon is not on the side `away`: nothing, where that has fewer
/// than three points.
pub open spec fn kept_part(p: PolyView, signs: Seq<Sign>, cuts: Seq<u32>, away: Sign) -> Option<
    PolyView,
> {
    let pts = kept_points(p.pts, signs, cuts, away, p.pts.len() as int);
    if pts.len() < 3 {
        None
    } else {
        Some(
            PolyView {
                pts,
                source: p.source,
                edges: kept_edges(p.pts, signs, cuts, away, p.edges),
            },
        )
    }
}

/// A part of a polygon, or none.
pub open spec fn is_part(r: Option<Poly>, want: Option<PolyView>) -> bool {
    match r {
        Some(p) => want == Some(p@),
        None => want is None,
    }
}

/// What of a polygon is not on the side `away`.
fn keep_part(p: &Poly, signs: &Vec<Sign>, cuts: &Vec<u32>, away: Sign) -> (r: Option<Poly>)
    requires
        signs@.len() == p.pts@.len(),
        cuts@.len() == p.pts@.len(),
    ensures
        is_part(r, kept_part(p@, signs@, cuts@, away)),
{
    let n: usize = p.pts.len();
    let mut pts: Vec<u32> = Vec::new();
    let mut places: Vec<Option<usize>> = Vec::new();
    let mut i: usize = 0;
    while i < n
        invariant
            i <= n,
            n == p.pts@.len(),
            signs@.len() == n,
            cuts@.len() == n,
            pts@ == kept_points(p.pts@, signs@, cuts@, away, i as int),
            places@.len() == i,
            forall|k: int|
                0 <= k < i ==> #[trigger] places@[k] == kept_place(
                    p.pts@,
                    signs@,
                    cuts@,
                    away,
                    k,
                ),
        decreases n - i,
    {
        let j: usize = if i + 1 < n {
            i + 1
        } else {
            0
        };
        proof {
            if i + 1 < n {
                vstd::arithmetic::div_mod::lemma_small_mod((i + 1) as nat, n as nat);
            } else {
                vstd::arithmetic::div_mod::lemma_mod_self_0(n as int);
            }
            assert((i + 1) % (n as int) == j);
        }
        let si: Sign = signs[i];
        let sj: Sign = signs[j];
        if si != away {
            places.push(Some(pts.len()));
            pts.push(p.pts[i]);
        } else {
            places.push(None);
        }
        if (si == Sign::Front && sj == Sign::Back) || (si == Sign::Back && sj == Sign::Front) {
            pts.push(cuts[i]);
        }
        i += 1;
    }
    if pts.len() < 3 {
        return None;
    }
    let mut edges: Vec<(usize, usize)> = Vec::new();
    let mut e: usize = 0;
    while e < p.edges.len()
        invariant
            e <= p.edges@.len(),
            n == p.pts@.len(),
            places@.len() == n,
            forall|k: int|
                0 <= k < n ==> #[trigger] places@[k] == kept_place(
                    p.pts@,
                    signs@,
                    cuts@,
                    away,
                    k,
                ),
            edges@ == kept_edges(p.pts@, signs@, cuts@, away, p.edges@.take(e as int)),
        decreases p.edges@.len() - e,
    {
        assert(p.edges@.take(e + 1).drop_last() =~= p.edges@.take(e as int));
        assert(p.edges@.take(e + 1).last() == p.edges@[e as int]);
        let a: usize = p.edges[e].0;
        let b: usize = p.edges[e].1;
        if a < n && b < n {
            assert(places@[a as int] == kept_place(p.pts@, signs@, cuts@, away, a as int));
            assert(places@[b as int] == kept_place(p.pts@, signs@, cuts@, away, b as int));
            if let (Some(a2), Some(b2)) = (places[a], places[b]) {
                edges.push((a2, b2));
            }
        }
        e += 1;
    }
    assert(p.edges@.take(e as int) =~= p.edges@);
    Some(Poly { pts, source: p.source, edges })
}

/// Split a convex polygon by a plane into what is in front and what is behind.
/// `cuts` holds, for each edge that crosses the plane, the point where it does,
/// at the place of the edge's first point.
pub fn split_poly(p: &Poly, signs: &Vec<Sign>, cuts: &Vec<u32>) -> (r: (Option<Poly>, Option<Poly>))
    requires
        signs@.len() == p.pts@.len(),
        cuts@.len() == p.pts@.len(),
    ensures
        is_part(r.0, kept_part(p@, signs@, cuts@, Sign::Back)),
        is_part(r.1, kept_part(p@, signs@, cuts@, Sign::Front)),
{
    (keep_part(p, signs, cuts, Sign::Back), keep_part(p, signs, cuts, Sign::Front))
}

// ---- building ----

/// Where a polygon goes, by the sides of its points.
#[derive(Debug, Clone, Copy, PartialEq, Eq, Structural)]
pub enum Lot {
    Coplanar,
    InFront,
    Behind,
    Cut,
}

/// No point is on a side.
pub open spec fn avoids(signs: Seq<Sign>, side: Sign) -> bool {
    forall|i: int| 0 <= i < signs.len() ==> #[trigger] signs[i] != side
}

pub open spec fn lot_of(signs: Seq<Sign>) -> Lot {
    if avoids(signs, Sign::Front) && avoids(signs, Sign::Back) {
        Lot::Coplanar
    } else if avoids(signs, Sign::Back) {
        Lot::InFront
    } else if avoids(signs, Sign::Front) {
        Lot::Behind
    } else {
        Lot::Cut
    }
}

fn lot(signs: &Vec<Sign>) -> (r: Lot)
    ensures
        r == lot_of(signs@),
{
    let mut no_front = true;
    let mut no_back = true;
    let mut i: usize = 0;
    while i < signs.len()
        invariant
            i <= signs@.len(),
            no_front == (forall|k: int| 0 <= k < i ==> #[trigger] signs@[k] != Sign::Front),
            no_back == (forall|k: int| 0 <= k < i ==> #[trigger] signs@[k] != Sign::Back),
        decreases signs@.len() - i,
    {
        let s: Sign = signs[i];
        if s == Sign::Front {
            no_front = false;
        }
        if s == Sign::Back {
            no_back = false;
        }
        i += 1;
    }
    if no_front && no_back {
        Lot::Coplanar
    } else if no_back {
        Lot::InFront
    } else if no_front {
        Lot::Behind
    } else {
        Lot::Cut
    }
}

/// What one polygon adds to those on the plane.
pub open spec fn on_plane(p: PolyView, signs: Seq<Sign>) -> Seq<PolyView> {
    if lot_of(signs) == Lot::Coplanar {
        seq![p]
    } else {
        Seq::empty()
    }
}

/// What one polygon adds to those on one side; `away` is the other.
pub open spec fn on_side(p: PolyView, signs: Seq<Sign>, cuts: Seq<u32>, away: Sign) -> Seq<PolyView> {
    let whole = if away == Sign::Back {
        Lot::InFront
    } else {
        Lot::Behind
    };
    if lot_of(signs) == whole {
        seq![p]
    } else if lot_of(signs) == Lot::Cut {
        match kept_part(p, signs, cuts, away) {
            Some(part) => seq![part],
            None => Seq::empty(),
        }
    } else {
        Seq::empty()
    }
}

/// Those of polygons that lie on the plane.
pub open spec fn all_on_plane(polys: Seq<PolyView>, signs: Seq<Vec<Sign>>) -> Seq<PolyView>
    decreases polys.len(),
{
    if polys.len() == 0 {
        Seq::empty()
    } else {
        all_on_plane(polys.drop_last(), signs) + on_plane(polys.last(), signs[polys.len() - 1]@)
    }
}

/// Those of polygons, or their parts, that lie on one side.
pub open spec fn all_on_side(
    polys: Seq<PolyView>,
    signs: Seq<Vec<Sign>>,
    cuts: Seq<Vec<u32>>,
    away: Sign,
) -> Seq<PolyView>
    decreases polys.len(),
{
    if polys.len() == 0 {
        Seq::empty()
    } else {
        all_on_side(polys.drop_last(), signs, cuts, away) + on_side(
            polys.last(),
            signs[polys.len() - 1]@,
            cuts[polys.len() - 1]@,
            away,
        )
    }
}

/// A node of the tree: the polygons on its plane, and the nodes on either side.
pub struct BspNode {
    pub coplanar: Vec<Poly>,
    pub front: Option<usize>,
    pub back: Option<usize>,
}

/// Polygons of which one divides the others.
pub struct Task {
    /// The node that they belong to.
    pub node: usize,
    /// The polygon whose plane divides.
    pub splitter: Poly,
    pub others: Vec<Poly>,
}

/// A tree that is being built.
pub struct Builder {
    /// The nodes so far, the root first.
    pub nodes: Vec<BspNode>,
    /// Nodes whose polygons are still to be divided, the next one last.
    pub stack: Vec<(usize, Vec<Poly>)>,
}

/// Nodes come after the nodes that they hang from.
pub open spec fn forward(nodes: Seq<BspNode>) -> bool {
    forall|i: int|
        0 <= i < nodes.len() ==> {
            &&& ((#[trigger] nodes[i]).front matches Some(c) ==> i < c < nodes.len())
            &&& (nodes[i].back matches Some(c) ==> i < c < nodes.len())
        }
}

impl Builder {
    /// Nodes come after those that they hang from, and what waits belongs to
    /// nodes that there are.
    pub open spec fn well_formed(self) -> bool {
        &&& forward(self.nodes@)
        &&& forall|k: int|
            0 <= k < self.stack@.len() ==> (#[trigger] self.stack@[k]).0 < self.nodes@.len()
                && self.stack@[k].1@.len() > 0
    }

    /// Begin with all the polygons at the root; without any there is no tree.
    pub fn new(polys: Vec<Poly>) -> (r: Self)
        ensures
            r.well_formed(),
            polys@.len() == 0 ==> r.nodes@.len() == 0 && r.stack@.len() == 0,
            polys@.len() > 0 ==> r.nodes@.len() == 1 && r.nodes@[0].coplanar@.len() == 0
                && r.nodes@[0].front is None && r.nodes@[0].back is None && r.stack@ == seq![
                (0usize, polys),
            ],
    {
        let mut nodes: Vec<BspNode> = Vec::new();
        let mut stack: Vec<(usize, Vec<Poly>)> = Vec::new();
        if polys.len() > 0 {
            nodes.push(BspNode { coplanar: Vec::new(), front: None, back: None });
            stack.push((0, polys));
        }
        Builder { nodes, stack }
    }

    /// The polygons to divide next, by the middle one of them. `None`: the tree
    /// is complete.
    pub fn take(&mut self) -> (r: Option<Task>)
        requires
            old(self).well_formed(),
        ensures
            final(self).well_formed(),
            final(self).nodes == old(self).nodes,
            match r {
                None => old(self).stack@.len() == 0 && final(self).stack@ == old(self).stack@,
                Some(t) => {
                    &&& old(self).stack@.len() > 0
                    &&& final(self).stack@ == old(self).stack@.drop_last()
                    &&& t.node == old(self).stack@.last().0
                    &&& t.node < old(self).nodes@.len()
                    &&& ({
                        let all = old(self).stack@.last().1@;
                        let mid = all.len() as int / 2;
                        t.splitter == all[mid] && t.others@ == all.remove(mid)
                    })
                },
            },
    {
        match self.stack.pop() {
            None => None,
            Some((node, mut items)) => {
                assert(old(self).stack@[old(self).stack@.len() - 1].1@.len() > 0);
                let mid: usize = items.len() / 2;
                let splitter = items.remove(mid);
                assert forall|k: int| 0 <= k < self.stack@.len() implies (
                #[trigger] self.stack@[k]).0 < self.nodes@.len() && self.stack@[k].1@.len() > 0 by {
                    assert(old(self).stack@[k] == self.stack@[k]);
                }
                Some(Task { node, splitter, others: items })
            },
        }
    }

    /// Divide polygons: those on the plane stay with the node, those on either
    /// side wait at a node of their own there, and one that crosses the plane
    /// is split. `signs` says of each polygon on which side its points lie, and
    /// `cuts` where its edges meet the plane.
    pub fn give(&mut self, task: Task, signs: &Vec<Vec<Sign>>, cuts: &Vec<Vec<u32>>)
        requires
            old(self).well_formed(),
            task.node < old(self).nodes@.len(),
            signs@.len() == task.others@.len(),
            cuts@.len() == task.others@.len(),
            forall|i: int|
                0 <= i < task.others@.len() ==> (#[trigger] signs@[i])@.len()
                    == task.others@[i].pts@.len(),
            forall|i: int|
                0 <= i < task.others@.len() ==> (#[trigger] cuts@[i])@.len()
                    == task.others@[i].pts@.len(),
        ensures
            final(self).well_formed(),
            ({
                let polys = poly_views(task.others@);
                let front = all_on_side(polys, signs@, cuts@, Sign::Back);
                let back = all_on_side(polys, signs@, cuts@, Sign::Front);
                let n0 = old(self).nodes@.len();
                let n1 = n0 + (if front.len() > 0 {
                    1nat
                } else {
                    0nat
                });
                let n2 = n1 + (if back.len() > 0 {
                    1nat
                } else {
                    0nat
                });
                let here = final(self).nodes@[task.node as int];
                &&& final(self).nodes@.len() == n2
                &&& poly_views(here.coplanar@) == seq![task.splitter@] + all_on_plane(polys, signs@)
                &&& here.front == (if front.len() > 0 {
                    Some(n0 as usize)
                } else {
                    old(self).nodes@[task.node as int].front
                })
                &&& here.back == (if back.len() > 0 {
                    Some(n1 as usize)
                } else {
                    old(self).nodes@[task.node as int].back
                })
                &&& forall|i: int|
                    0 <= i < n0 && i != task.node ==> #[trigger] final(self).nodes@[i] == old(
                        self,
                    ).nodes@[i]
                &&& forall|i: int|
                    n0 <= i < n2 ==> (#[trigger] final(self).nodes@[i]).coplanar@.len() == 0
                        && final(self).nodes@[i].front is None && final(self).nodes@[i].back is None
                &&& waiting_views(final(self).stack@) == waiting_views(old(self).stack@)
                    + waiting_at(n0 as usize, front) + waiting_at(n1 as usize, back)
            }),
    {
        let ghost polys = poly_views(task.others@);
        let ghost before = *self;
        let mut coplanar: Vec<Poly> = Vec::new();
        let mut front: Vec<Poly> = Vec::new();
        let mut back: Vec<Poly> = Vec::new();
        let node: usize = task.node;
        let others = task.others;
        coplanar.push(task.splitter);
        let mut i: usize = 0;
        proof {
            assert(poly_views(coplanar@) =~= seq![task.splitter@] + all_on_plane(
                polys.take(0),
                signs@,
            ));
            assert(poly_views(front@) =~= all_on_side(polys.take(0), signs@, cuts@, Sign::Back));
            assert(poly_views(back@) =~= all_on_side(polys.take(0), signs@, cuts@, Sign::Front));
        }
        while i < others.len()
            invariant
                i <= others@.len(),
                others == task.others,
                polys == poly_views(others@),
                signs@.len() == others@.len(),
                cuts@.len() == others@.len(),
                forall|i: int|
                    0 <= i < others@.len() ==> (#[trigger] signs@[i])@.len()
                        == others@[i].pts@.len(),
                forall|i: int|
                    0 <= i < others@.len() ==> (#[trigger] cuts@[i])@.len()
                        == others@[i].pts@.len(),
                poly_views(coplanar@) == seq![task.splitter@] + all_on_plane(
                    polys.take(i as int),
                    signs@,
                ),
                poly_views(front@) == all_on_side(
                    polys.take(i as int),
                    signs@,
                    cuts@,
                    Sign::Back,
                ),
                poly_views(back@) == all_on_side(
                    polys.take(i as int),
                    signs@,
                    cuts@,
                    Sign::Front,
                ),
            decreases others@.len() - i,
        {
            let ghost c0 = coplanar@;
            let ghost f0 = front@;
            let ghost b0 = back@;
            proof {
                assert(polys.take(i + 1).drop_last() =~= polys.take(i as int));
                assert(polys.take(i + 1).last() == others@[i as int]@);
            }
            match lot(&signs[i]) {
                Lot::Coplanar => {
                    coplanar.push(others[i].clone());
                },
                Lot::InFront => {
                    front.push(others[i].clone());
                },
                Lot::Behind => {
                    back.push(others[i].clone());
                },
                Lot::Cut => {
                    let (f, b) = split_poly(&others[i], &signs[i], &cuts[i]);
                    if let Some(f) = f {
                        front.push(f);
                    }
                    if let Some(b) = b {
                        back.push(b);
                    }
                },
            }
            proof {
                let p = others@[i as int]@;
                let s = signs@[i as int]@;
                let c = cuts@[i as int]@;
                assert(poly_views(coplanar@) =~= poly_views(c0) + on_plane(p, s));
                assert(poly_views(front@) =~= poly_views(f0) + on_side(p, s, c, Sign::Back));
                assert(poly_views(back@) =~= poly_views(b0) + on_side(p, s, c, Sign::Front));
                assert(poly_views(coplanar@) =~= seq![task.splitter@] + all_on_plane(
                    polys.take(i + 1),
                    signs@,
                ));
            }
            i += 1;
        }
        assert(polys.take(i as int) =~= polys);
        let ghost fv = all_on_side(polys, signs@, cuts@, Sign::Back);
        let ghost bv = all_on_side(polys, signs@, cuts@, Sign::Front);
        assert(front@.len() == fv.len() && back@.len() == bv.len());
        let n0: usize = self.nodes.len();
        let mut here_front: Option<usize> = self.nodes[node].front;
        let mut here_back: Option<usize> = self.nodes[node].back;
        if front.len() > 0 {
            here_front = Some(n0);
            self.nodes.push(BspNode { coplanar: Vec::new(), front: None, back: None });
            self.stack.push((n0, front));
        }
        assert(waiting_views(self.stack@) =~= waiting_views(before.stack@) + waiting_at(n0, fv));
        let n1: usize = self.nodes.len();
        let ghost half = self.stack@;
        if back.len() > 0 {
            here_back = Some(n1);
            self.nodes.push(BspNode { coplanar: Vec::new(), front: None, back: None });
            self.stack.push((n1, back));
        }
        assert(waiting_views(self.stack@) =~= waiting_views(half) + waiting_at(n1, bv));
        self.nodes.set(node, BspNode { coplanar, front: here_front, back: here_back });
        proof {
            assert(forward(self.nodes@)) by {
                assert forall|i: int| 0 <= i < self.nodes@.len() implies {
                    &&& ((#[trigger] self.nodes@[i]).front matches Some(c) ==> i < c
                        < self.nodes@.len())
                    &&& (self.nodes@[i].back matches Some(c) ==> i < c < self.nodes@.len())
                } by {
                    if i < n0 && i != node {
                        assert(self.nodes@[i] == before.nodes@[i]);
                    } else if i == node {
                        assert(before.nodes@[i].front matches Some(c) ==> i < c < n0);
                        assert(before.nodes@[i].back matches Some(c) ==> i < c < n0);
                    }
                }
            }
            assert forall|k: int| 0 <= k < self.stack@.len() implies (
            #[trigger] self.stack@[k]).0 < self.nodes@.len() && self.stack@[k].1@.len() > 0 by {
                if k < before.stack@.len() {
                    assert(self.stack@[k] == before.stack@[k]);
                }
            }
        }
    }
}

/// What waits, by its contents.
pub open spec fn waiting_views(stack: Seq<(usize, Vec<Poly>)>) -> Seq<(usize, Seq<PolyView>)> {
    stack.map_values(|w: (usize, Vec<Poly>)| (w.0, poly_views(w.1@)))
}

/// Polygons that wait at a node; where there are none, nothing does.
pub open spec fn waiting_at(node: usize, polys: Seq<PolyView>) -> Seq<(usize, Seq<PolyView>)> {
    if polys.len() > 0 {
        seq![(node, polys)]
    } else {
        Seq::empty()
    }
}

// ---- traversal ----

/// Back to front: what lies beyond the plane of a node, seen from the eye, then
/// what lies on it, then what lies before it. `toward` says of each node
/// whether the eye lies in the halfspace that its normal points into.
pub open spec fn painted(nodes: Seq<BspNode>, toward: Seq<bool>, node: Option<usize>) -> Seq<
    PolyView,
>
    decreases
            (match node {
                Some(i) => if i < nodes.len() {
                    nodes.len() - i
                } else {
                    0
                },
                None => 0,
            }),
    when forward(nodes)
{
    match node {
        None => Seq::empty(),
        Some(i) => if i >= nodes.len() {
            Seq::empty()
        } else {
            let n = nodes[i as int];
            let (first, second) = if toward[i as int] {
                (n.back, n.front)
            } else {
                (n.front, n.back)
            };
            painted(nodes, toward, first) + poly_views(n.coplanar@) + painted(
                nodes,
                toward,
                second,
            )
        },
    }
}

/// What is still to be painted: a subtree, or what lies on the plane of a node.
spec fn pending(nodes: Seq<BspNode>, toward: Seq<bool>, slot: (Option<usize>, bool)) -> Seq<
    PolyView,
> {
    if slot.1 {
        match slot.0 {
            Some(i) => poly_views(nodes[i as int].coplanar@),
            None => Seq::empty(),
        }
    } else {
        painted(nodes, toward, slot.0)
    }
}

/// What a stack still paints, its last entry first.
spec fn all_pending(
    nodes: Seq<BspNode>,
    toward: Seq<bool>,
    stack: Seq<(Option<usize>, bool)>,
) -> Seq<PolyView>
    decreases stack.len(),
{
    if stack.len() == 0 {
        Seq::empty()
    } else {
        pending(nodes, toward, stack.last()) + all_pending(nodes, toward, stack.drop_last())
    }
}

/// How many steps a subtree takes.
spec fn steps(nodes: Seq<BspNode>, node: Option<usize>) -> nat
    decreases
            (match node {
                Some(i) => if i < nodes.len() {
                    nodes.len() - i
                } else {
                    0
                },
                None => 0,
            }),
    when forward(nodes)
{
    match node {
        None => 1,
        Some(i) => if i >= nodes.len() {
            1
        } else {
            steps(nodes, nodes[i as int].front) + steps(nodes, nodes[i as int].back) + 4
        },
    }
}

/// How many steps a stack takes.
spec fn all_steps(nodes: Seq<BspNode>, stack: Seq<(Option<usize>, bool)>) -> nat
    decreases stack.len(),
{
    if stack.len() == 0 {
        0
    } else {
        all_steps(nodes, stack.drop_last()) + if stack.last().1 {
            1nat
        } else {
            steps(nodes, stack.last().0)
        }
    }
}

/// Every subtree takes a step.
proof fn lemma_steps(nodes: Seq<BspNode>, node: Option<usize>)
    requires
        forward(nodes),
    ensures
        steps(nodes, node) >= 1,
    decreases
            (match node {
                Some(i) => if i < nodes.len() {
                    nodes.len() - i
                } else {
                    0
                },
                None => 0,
            }),
{
    if let Some(i) = node {
        if i < nodes.len() {
            lemma_steps(nodes, nodes[i as int].front);
        }
    }
}

/// One more entry on a stack.
proof fn lemma_one_more_pending(
    nodes: Seq<BspNode>,
    toward: Seq<bool>,
    stack: Seq<(Option<usize>, bool)>,
    slot: (Option<usize>, bool),
)
    ensures
        all_pending(nodes, toward, stack.push(slot)) == pending(nodes, toward, slot) + all_pending(
            nodes,
            toward,
            stack,
        ),
        all_steps(nodes, stack.push(slot)) == all_steps(nodes, stack) + if slot.1 {
            1nat
        } else {
            steps(nodes, slot.0)
        },
{
    assert(stack.push(slot).drop_last() =~= stack);
}

/// A subtree is what lies beyond its plane, on it, and before it.
proof fn lemma_opened(
    nodes: Seq<BspNode>,
    toward: Seq<bool>,
    base: Seq<(Option<usize>, bool)>,
    ni: usize,
    first: Option<usize>,
    second: Option<usize>,
)
    requires
        forward(nodes),
        ni < nodes.len(),
        (first, second) == (if toward[ni as int] {
            (nodes[ni as int].back, nodes[ni as int].front)
        } else {
            (nodes[ni as int].front, nodes[ni as int].back)
        }),
    ensures
        all_pending(
            nodes,
            toward,
            base.push((second, false)).push((Some(ni), true)).push((first, false)),
        ) == all_pending(nodes, toward, base.push((Some(ni), false))),
        all_steps(
            nodes,
            base.push((second, false)).push((Some(ni), true)).push((first, false)),
        ) < all_steps(nodes, base.push((Some(ni), false))),
{
    let one = base.push((second, false));
    let two = one.push((Some(ni), true));
    lemma_one_more_pending(nodes, toward, base, (Some(ni), false));
    lemma_one_more_pending(nodes, toward, base, (second, false));
    lemma_one_more_pending(nodes, toward, one, (Some(ni), true));
    lemma_one_more_pending(nodes, toward, two, (first, false));
    let a = painted(nodes, toward, first);
    let b = poly_views(nodes[ni as int].coplanar@);
    let c = painted(nodes, toward, second);
    let rest = all_pending(nodes, toward, base);
    assert(a + (b + (c + rest)) =~= (a + b + c) + rest);
    assert(painted(nodes, toward, Some(ni)) == a + b + c);
}

/// Iterative back-to-front traversal.
pub fn traverse_bsp(nodes: &[BspNode], toward: &[bool]) -> (r: Vec<Poly>)
    requires
        forward(nodes@),
        toward@.len() == nodes@.len(),
    ensures
        poly_views(r@) == painted(nodes@, toward@, Some(0)),
{
    let mut out: Vec<Poly> = Vec::new();
    let mut stack: Vec<(Option<usize>, bool)> = Vec::new();
    if nodes.len() == 0 {
        assert(poly_views(out@) =~= painted(nodes@, toward@, Some(0)));
        return out;
    }
    stack.push((Some(0), false));
    let ghost whole = painted(nodes@, toward@, Some(0));
    proof {
        reveal_with_fuel(all_pending, 2);
        assert(stack@.drop_last() =~= Seq::<(Option<usize>, bool)>::empty());
        assert(poly_views(out@) + all_pending(nodes@, toward@, stack@) =~= whole);
    }
    loop
        invariant
            forward(nodes@),
            toward@.len() == nodes@.len(),
            forall|k: int|
                0 <= k < stack@.len() ==> ((#[trigger] stack@[k]).0 matches Some(i) ==> i
                    < nodes@.len()),
            poly_views(out@) + all_pending(nodes@, toward@, stack@) == whole,
        ensures
            poly_views(out@) == whole,
        decreases all_steps(nodes@, stack@),
    {
        let ghost before = stack@;
        match stack.pop() {
            None => {
                assert(poly_views(out@) =~= whole);
                break;
            },
            Some((slot, emit)) => {
                proof {
                    assert(before.last() == (slot, emit));
                    assert(before.drop_last() =~= stack@);
                    assert(before[before.len() - 1] == (slot, emit));
                    lemma_steps(nodes@, slot);
                }
                if let Some(ni) = slot {
                    if emit {
                        let ghost prior = out@;
                        let list = &nodes[ni].coplanar;
                        let mut k: usize = 0;
                        while k < list.len()
                            invariant
                                k <= list@.len(),
                                poly_views(out@) == poly_views(prior) + poly_views(list@).take(
                                    k as int,
                                ),
                            decreases list@.len() - k,
                        {
                            let ghost now = out@;
                            out.push(list[k].clone());
                            assert(poly_views(out@) =~= poly_views(now).push(list@[k as int]@));
                            assert(poly_views(out@) =~= poly_views(prior) + poly_views(
                                list@,
                            ).take(k + 1));
                            k += 1;
                        }
                        proof {
                            assert(poly_views(list@).take(k as int) =~= poly_views(list@));
                            assert(poly_views(out@) + all_pending(nodes@, toward@, stack@)
                                =~= poly_views(prior) + all_pending(nodes@, toward@, before));
                        }
                    } else {
                        let (first, second): (Option<usize>, Option<usize>) = if toward[ni] {
                            (nodes[ni].back, nodes[ni].front)
                        } else {
                            (nodes[ni].front, nodes[ni].back)
                        };
                        let ghost base = stack@;
                        stack.push((second, false));
                        stack.push((Some(ni), true));
                        stack.push((first, false));
                        proof {
                            assert(nodes@[ni as int].front matches Some(c) ==> c < nodes@.len());
                            assert(nodes@[ni as int].back matches Some(c) ==> c < nodes@.len());
                            assert(before =~= base.push((Some(ni), false)));
                            lemma_opened(nodes@, toward@, base, ni, first, second);
                            assert forall|k: int| 0 <= k < stack@.len() implies ((
                            #[trigger] stack@[k]).0 matches Some(i) ==> i < nodes@.len()) by {
                                if k < base.len() {
                                    assert(stack@[k] == before[k]);
                                }
                            }
                        }
                    }
                } else {
                    assert(pending(nodes@, toward@, (slot, emit)) =~= Seq::<PolyView>::empty());
                    assert(all_pending(nodes@, toward@, before) =~= all_pending(
                        nodes@,
                        toward@,
                        stack@,
                    ));
                }
            },
        }
    }
    out
}

/// Dividing loses no polygon and doubles none, as long as none crosses the
/// plane: every one is on the plane, or in front, or behind.
pub proof fn lemma_dividing_keeps_all(
    polys: Seq<PolyView>,
    signs: Seq<Vec<Sign>>,
    cuts: Seq<Vec<u32>>,
)
    requires
        forall|i: int| 0 <= i < polys.len() ==> lot_of((#[trigger] signs[i])@) != Lot::Cut,
    ensures
        (all_on_plane(polys, signs) + all_on_side(polys, signs, cuts, Sign::Back) + all_on_side(
            polys,
            signs,
            cuts,
            Sign::Front,
        )).to_multiset() == polys.to_multiset(),
    decreases polys.len(),
{
    broadcast use vstd::seq_lib::group_to_multiset_ensures;

    if polys.len() == 0 {
        assert(all_on_plane(polys, signs) + all_on_side(polys, signs, cuts, Sign::Back)
            + all_on_side(polys, signs, cuts, Sign::Front) =~= polys);
    } else {
        let fewer = polys.drop_last();
        lemma_dividing_keeps_all(fewer, signs, cuts);
        let p = polys.last();
        let s = signs[polys.len() - 1]@;
        let c = cuts[polys.len() - 1]@;
        let a = all_on_plane(fewer, signs);
        let f = all_on_side(fewer, signs, cuts, Sign::Back);
        let b = all_on_side(fewer, signs, cuts, Sign::Front);
        assert(lot_of(s) != Lot::Cut);
        assert(polys =~= fewer.push(p));
        vstd::seq_lib::lemma_multiset_commutative(a + f, b);
        vstd::seq_lib::lemma_multiset_commutative(a, f);
        let a2 = all_on_plane(polys, signs);
        let f2 = all_on_side(polys, signs, cuts, Sign::Back);
        let b2 = all_on_side(polys, signs, cuts, Sign::Front);
        vstd::seq_lib::lemma_multiset_commutative(a2 + f2, b2);
        vstd::seq_lib::lemma_multiset_commutative(a2, f2);
        let e = Seq::<PolyView>::empty();
        assert(lot_of(s) == Lot::Coplanar ==> a2 =~= a.push(p) && f2 =~= f && b2 =~= b);
        assert(lot_of(s) == Lot::InFront ==> a2 =~= a && f2 =~= f.push(p) && b2 =~= b);
        assert(lot_of(s) == Lot::Behind ==> a2 =~= a && f2 =~= f && b2 =~= b.push(p));
        assert((a2 + f2 + b2).to_multiset() =~= (a + f + b).to_multiset().insert(p));
    }
}

} // verus!
