//! Painter's-algorithm SVG for tessellated parts: paint order, feature edges,
//! and the text of the picture.
//!
//! Triangles are drawn back-to-front as semi-transparent shaded polygons so
//! interior structure shows through. Ordering is exact via a BSP tree (see
//! [`crate::bsp`]) up to a size budget, falling back to centroid depth sort for
//! very large meshes. Real per-face colours are used when present, with a
//! per-face override for diff rendering. Feature edges (sharp dihedrals, open
//! boundaries) are stroked in paint order. Numbers that stand for lengths come
//! as text.

use std::collections::HashMap;

use vstd::prelude::*;

use crate::double::{is_less, nan, rank};
use crate::edges::{
    corner_key, edge, edge_table, is_table, lemma_packed, lemma_users_among, packed, tells_of,
    users, EdgeUse, Tri,
};
use crate::grid::ahead;
use crate::text::{chars_of, push_signed};
use crate::value::NodeId;

verus! {

broadcast use vstd::std_specs::hash::group_hash_axioms;

/// Triangle count beyond which exact (BSP) ordering costs too much.
pub const BSP_BUDGET: usize = 12000;

#[derive(Debug, Clone, Copy, PartialEq, Eq, Structural)]
pub enum Order {
    Auto,
    Bsp,
    Depth,
}

/// Whether so many polygons are put into exact order.
pub fn uses_bsp(order: Order, polys: usize) -> (r: bool)
    ensures
        r == (order == Order::Bsp || (order == Order::Auto && polys <= BSP_BUDGET)),
{
    match order {
        Order::Bsp => true,
        Order::Depth => false,
        Order::Auto => polys <= BSP_BUDGET,
    }
}

/// Portal-friendly blue, used when a face carries no colour: the bits of 0.48,
/// 0.64 and 0.97.
pub const BASE_RGB: [u64; 3] = [0x3fdeb851eb851eb8, 0x3fe47ae147ae147b, 0x3fef0a3d70a3d70a];

/// The base colour of a face: the override, or its own, or the default.
pub fn base_color(
    overrides: &HashMap<NodeId, [u64; 3]>,
    own: &HashMap<NodeId, [u64; 3]>,
    face: NodeId,
) -> (r: [u64; 3])
    ensures
        r == (if overrides@.contains_key(face) {
            overrides@[face]
        } else if own@.contains_key(face) {
            own@[face]
        } else {
            BASE_RGB
        }),
{
    match overrides.get(&face) {
        Some(c) => *c,
        None => match own.get(&face) {
            Some(c) => *c,
            None => BASE_RGB,
        },
    }
}

// ---- centroid depth ----

/// Places in order: the larger depth first, and of equal ones the earlier.
pub open spec fn in_depth_order(depths: Seq<u64>, places: Seq<usize>) -> bool {
    forall|i: int, k: int|
        0 <= i < k < places.len() ==> ahead(
            depths,
            #[trigger] places[i] as int,
            #[trigger] places[k] as int,
        )
}

/// Places that there are.
pub open spec fn are_places(depths: Seq<u64>, places: Seq<usize>) -> bool {
    forall|i: int| 0 <= i < places.len() ==> (#[trigger] places[i]) < depths.len()
}

/// Merge two runs that are each in order.
fn merge(depths: &[u64], a: Vec<usize>, b: Vec<usize>) -> (r: Vec<usize>)
    requires
        forall|i: int| 0 <= i < depths@.len() ==> !nan(#[trigger] depths@[i]),
        are_places(depths@, a@),
        are_places(depths@, b@),
        in_depth_order(depths@, a@),
        in_depth_order(depths@, b@),
        forall|i: int, k: int|
            0 <= i < a@.len() && 0 <= k < b@.len() ==> #[trigger] a@[i] < #[trigger] b@[k],
    ensures
        are_places(depths@, r@),
        in_depth_order(depths@, r@),
        r@.to_multiset() == a@.to_multiset().add(b@.to_multiset()),
{
    broadcast use vstd::seq_lib::group_to_multiset_ensures;

    let mut out: Vec<usize> = Vec::new();
    let mut i: usize = 0;
    let mut k: usize = 0;
    proof {
        assert(a@.take(0) =~= Seq::<usize>::empty());
        assert(b@.take(0) =~= Seq::<usize>::empty());
        assert(out@ =~= a@.take(0));
        assert(out@.to_multiset() =~= a@.take(0).to_multiset().add(b@.take(0).to_multiset()));
    }
    while i < a.len() || k < b.len()
        invariant
            i <= a@.len(),
            k <= b@.len(),
            forall|i: int| 0 <= i < depths@.len() ==> !nan(#[trigger] depths@[i]),
            are_places(depths@, a@),
            are_places(depths@, b@),
            in_depth_order(depths@, a@),
            in_depth_order(depths@, b@),
            forall|i: int, k: int|
                0 <= i < a@.len() && 0 <= k < b@.len() ==> #[trigger] a@[i] < #[trigger] b@[k],
            are_places(depths@, out@),
            in_depth_order(depths@, out@),
            forall|x: int, y: int|
                0 <= x < out@.len() && i <= y < a@.len() ==> ahead(
                    depths@,
                    #[trigger] out@[x] as int,
                    #[trigger] a@[y] as int,
                ),
            forall|x: int, y: int|
                0 <= x < out@.len() && k <= y < b@.len() ==> ahead(
                    depths@,
                    #[trigger] out@[x] as int,
                    #[trigger] b@[y] as int,
                ),
            out@.to_multiset() == a@.take(i as int).to_multiset().add(
                b@.take(k as int).to_multiset(),
            ),
        decreases a@.len() - i + b@.len() - k,
    {
        // of equal depths the earlier place goes first, and those stand in `a`
        let from_a: bool = if i < a.len() && k < b.len() {
            assert(a@[i as int] < depths@.len() && b@[k as int] < depths@.len());
            !is_less(depths[a[i]], depths[b[k]])
        } else {
            i < a.len()
        };
        let ghost before = out@;
        if from_a {
            let p: usize = a[i];
            out.push(p);
            proof {
                assert(a@.take(i + 1) =~= a@.take(i as int).push(p));
                assert(out@ == before.push(p));
                a@.take(i as int).to_multiset_ensures();
                before.to_multiset_ensures();
                assert(out@.to_multiset() =~= a@.take(i + 1).to_multiset().add(
                    b@.take(k as int).to_multiset(),
                ));
                assert forall|y: int| k <= y < b@.len() implies ahead(
                    depths@,
                    p as int,
                    #[trigger] b@[y] as int,
                ) by {
                    assert(a@[i as int] < b@[k as int] && a@[i as int] < b@[y]);
                    assert(ahead(depths@, p as int, b@[k as int] as int));
                    if y > k {
                        assert(ahead(depths@, b@[k as int] as int, b@[y] as int));
                    }
                }
                assert forall|x: int, y: int| 0 <= x < out@.len() && i + 1 <= y < a@.len() implies ahead(
                    depths@,
                    #[trigger] out@[x] as int,
                    #[trigger] a@[y] as int,
                ) by {
                    if x < before.len() {
                        assert(before[x] == out@[x]);
                    } else {
                        assert(ahead(depths@, a@[i as int] as int, a@[y] as int));
                    }
                }
                assert forall|x: int, y: int| 0 <= x < out@.len() && k <= y < b@.len() implies ahead(
                    depths@,
                    #[trigger] out@[x] as int,
                    #[trigger] b@[y] as int,
                ) by {
                    if x < before.len() {
                        assert(before[x] == out@[x]);
                    }
                }
                assert forall|x: int, y: int| 0 <= x < y < out@.len() implies ahead(
                    depths@,
                    #[trigger] out@[x] as int,
                    #[trigger] out@[y] as int,
                ) by {
                    assert(before[x] == out@[x]);
                    if y < before.len() {
                        assert(before[y] == out@[y]);
                    } else {
                        assert(ahead(depths@, before[x] as int, a@[i as int] as int));
                    }
                }
            }
            i += 1;
        } else {
            let p: usize = b[k];
            out.push(p);
            proof {
                assert(b@.take(k + 1) =~= b@.take(k as int).push(p));
                assert(out@ == before.push(p));
                b@.take(k as int).to_multiset_ensures();
                before.to_multiset_ensures();
                assert(out@.to_multiset() =~= a@.take(i as int).to_multiset().add(
                    b@.take(k + 1).to_multiset(),
                ));
                assert forall|y: int| i <= y < a@.len() implies ahead(
                    depths@,
                    p as int,
                    #[trigger] a@[y] as int,
                ) by {
                    assert(rank(depths@[p as int]) > rank(depths@[a@[i as int] as int]));
                    if y > i {
                        assert(ahead(depths@, a@[i as int] as int, a@[y] as int));
                    }
                }
                assert forall|x: int, y: int| 0 <= x < out@.len() && i <= y < a@.len() implies ahead(
                    depths@,
                    #[trigger] out@[x] as int,
                    #[trigger] a@[y] as int,
                ) by {
                    if x < before.len() {
                        assert(before[x] == out@[x]);
                    }
                }
                assert forall|x: int, y: int| 0 <= x < out@.len() && k + 1 <= y < b@.len() implies ahead(
                    depths@,
                    #[trigger] out@[x] as int,
                    #[trigger] b@[y] as int,
                ) by {
                    if x < before.len() {
                        assert(before[x] == out@[x]);
                    } else {
                        assert(ahead(depths@, b@[k as int] as int, b@[y] as int));
                    }
                }
                assert forall|x: int, y: int| 0 <= x < y < out@.len() implies ahead(
                    depths@,
                    #[trigger] out@[x] as int,
                    #[trigger] out@[y] as int,
                ) by {
                    assert(before[x] == out@[x]);
                    if y < before.len() {
                        assert(before[y] == out@[y]);
                    } else {
                        assert(ahead(depths@, before[x] as int, b@[k as int] as int));
                    }
                }
            }
            k += 1;
        }
    }
    proof {
        assert(a@.take(i as int) =~= a@);
        assert(b@.take(k as int) =~= b@);
    }
    out
}

/// The places `lo` up to `hi`.
pub open spec fn span(lo: usize, hi: usize) -> Seq<usize> {
    Seq::new((hi - lo) as nat, |i: int| (lo + i) as usize)
}

/// Sort the places `lo` up to `hi`.
fn sort_span(depths: &[u64], lo: usize, hi: usize) -> (r: Vec<usize>)
    requires
        lo <= hi <= depths@.len(),
        forall|i: int| 0 <= i < depths@.len() ==> !nan(#[trigger] depths@[i]),
    ensures
        are_places(depths@, r@),
        in_depth_order(depths@, r@),
        r@.to_multiset() == span(lo, hi).to_multiset(),
        forall|i: int| 0 <= i < r@.len() ==> lo <= #[trigger] r@[i] < hi,
    decreases hi - lo,
{
    broadcast use vstd::seq_lib::group_to_multiset_ensures;

    if hi - lo <= 1 {
        let mut one: Vec<usize> = Vec::new();
        if lo < hi {
            one.push(lo);
        }
        assert(one@ =~= span(lo, hi));
        return one;
    }
    let mid: usize = lo + (hi - lo) / 2;
    let a = sort_span(depths, lo, mid);
    let b = sort_span(depths, mid, hi);
    let r = merge(depths, a, b);
    proof {
        let left = span(lo, mid);
        let right = span(mid, hi);
        assert(span(lo, hi) =~= left + right);
        vstd::seq_lib::lemma_multiset_commutative(left, right);
        assert forall|i: int| 0 <= i < r@.len() implies lo <= #[trigger] r@[i] < hi by {
            assert(r@.contains(r@[i]));
            assert(r@.to_multiset().count(r@[i]) > 0);
            assert(span(lo, hi).to_multiset().count(r@[i]) > 0);
            assert(span(lo, hi).contains(r@[i]));
        }
    }
    r
}

/// Back to front by depth: every place once, the farthest (largest depth)
/// first.
pub fn depth_order(depths: &[u64]) -> (r: Vec<usize>)
    requires
        forall|i: int| 0 <= i < depths@.len() ==> !nan(#[trigger] depths@[i]),
    ensures
        in_depth_order(depths@, r@),
        r@.to_multiset() == span(0, depths@.len() as usize).to_multiset(),
        r@.len() == depths@.len(),
{
    broadcast use vstd::seq_lib::group_to_multiset_ensures;

    let r = sort_span(depths, 0, depths.len());
    assert(r@.to_multiset().len() == span(0, depths@.len() as usize).to_multiset().len());
    r
}

// ---- feature edges ----

/// How much two triangles turn where they meet.
#[derive(Debug, Clone, Copy, PartialEq, Eq, Structural)]
pub enum Bend {
    /// They lie in one plane.
    Flat,
    /// Little, but visibly.
    Slight,
    /// By a feature angle.
    Sharp,
}

/// A corner is the first that uses its edge.
pub open spec fn first_user(tris: Seq<Tri>, c: int) -> bool {
    users(tris, edge(tris, c))[0] == c
}

/// The edge of a corner is stroked: it is open, or the two triangles along it
/// turn by a feature angle, or they belong to different faces and turn visibly.
/// One that more than two triangles share is not.
pub open spec fn stroked(tris: Seq<Tri>, faces: Seq<NodeId>, bends: Seq<Bend>, c: int) -> bool {
    let u = users(tris, edge(tris, c));
    if u.len() == 1 {
        true
    } else if u.len() == 2 {
        bends[c] == Bend::Sharp || (faces[u[0] / 3] != faces[u[1] / 3] && bends[c] == Bend::Slight)
    } else {
        false
    }
}

/// Where a vertex stands in a triangle.
pub open spec fn corner_at(t: Tri, v: u32) -> usize {
    if t@[0] == v {
        0
    } else if t@[1] == v {
        1
    } else {
        2
    }
}

/// The edge of a corner as corners of its triangle, the lower vertex first.
pub open spec fn local_edge(tris: Seq<Tri>, c: int) -> (usize, usize) {
    (corner_at(tris[c / 3], edge(tris, c).0), corner_at(tris[c / 3], edge(tris, c).1))
}

/// Marks with one more.
pub open spec fn with_mark(
    marks: Seq<Seq<(usize, usize)>>,
    tris: Seq<Tri>,
    c: int,
) -> Seq<Seq<(usize, usize)>> {
    marks.update(c / 3, marks[c / 3].push(local_edge(tris, c)))
}

/// The marks of each triangle for the edges that come up among the first `m`
/// corners, in the order in which they do.
pub open spec fn marks_among(
    tris: Seq<Tri>,
    faces: Seq<NodeId>,
    bends: Seq<Bend>,
    m: int,
) -> Seq<Seq<(usize, usize)>>
    decreases m,
{
    if m <= 0 {
        Seq::new(tris.len(), |i: int| Seq::empty())
    } else {
        let before = marks_among(tris, faces, bends, m - 1);
        let c = m - 1;
        let u = users(tris, edge(tris, c));
        if first_user(tris, c) && stroked(tris, faces, bends, c) {
            if u.len() == 1 {
                with_mark(before, tris, u[0])
            } else {
                with_mark(with_mark(before, tris, u[0]), tris, u[1])
            }
        } else {
            before
        }
    }
}

/// The marks of triangles.
pub open spec fn mark_views(marks: Seq<Vec<(usize, usize)>>) -> Seq<Seq<(usize, usize)>> {
    marks.map_values(|m: Vec<(usize, usize)>| m@)
}

/// Where a vertex stands in a triangle.
fn find_corner(t: &Tri, v: u32) -> (r: usize)
    ensures
        r == corner_at(*t, v),
{
    if t[0] == v {
        0
    } else if t[1] == v {
        1
    } else {
        2
    }
}

/// Add the mark of a corner.
fn add_mark(marks: &mut Vec<Vec<(usize, usize)>>, tris: &Vec<Tri>, t: usize, k: usize)
    requires
        t < tris@.len(),
        k < 3,
        old(marks)@.len() == tris@.len(),
    ensures
        final(marks)@.len() == tris@.len(),
        mark_views(final(marks)@) == with_mark(mark_views(old(marks)@), tris@, 3 * t + k),
{
    let ghost c = 3 * t + k;
    assert(c / 3 == t && c % 3 == k);
    let tri: Tri = tris[t];
    let a: u32 = tri[k];
    let b: u32 = tri[if k == 2 {
        0
    } else {
        k + 1
    }];
    let (lo, hi): (u32, u32) = if a < b {
        (a, b)
    } else {
        (b, a)
    };
    assert((lo, hi) == edge(tris@, c));
    let mark: (usize, usize) = (find_corner(&tri, lo), find_corner(&tri, hi));
    let ghost before = marks@;
    let list = &mut marks[t];
    list.push(mark);
    assert(mark_views(marks@) =~= with_mark(mark_views(before), tris@, c));
}

/// A corner lies in the triangles that there are.
proof fn lemma_users_in(tris: Seq<Tri>, c: int)
    requires
        0 <= c < 3 * tris.len(),
    ensures
        users(tris, edge(tris, c)).len() > 0,
        forall|i: int|
            0 <= i < users(tris, edge(tris, c)).len() ==> 0 <= #[trigger] users(
                tris,
                edge(tris, c),
            )[i] < 3 * tris.len(),
{
    lemma_users_among(tris, (3 * tris.len()) as nat, edge(tris, c));
    assert(users(tris, edge(tris, c)).contains(c));
}

/// Look the users of the edge of a corner up.
fn users_at(
    table: &HashMap<u64, EdgeUse>,
    tris: &Vec<Tri>,
    t: usize,
    k: usize,
) -> (r: EdgeUse)
    requires
        t < tris@.len(),
        k < 3,
        is_table(table@, tris@, (3 * tris@.len()) as nat),
    ensures
        tells_of(r, users(tris@, edge(tris@, 3 * t + k))),
        users(tris@, edge(tris@, 3 * t + k)).len() > 0,
        r.t0 < tris@.len(),
        r.k0 < 3,
        r.count >= 2 ==> r.t1 < tris@.len() && r.k1 < 3,
{
    let ghost c = 3 * t + k;
    assert(c / 3 == t && c % 3 == k);
    let (key, _) = corner_key(&tris[t], k);
    proof {
        lemma_users_in(tris@, c);
        lemma_packed();
        assert(key == packed(edge(tris@, c)));
        assert(table@.contains_key(packed(edge(tris@, c))));
        let u = users(tris@, edge(tris@, c));
        assert(0 <= u[0] < 3 * tris@.len());
        if u.len() >= 2 {
            assert(0 <= u[1] < 3 * tris@.len());
        }
    }
    *table.get(&key).unwrap()
}

/// The two triangles whose turn decides over the edge of each corner: where the
/// corner is the first of exactly two that use its edge.
pub open spec fn meeting_at(tris: Seq<Tri>, c: int) -> Option<(usize, usize)> {
    let u = users(tris, edge(tris, c));
    if u.len() == 2 && u[0] == c {
        Some(((u[0] / 3) as usize, (u[1] / 3) as usize))
    } else {
        None
    }
}

/// The triangles that meet along edges, told at the first corner of each edge
/// that exactly two use.
pub fn meeting_triangles(tris: &Vec<Tri>) -> (r: Vec<Option<(usize, usize)>>)
    requires
        3 * tris@.len() <= usize::MAX,
    ensures
        r@.len() == 3 * tris@.len(),
        forall|c: int| 0 <= c < r@.len() ==> #[trigger] r@[c] == meeting_at(tris@, c),
{
    let table = edge_table(tris);
    let mut out: Vec<Option<(usize, usize)>> = Vec::new();
    let mut t: usize = 0;
    while t < tris.len()
        invariant
            t <= tris@.len(),
            3 * tris@.len() <= usize::MAX,
            is_table(table@, tris@, (3 * tris@.len()) as nat),
            out@.len() == 3 * t,
            forall|c: int| 0 <= c < out@.len() ==> #[trigger] out@[c] == meeting_at(tris@, c),
        decreases tris@.len() - t,
    {
        let mut k: usize = 0;
        while k < 3
            invariant
                t < tris@.len(),
                k <= 3,
                3 * tris@.len() <= usize::MAX,
                is_table(table@, tris@, (3 * tris@.len()) as nat),
                out@.len() == 3 * t + k,
                forall|c: int| 0 <= c < out@.len() ==> #[trigger] out@[c] == meeting_at(tris@, c),
            decreases 3 - k,
        {
            let u: EdgeUse = users_at(&table, tris, t, k);
            if u.count == 2 && u.t0 == t && u.k0 == k {
                out.push(Some((u.t0, u.t1)));
            } else {
                out.push(None);
            }
            k += 1;
        }
        t += 1;
    }
    out
}

/// Per triangle the pairs of its corners that lie on sharp or open edges.
/// `bends` says how much triangles turn where they meet, at the corners that
/// `meeting_triangles` tells of.
pub fn feature_edges(tris: &Vec<Tri>, faces: &Vec<NodeId>, bends: &Vec<Bend>) -> (r: Vec<
    Vec<(usize, usize)>,
>)
    requires
        3 * tris@.len() <= usize::MAX,
        faces@.len() == tris@.len(),
        bends@.len() == 3 * tris@.len(),
    ensures
        mark_views(r@) == marks_among(tris@, faces@, bends@, 3 * tris@.len() as int),
{
    let table = edge_table(tris);
    let mut marks: Vec<Vec<(usize, usize)>> = Vec::new();
    let mut i: usize = 0;
    while i < tris.len()
        invariant
            i <= tris@.len(),
            marks@.len() == i,
            forall|k: int|
                0 <= k < i ==> (#[trigger] marks@[k])@ == Seq::<(usize, usize)>::empty(),
        decreases tris@.len() - i,
    {
        marks.push(Vec::new());
        i += 1;
    }
    assert(mark_views(marks@) =~= marks_among(tris@, faces@, bends@, 0));
    let mut t: usize = 0;
    while t < tris.len()
        invariant
            t <= tris@.len(),
            3 * tris@.len() <= usize::MAX,
            faces@.len() == tris@.len(),
            bends@.len() == 3 * tris@.len(),
            is_table(table@, tris@, (3 * tris@.len()) as nat),
            marks@.len() == tris@.len(),
            mark_views(marks@) == marks_among(tris@, faces@, bends@, 3 * t),
        decreases tris@.len() - t,
    {
        let mut k: usize = 0;
        while k < 3
            invariant
                t < tris@.len(),
                k <= 3,
                3 * tris@.len() <= usize::MAX,
                faces@.len() == tris@.len(),
                bends@.len() == 3 * tris@.len(),
                is_table(table@, tris@, (3 * tris@.len()) as nat),
                marks@.len() == tris@.len(),
                mark_views(marks@) == marks_among(tris@, faces@, bends@, 3 * t + k),
            decreases 3 - k,
        {
            let u: EdgeUse = users_at(&table, tris, t, k);
            let ghost c = 3 * t + k;
            let ghost list = users(tris@, edge(tris@, c));
            let bend: Bend = bends[3 * t + k];
            proof {
                assert(list[0] / 3 == u.t0 && list[0] % 3 == u.k0);
                if list.len() >= 2 {
                    assert(list[1] / 3 == u.t1 && list[1] % 3 == u.k1);
                }
                assert(first_user(tris@, c) <==> u.t0 == t && u.k0 == k);
                assert(marks_among(tris@, faces@, bends@, c + 1) == {
                    let before = marks_among(tris@, faces@, bends@, c);
                    if first_user(tris@, c) && stroked(tris@, faces@, bends@, c) {
                        if list.len() == 1 {
                            with_mark(before, tris@, list[0])
                        } else {
                            with_mark(with_mark(before, tris@, list[0]), tris@, list[1])
                        }
                    } else {
                        before
                    }
                });
            }
            if u.t0 == t && u.k0 == k {
                if u.count == 1 {
                    add_mark(&mut marks, tris, u.t0, u.k0);
                } else if u.count == 2 && (bend == Bend::Sharp || (faces[u.t0] != faces[u.t1]
                    && bend == Bend::Slight)) {
                    add_mark(&mut marks, tris, u.t0, u.k0);
                    add_mark(&mut marks, tris, u.t1, u.k1);
                }
            }
            k += 1;
        }
        t += 1;
    }
    marks
}

// ---- text ----

/// What stands for a character in the text of an element.
pub open spec fn escaped_char(c: char) -> Seq<char> {
    if c == '&' {
        "&amp;"@
    } else if c == '<' {
        "&lt;"@
    } else if c == '>' {
        "&gt;"@
    } else {
        seq![c]
    }
}

/// A text as the text of an element.
pub open spec fn escaped(s: Seq<char>) -> Seq<char>
    decreases s.len(),
{
    if s.len() == 0 {
        Seq::empty()
    } else {
        escaped(s.drop_last()) + escaped_char(s.last())
    }
}

pub fn escape_xml(s: &str) -> (r: String)
    ensures
        r@ == escaped(s@),
{
    let chars = chars_of(s);
    let mut out = String::new();
    let mut i: usize = 0;
    assert(out@ =~= escaped(s@.take(0)));
    while i < chars.len()
        invariant
            i <= chars@.len(),
            chars@ == s@,
            out@ == escaped(s@.take(i as int)),
        decreases chars@.len() - i,
    {
        assert(s@.take(i + 1).drop_last() =~= s@.take(i as int));
        assert(s@.take(i + 1).last() == s@[i as int]);
        let c: char = chars[i];
        let ghost before = out@;
        if c == '&' {
            out.append("&amp;");
        } else if c == '<' {
            out.append("&lt;");
        } else if c == '>' {
            out.append("&gt;");
        } else {
            out.push(c);
        }
        assert(out@ =~= before + escaped_char(c));
        i += 1;
    }
    assert(s@.take(i as int) =~= s@);
    out
}

/// A point of the picture, as text.
pub struct SvgPoint {
    pub x: String,
    pub y: String,
}

/// A polygon of the picture.
pub struct SvgPoly {
    pub points: Vec<SvgPoint>,
    /// Red, green and blue.
    pub rgb: [i32; 3],
    /// Pairs of points between which a feature edge is stroked.
    pub edges: Vec<(usize, usize)>,
}

/// How a picture is drawn, as text.
pub struct SvgStyle {
    /// Where the title stands.
    pub title_x: String,
    /// How opaque polygons are filled.
    pub fill: String,
    /// How opaque their outlines are.
    pub outline: String,
    /// How opaque feature edges are.
    pub feature: String,
}

/// Points as they stand in a polygon.
pub open spec fn points_text(points: Seq<SvgPoint>) -> Seq<char>
    decreases points.len(),
{
    if points.len() == 0 {
        Seq::empty()
    } else {
        let before = points_text(points.drop_last());
        let p = points.last();
        (if points.len() > 1 {
            before + " "@
        } else {
            before
        }) + p.x@ + ","@ + p.y@
    }
}

/// A colour.
pub open spec fn rgb_text(rgb: [i32; 3]) -> Seq<char> {
    "rgb("@ + crate::text::signed_decimal(rgb@[0] as int) + ","@ + crate::text::signed_decimal(
        rgb@[1] as int,
    ) + ","@ + crate::text::signed_decimal(rgb@[2] as int) + ")"@
}

/// A feature edge; one whose ends are not among the points is not drawn.
pub open spec fn line_text(poly: SvgPoly, style: SvgStyle, e: (usize, usize)) -> Seq<char> {
    if e.0 < poly.points@.len() && e.1 < poly.points@.len() {
        let a = poly.points@[e.0 as int];
        let b = poly.points@[e.1 as int];
        "\n<line x1=\""@ + a.x@ + "\" y1=\""@ + a.y@ + "\" x2=\""@ + b.x@ + "\" y2=\""@ + b.y@
            + "\" stroke=\"#e8ecff\" stroke-opacity=\""@ + style.feature@
            + "\" stroke-width=\"0.8\"/>"@
    } else {
        Seq::empty()
    }
}

/// Feature edges.
pub open spec fn lines_text(poly: SvgPoly, style: SvgStyle, edges: Seq<(usize, usize)>) -> Seq<char>
    decreases edges.len(),
{
    if edges.len() == 0 {
        Seq::empty()
    } else {
        lines_text(poly, style, edges.drop_last()) + line_text(poly, style, edges.last())
    }
}

/// A polygon, and over it its feature edges.
pub open spec fn poly_text(poly: SvgPoly, style: SvgStyle) -> Seq<char> {
    "\n<polygon points=\""@ + points_text(poly.points@) + "\" fill=\""@ + rgb_text(poly.rgb)
        + "\" fill-opacity=\""@ + style.fill@ + "\" stroke=\""@ + rgb_text(poly.rgb)
        + "\" stroke-opacity=\""@ + style.outline@ + "\" stroke-width=\"0.3\"/>"@ + lines_text(
        poly,
        style,
        poly.edges@,
    )
}

/// Polygons in the order in which they are painted.
pub open spec fn polys_text(polys: Seq<SvgPoly>, style: SvgStyle) -> Seq<char>
    decreases polys.len(),
{
    if polys.len() == 0 {
        Seq::empty()
    } else {
        polys_text(polys.drop_last(), style) + poly_text(polys.last(), style)
    }
}

/// The picture of a mesh. Without triangles it is a notice.
pub open spec fn mesh_text(
    title: Seq<char>,
    triangles: usize,
    polys: Seq<SvgPoly>,
    style: SvgStyle,
) -> Seq<char> {
    if triangles == 0 {
        "<g><text y=\"20\" fill=\"#f7768e\">empty mesh: "@ + escaped(title) + "</text></g>"@
    } else if polys.len() == 0 {
        "<g></g>"@
    } else {
        "<g>"@ + (if title.len() > 0 {
            "\n<text x=\""@ + style.title_x@
                + "\" y=\"16\" text-anchor=\"middle\" fill=\"#c0caf5\" font-size=\"13\" font-family=\"sans-serif\">"@
                + escaped(title) + "</text>"@
        } else {
            Seq::empty()
        }) + polys_text(polys, style) + "\n</g>"@
    }
}

/// Append a colour.
fn push_rgb(out: &mut String, rgb: [i32; 3])
    ensures
        final(out)@ == old(out)@ + rgb_text(rgb),
{
    let ghost before = out@;
    out.append("rgb(");
    push_signed(out, rgb[0] as i64);
    out.append(",");
    push_signed(out, rgb[1] as i64);
    out.append(",");
    push_signed(out, rgb[2] as i64);
    out.append(")");
    assert(out@ =~= before + rgb_text(rgb));
}

/// Append points.
fn push_points(out: &mut String, points: &Vec<SvgPoint>)
    ensures
        final(out)@ == old(out)@ + points_text(points@),
{
    let ghost before = out@;
    let mut i: usize = 0;
    assert(out@ =~= before + points_text(points@.take(0)));
    while i < points.len()
        invariant
            i <= points@.len(),
            out@ == before + points_text(points@.take(i as int)),
        decreases points@.len() - i,
    {
        assert(points@.take(i + 1).drop_last() =~= points@.take(i as int));
        if i > 0 {
            out.append(" ");
        }
        out.append(points[i].x.as_str());
        out.append(",");
        out.append(points[i].y.as_str());
        assert(out@ =~= before + points_text(points@.take(i + 1)));
        i += 1;
    }
    assert(points@.take(i as int) =~= points@);
}

/// Append a feature edge.
fn push_line(out: &mut String, poly: &SvgPoly, style: &SvgStyle, e: (usize, usize))
    ensures
        final(out)@ == old(out)@ + line_text(*poly, *style, e),
{
    let ghost before = out@;
    if e.0 < poly.points.len() && e.1 < poly.points.len() {
        out.append("\n<line x1=\"");
        out.append(poly.points[e.0].x.as_str());
        out.append("\" y1=\"");
        out.append(poly.points[e.0].y.as_str());
        out.append("\" x2=\"");
        out.append(poly.points[e.1].x.as_str());
        out.append("\" y2=\"");
        out.append(poly.points[e.1].y.as_str());
        out.append("\" stroke=\"#e8ecff\" stroke-opacity=\"");
        out.append(style.feature.as_str());
        out.append("\" stroke-width=\"0.8\"/>");
    }
    assert(out@ =~= before + line_text(*poly, *style, e));
}

/// Append a polygon and its feature edges.
fn push_poly(out: &mut String, poly: &SvgPoly, style: &SvgStyle)
    ensures
        final(out)@ == old(out)@ + poly_text(*poly, *style),
{
    let ghost before = out@;
    out.append("\n<polygon points=\"");
    push_points(out, &poly.points);
    out.append("\" fill=\"");
    push_rgb(out, poly.rgb);
    out.append("\" fill-opacity=\"");
    out.append(style.fill.as_str());
    out.append("\" stroke=\"");
    push_rgb(out, poly.rgb);
    out.append("\" stroke-opacity=\"");
    out.append(style.outline.as_str());
    out.append("\" stroke-width=\"0.3\"/>");
    let ghost head = out@;
    let mut i: usize = 0;
    assert(out@ =~= head + lines_text(*poly, *style, poly.edges@.take(0)));
    while i < poly.edges.len()
        invariant
            i <= poly.edges@.len(),
            out@ == head + lines_text(*poly, *style, poly.edges@.take(i as int)),
        decreases poly.edges@.len() - i,
    {
        assert(poly.edges@.take(i + 1).drop_last() =~= poly.edges@.take(i as int));
        assert(poly.edges@.take(i + 1).last() == poly.edges@[i as int]);
        push_line(out, poly, style, poly.edges[i]);
        assert(out@ =~= head + lines_text(*poly, *style, poly.edges@.take(i + 1)));
        i += 1;
    }
    assert(poly.edges@.take(i as int) =~= poly.edges@);
    assert(out@ =~= before + poly_text(*poly, *style));
}

/// Render one mesh to an SVG `<g>` fragment: `polys` are its polygons in the
/// order in which they are painted, `triangles` is how many triangles it has.
pub fn render_mesh_svg(
    title: Option<&str>,
    triangles: usize,
    polys: &[SvgPoly],
    style: &SvgStyle,
) -> (r: String)
    ensures
        r@ == mesh_text(
            match title {
                Some(t) => t@,
                None => Seq::empty(),
            },
            triangles,
            polys@,
            *style,
        ),
{
    let ghost words = match title {
        Some(t) => t@,
        None => Seq::empty(),
    };
    let name: String = match title {
        Some(t) => escape_xml(t),
        None => {
            let none = String::new();
            assert(none@ =~= escaped(Seq::empty()));
            none
        },
    };
    let titled: bool = match title {
        Some(t) => chars_of(t).len() > 0,
        None => false,
    };
    let mut out = String::new();
    if triangles == 0 {
        out.append("<g><text y=\"20\" fill=\"#f7768e\">empty mesh: ");
        out.append(name.as_str());
        out.append("</text></g>");
        assert(out@ =~= mesh_text(words, triangles, polys@, *style));
        return out;
    }
    if polys.len() == 0 {
        out.append("<g></g>");
        assert(out@ =~= "<g></g>"@);
        return out;
    }
    out.append("<g>");
    if titled {
        out.append("\n<text x=\"");
        out.append(style.title_x.as_str());
        out.append(
            "\" y=\"16\" text-anchor=\"middle\" fill=\"#c0caf5\" font-size=\"13\" font-family=\"sans-serif\">",
        );
        out.append(name.as_str());
        out.append("</text>");
    }
    let ghost head = out@;
    let mut i: usize = 0;
    assert(out@ =~= head + polys_text(polys@.take(0), *style));
    while i < polys.len()
        invariant
            i <= polys@.len(),
            out@ == head + polys_text(polys@.take(i as int), *style),
        decreases polys@.len() - i,
    {
        assert(polys@.take(i + 1).drop_last() =~= polys@.take(i as int));
        assert(polys@.take(i + 1).last() == polys@[i as int]);
        push_poly(&mut out, &polys[i], style);
        assert(out@ =~= head + polys_text(polys@.take(i + 1), *style));
        i += 1;
    }
    assert(polys@.take(i as int) =~= polys@);
    out.append("\n</g>");
    assert(out@ =~= mesh_text(words, triangles, polys@, *style));
    out
}

// ---- pages ----

/// How many columns a page has, one at least.
pub open spec fn page_columns(cols: usize) -> usize {
    if cols > 1 {
        cols
    } else {
        1
    }
}

/// Where a fragment stands: its column and its row.
pub fn cell_of(i: usize, cols: usize) -> (r: (usize, usize))
    ensures
        r == (i % page_columns(cols), i / page_columns(cols)),
{
    let n: usize = if cols > 1 {
        cols
    } else {
        1
    };
    (i % n, i / n)
}

/// How many columns and rows a page of fragments has.
pub fn page_size(fragments: usize, cols: usize) -> (r: (usize, usize))
    ensures
        r.0 == page_columns(cols),
        r.1 == (fragments + page_columns(cols) - 1) / page_columns(cols) as int,
{
    let n: usize = if cols > 1 {
        cols
    } else {
        1
    };
    let (full, left): (usize, usize) = (fragments / n, fragments % n);
    proof {
        let (f, m) = (fragments as int, n as int);
        let (q, rest) = (f / m, f % m);
        vstd::arithmetic::div_mod::lemma_fundamental_div_mod(f, m);
        // The last row is full, or there is one more.
        let more: int = if rest > 0 {
            1
        } else {
            0
        };
        let over = f + m - 1 - (q + more) * m;
        assert(f + m - 1 == (q + more) * m + over && 0 <= over < m) by (nonlinear_arith)
            requires
                f == m * q + rest,
                0 <= rest < m,
                more == (if rest > 0 {
                    1int
                } else {
                    0
                }),
                over == f + m - 1 - (q + more) * m,
        ;
        vstd::arithmetic::div_mod::lemma_fundamental_div_mod_converse(
            f + m - 1,
            m,
            q + more,
            over,
        );
        assert(rest > 0 ==> q < f) by (nonlinear_arith)
            requires
                f == m * q + rest,
                m >= 1,
                q >= 0,
        ;
    }
    (
        n,
        if left > 0 {
            full + 1
        } else {
            full
        },
    )
}

/// Fragments, each moved to its place.
pub open spec fn cells_text(fragments: Seq<String>, places: Seq<SvgPoint>) -> Seq<char>
    decreases fragments.len(),
{
    if fragments.len() == 0 {
        Seq::empty()
    } else {
        let p = places[fragments.len() - 1];
        cells_text(fragments.drop_last(), places) + "\n<g transform=\"translate("@ + p.x@ + ","@
            + p.y@ + ")\">"@ + fragments.last()@ + "</g>"@
    }
}

/// An SVG document.
pub open spec fn document_text(
    fragments: Seq<String>,
    places: Seq<SvgPoint>,
    width: Seq<char>,
    height: Seq<char>,
) -> Seq<char> {
    "<svg xmlns=\"http://www.w3.org/2000/svg\" width=\""@ + width + "\" height=\""@ + height
        + "\" viewBox=\"0 0 "@ + width + " "@ + height + "\">"@ + cells_text(fragments, places)
        + "\n</svg>"@
}

/// Wrap fragments in an `<svg>` document, each at its place. No background
/// rect: these render on a dark page.
pub fn svg_document(
    fragments: &[String],
    places: &[SvgPoint],
    width: &str,
    height: &str,
) -> (r: String)
    requires
        places@.len() == fragments@.len(),
    ensures
        r@ == document_text(fragments@, places@, width@, height@),
{
    let mut out = String::new();
    out.append("<svg xmlns=\"http://www.w3.org/2000/svg\" width=\"");
    out.append(width);
    out.append("\" height=\"");
    out.append(height);
    out.append("\" viewBox=\"0 0 ");
    out.append(width);
    out.append(" ");
    out.append(height);
    out.append("\">");
    let ghost head = out@;
    let mut i: usize = 0;
    assert(out@ =~= head + cells_text(fragments@.take(0), places@));
    while i < fragments.len()
        invariant
            i <= fragments@.len(),
            places@.len() == fragments@.len(),
            out@ == head + cells_text(fragments@.take(i as int), places@),
        decreases fragments@.len() - i,
    {
        assert(fragments@.take(i + 1).drop_last() =~= fragments@.take(i as int));
        assert(fragments@.take(i + 1).last() == fragments@[i as int]);
        out.append("\n<g transform=\"translate(");
        out.append(places[i].x.as_str());
        out.append(",");
        out.append(places[i].y.as_str());
        out.append(")\">");
        out.append(fragments[i].as_str());
        out.append("</g>");
        assert(out@ =~= head + cells_text(fragments@.take(i + 1), places@));
        i += 1;
    }
    assert(fragments@.take(i as int) =~= fragments@);
    out.append("\n</svg>");
    assert(out@ =~= document_text(fragments@, places@, width@, height@));
    out
}

/// The width of a sheet that nobody gave one for: the least that makes it no
/// taller than wide.
pub fn default_cols(n: usize) -> (r: usize)
    ensures
        r >= 1,
        r as nat * r as nat >= n,
        forall|c: nat| #![trigger c * c] 1 <= c < r ==> c * c < n,
{
    let mut c: usize = 1;
    while c < n && (c as u128) * (c as u128) < n as u128
        invariant
            1 <= c,
            c <= n || c == 1,
            n <= u64::MAX,
            c as int * c as int <= u128::MAX,
            forall|k: nat| #![trigger k * k] 1 <= k < c ==> k * k < n,
        decreases n - c,
    {
        assert((c + 1) * (c + 1) <= u128::MAX) by (nonlinear_arith)
            requires
                c < u64::MAX,
        ;
        c += 1;
    }
    assert(c as nat * c as nat >= n) by (nonlinear_arith)
        requires
            c >= n || c as nat * c as nat >= n,
            c >= 1,
    ;
    c
}

/// The fragment that stands for a part that could not be meshed; `mid` is the
/// middle of the page.
pub open spec fn failed_text(mid: Seq<char>, title: Seq<char>) -> Seq<char> {
    "<g><text x=\""@ + mid + "\" y=\""@ + mid
        + "\" text-anchor=\"middle\" fill=\"#f7768e\" font-size=\"12\" font-family=\"sans-serif\">"@
        + title + ": failed</text></g>"@
}

/// The fragment that stands for a part that could not be meshed.
pub fn failed_fragment(mid: &str, title: &str) -> (r: String)
    ensures
        r@ == failed_text(mid@, title@),
{
    let mut s = "<g><text x=\"".to_owned();
    s.append(mid);
    s.append("\" y=\"");
    s.append(mid);
    s.append(
        "\" text-anchor=\"middle\" fill=\"#f7768e\" font-size=\"12\" font-family=\"sans-serif\">",
    );
    s.append(title);
    s.append(": failed</text></g>");
    s
}

} // verus!
