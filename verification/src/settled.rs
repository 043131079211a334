//! A mesh that has been oriented once is settled: doing it again changes
//! nothing.

use vstd::prelude::*;

use crate::edges::{edge, edges_of, lemma_users_among, upward, users, EdgeClass, Tri};
use crate::mesh::{
    degenerate, inside_out, open_edges_in, pieces_of, proper, turned, turned_by, Enclosure, Pieces,
};
use crate::orient::{
    agree, chained, corner, first_of_piece, flooded, follows, lemma_agreeing_pieces_are_left_alone,
    lemma_mate, lemma_pieces_that_can_agree_do, mate, rooted, seen_before, step, wound,
};
use crate::winding::{
    all_agree, lemma_moved_corner, lemma_orientation, lemma_turn_back, lemma_turning_keeps_edges,
    moved_corner,
};

verus! {

/// What a piece encloses once it was turned over, or not. Turning changes the
/// sign of the volume and nothing else.
pub open spec fn claim_after(claim: Enclosure, turned: bool) -> Enclosure {
    match claim {
        Enclosure::Flat => Enclosure::Flat,
        Enclosure::Solid { positive, nested } => Enclosure::Solid {
            positive: positive != turned,
            nested,
        },
    }
}

/// Piece `k` is pointed the other way.
pub open spec fn points_inwards(p: Pieces, claims: Seq<Enclosure>, k: int) -> bool {
    inside_out(p.size@[k] as nat, p.open@[k] as nat, claims[k])
}

/// What the pieces enclose once those that have their inside out were turned
/// over.
pub open spec fn settled_claims(p: Pieces, claims: Seq<Enclosure>) -> Seq<Enclosure> {
    Seq::new(claims.len(), |k: int| claim_after(claims[k], points_inwards(p, claims, k)))
}

/// A mesh is oriented: neighbours are made to agree, which gives `middle`, and
/// pieces are pointed outwards as `claims` say, which gives `after`.
pub open spec fn oriented(
    before: Seq<Tri>,
    p: Pieces,
    middle: Seq<Tri>,
    claims: Seq<Enclosure>,
    after: Seq<Tri>,
) -> bool {
    &&& pieces_of(before, p)
    &&& turned_by(before, middle, |i: int| p.flipped@[i])
    &&& claims.len() == p.size@.len()
    &&& turned_by(middle, after, |i: int| points_inwards(p, claims, p.piece@[i] as int))
}

/// Which triangles an orientation turns over, all in all.
spec fn all_in_all(p: Pieces, claims: Seq<Enclosure>) -> spec_fn(int) -> bool {
    |i: int| p.flipped@[i] != points_inwards(p, claims, p.piece@[i] as int)
}

/// Turning over and turning over again is turning over once, or not.
proof fn lemma_turned_twice(
    before: Seq<Tri>,
    middle: Seq<Tri>,
    after: Seq<Tri>,
    f: spec_fn(int) -> bool,
    g: spec_fn(int) -> bool,
)
    requires
        turned_by(before, middle, f),
        turned_by(middle, after, g),
    ensures
        turned_by(before, after, |i: int| f(i) != g(i)),
{
    assert forall|i: int| 0 <= i < before.len() implies (#[trigger] after[i])@ == if f(i) != g(i) {
        turned(before[i])
    } else {
        before[i]@
    } by {
        assert(middle[i]@ == if f(i) {
            turned(before[i])
        } else {
            before[i]@
        });
        assert(after[i]@ == if g(i) {
            turned(middle[i])
        } else {
            middle[i]@
        });
        assert(turned(middle[i]) =~= if f(i) {
            before[i]@
        } else {
            turned(before[i])
        });
    }
}

proof fn lemma_oriented(
    before: Seq<Tri>,
    p: Pieces,
    middle: Seq<Tri>,
    claims: Seq<Enclosure>,
    after: Seq<Tri>,
)
    requires
        oriented(before, p, middle, claims, after),
    ensures
        turned_by(before, after, all_in_all(p, claims)),
{
    let f = |i: int| p.flipped@[i];
    let g = |i: int| points_inwards(p, claims, p.piece@[i] as int);
    lemma_turned_twice(before, middle, after, f, g);
    let h = all_in_all(p, claims);
    let t = |i: int| f(i) != g(i);
    assert forall|i: int| 0 <= i < before.len() implies (#[trigger] after[i])@ == if h(i) {
        turned(before[i])
    } else {
        before[i]@
    } by {
        assert(h(i) == t(i));
    }
}

/// Corners that were mates are mates after turning.
proof fn lemma_mates_stay(
    before: Seq<Tri>,
    after: Seq<Tri>,
    flip: spec_fn(int) -> bool,
    c: int,
)
    requires
        turned_by(before, after, flip),
        corner(before, c),
        mate(before, c) is Some,
    ensures
        corner(after, moved_corner(flip, c)),
        moved_corner(flip, c) / 3 == c / 3,
        mate(after, moved_corner(flip, c)) == Some(moved_corner(flip, mate(before, c)->0)),
        moved_corner(flip, mate(before, c)->0) / 3 == mate(before, c)->0 / 3,
{
    lemma_mate(before, c);
    let d = mate(before, c)->0;
    let e = edge(before, c);
    lemma_moved_corner(before, after, flip, c);
    lemma_moved_corner(before, after, flip, d);
    lemma_turning_keeps_edges(before, after, flip);
    let (mc, md) = (moved_corner(flip, c), moved_corner(flip, d));
    reveal(mate);
    assert(users(before, e).len() == 2);
    assert(users(after, e).len() == 2);
    lemma_users_among(after, (3 * after.len()) as nat, e);
    assert(edge(after, mc) == e && edge(after, md) == e);
    assert(users(after, e).contains(mc) && users(after, e).contains(md));
    assert(mc != md);
}

/// A chain of neighbours leads through one piece of either mesh.
proof fn lemma_chain_stays(
    before: Seq<Tri>,
    after: Seq<Tri>,
    flip: spec_fn(int) -> bool,
    piece: Seq<usize>,
    i: int,
    j: int,
    f: bool,
    steps: nat,
)
    requires
        turned_by(before, after, flip),
        chained(before, i, j, f, steps),
        0 <= i < before.len(),
        piece.len() == after.len(),
        forall|c: int|
            corner(after, c) && (#[trigger] mate(after, c)) is Some ==> piece[mate(after, c)->0 / 3]
                == piece[c / 3],
    ensures
        piece[j] == piece[i],
    decreases steps,
{
    if steps > 0 {
        let (c, g) = choose|c: int, g: bool| #[trigger]
            step(before, i, j, f, c, g) && chained(before, i, c / 3, g, (steps - 1) as nat);
        lemma_chain_stays(before, after, flip, piece, i, c / 3, g, (steps - 1) as nat);
        lemma_mates_stay(before, after, flip, c);
        assert(mate(after, moved_corner(flip, c)) is Some);
    }
}

/// Triangles in one piece before turning are in one piece after it.
proof fn lemma_together(
    before: Seq<Tri>,
    after: Seq<Tri>,
    flip: spec_fn(int) -> bool,
    p: Seq<usize>,
    f: Seq<bool>,
    n: nat,
    q: Seq<usize>,
    g: Seq<bool>,
    m: nat,
    i: int,
    j: int,
)
    requires
        turned_by(before, after, flip),
        flooded(before, p, f, n),
        flooded(after, q, g, m),
        0 <= i < before.len(),
        0 <= j < before.len(),
        p[i] == p[j],
    ensures
        q[i] == q[j],
{
    reveal(rooted);
    assert(follows(before, p, f, i));
    assert(follows(before, p, f, j));
    let s = choose|s: int| #[trigger]
        first_of_piece(p, s) && p[s] == p[i] && rooted(before, s, i, f[i]);
    let u = choose|u: int| #[trigger]
        first_of_piece(p, u) && p[u] == p[j] && rooted(before, u, j, f[j]);
    if s < u {
        assert(p[s] != p[u]);
    } else if u < s {
        assert(p[u] != p[s]);
    }
    let a = choose|a: nat| chained(before, s, i, f[i], a);
    let b = choose|b: nat| chained(before, s, j, f[j], b);
    lemma_chain_stays(before, after, flip, q, s, i, f[i], a);
    lemma_chain_stays(before, after, flip, q, s, j, f[j], b);
}

/// The pieces up to a triangle have the same numbers before turning and after
/// it.
proof fn lemma_numbers_stay(
    before: Seq<Tri>,
    after: Seq<Tri>,
    flip: spec_fn(int) -> bool,
    p: Seq<usize>,
    f: Seq<bool>,
    n: nat,
    q: Seq<usize>,
    g: Seq<bool>,
    m: nat,
    i: int,
)
    requires
        turned_by(before, after, flip),
        flooded(before, p, f, n),
        flooded(after, q, g, m),
        0 <= i <= before.len(),
    ensures
        forall|j: int| 0 <= j < i ==> p[j] == q[j],
    decreases i,
{
    if i > 0 {
        let l = i - 1;
        lemma_numbers_stay(before, after, flip, p, f, n, q, g, m, l);
        lemma_turn_back(before, after, flip);
        if p[l] < q[l] {
            assert(seen_before(q, l, p[l] as int));
            let j = choose|j: int| 0 <= j < l && #[trigger] q[j] == p[l];
            assert(p[j] == q[j]);
            lemma_together(before, after, flip, p, f, n, q, g, m, j, l);
        } else if q[l] < p[l] {
            assert(seen_before(p, l, q[l] as int));
            let j = choose|j: int| 0 <= j < l && #[trigger] p[j] == q[l];
            assert(p[j] == q[j]);
            lemma_together(after, before, flip, q, g, m, p, f, n, j, l);
        }
    }
}

/// Turning triangles over leaves the pieces as they are.
proof fn lemma_pieces_stay(
    before: Seq<Tri>,
    after: Seq<Tri>,
    flip: spec_fn(int) -> bool,
    p: Pieces,
    q: Pieces,
)
    requires
        turned_by(before, after, flip),
        pieces_of(before, p),
        pieces_of(after, q),
    ensures
        q.piece@ == p.piece@,
        q.size@ == p.size@,
        q.open@ == p.open@,
{
    let (n, m) = (p.size@.len(), q.size@.len());
    let len = before.len() as int;
    lemma_numbers_stay(
        before,
        after,
        flip,
        p.piece@,
        p.flipped@,
        n,
        q.piece@,
        q.flipped@,
        m,
        len,
    );
    assert(q.piece@ =~= p.piece@);
    if n < m {
        assert(seen_before(q.piece@, len, n as int));
        let j = choose|j: int| 0 <= j < len && #[trigger] q.piece@[j] == n;
        assert(p.piece@[j] < n);
    } else if m < n {
        assert(seen_before(p.piece@, len, m as int));
        let j = choose|j: int| 0 <= j < len && #[trigger] p.piece@[j] == m;
        assert(q.piece@[j] < m);
    }
    assert(q.size@ =~= p.size@);
    assert forall|k: int| 0 <= k < n implies q.open@[k] == p.open@[k] by {
        lemma_open_edges_stay(before, after, flip, p.piece@, k);
    }
    assert(q.open@ =~= p.open@);
}

/// Turning triangles over leaves the open edges of each piece as they are.
proof fn lemma_open_edges_stay(
    before: Seq<Tri>,
    after: Seq<Tri>,
    flip: spec_fn(int) -> bool,
    piece: Seq<usize>,
    k: int,
)
    requires
        turned_by(before, after, flip),
    ensures
        open_edges_in(after, piece, k) == open_edges_in(before, piece, k),
{
    lemma_turning_keeps_edges(before, after, flip);
    assert forall|e: (u32, u32)| open_edges_in(after, piece, k).contains(e) <==> open_edges_in(
        before,
        piece,
        k,
    ).contains(e) by {
        assert(users(after, e).len() == users(before, e).len());
        if users(before, e).len() == 1 {
            lemma_users_among(before, (3 * before.len()) as nat, e);
            lemma_users_among(after, (3 * after.len()) as nat, e);
            let c = users(before, e)[0];
            lemma_moved_corner(before, after, flip, c);
            assert(edge(after, moved_corner(flip, c)) == e);
            assert(users(after, e).contains(moved_corner(flip, c)));
            assert(users(after, e)[0] == moved_corner(flip, c));
        }
    }
    assert(open_edges_in(after, piece, k) =~= open_edges_in(before, piece, k));
}

/// Neighbours that agree under a turning agree as they are once turned.
proof fn lemma_agree_as_they_are(
    before: Seq<Tri>,
    after: Seq<Tri>,
    flip: spec_fn(int) -> bool,
    piece: Seq<usize>,
    k: usize,
)
    requires
        turned_by(before, after, flip),
        wound(before, piece, k, flip),
        forall|c: int|
            corner(before, c) && (#[trigger] mate(before, c)) is Some ==> piece[mate(
                before,
                c,
            )->0 / 3] == piece[c / 3],
        forall|i: int|
            0 <= i < before.len() && piece[i] == k ==> !degenerate(#[trigger] before[i]),
    ensures
        wound(after, piece, k, |i: int| false),
{
    let none = |i: int| false;
    lemma_turn_back(before, after, flip);
    assert forall|x: int|
        corner(after, x) && piece[x / 3] == k && (#[trigger] mate(after, x)) is Some implies agree(
        after,
        none,
        x,
        mate(after, x)->0,
    ) by {
        let y = mate(after, x)->0;
        lemma_mate(after, x);
        lemma_mates_stay(after, before, flip, x);
        lemma_moved_corner(after, before, flip, x);
        lemma_moved_corner(after, before, flip, y);
        let (c, d) = (moved_corner(flip, x), moved_corner(flip, y));
        assert(mate(before, c) == Some(d));
        assert(agree(before, flip, c, d));
        assert(piece[d / 3] == k);
        assert(!degenerate(before[c / 3]));
        assert(!degenerate(before[d / 3]));
        lemma_moved_corner(before, after, flip, c);
        lemma_moved_corner(before, after, flip, d);
        assert(upward(after, x) != upward(after, y));
    }
}

/// A piece that was pointed as it should be is not pointed the other way again.
proof fn lemma_claims_are_met(p: Pieces, q: Pieces, claims: Seq<Enclosure>, k: int)
    requires
        claims.len() == p.size@.len(),
        q.size@ == p.size@,
        q.open@ == p.open@,
        0 <= k < claims.len(),
    ensures
        !points_inwards(q, settled_claims(p, claims), k),
{
}

/// Orientation is settled after one pass. Let a mesh be oriented, and what came
/// of it be oriented again, by claims that differ only in the sign of the volume
/// of the pieces that were turned over. It falls into the same pieces, and the
/// triangles of a piece stay as they are, where the neighbours in the piece could
/// be made to agree and no triangle of it has a repeated vertex.
pub proof fn lemma_orientation_is_settled(
    before: Seq<Tri>,
    p: Pieces,
    middle: Seq<Tri>,
    claims: Seq<Enclosure>,
    after: Seq<Tri>,
    q: Pieces,
    between: Seq<Tri>,
    last: Seq<Tri>,
    k: usize,
    w: spec_fn(int) -> bool,
)
    requires
        oriented(before, p, middle, claims, after),
        oriented(after, q, between, settled_claims(p, claims), last),
        wound(before, p.piece@, k, w),
        forall|i: int|
            0 <= i < before.len() && p.piece@[i] == k ==> !degenerate(#[trigger] before[i]),
    ensures
        q.piece@ == p.piece@,
        q.size@ == p.size@,
        q.open@ == p.open@,
        last.len() == after.len(),
        forall|i: int| 0 <= i < after.len() && p.piece@[i] == k ==> !(#[trigger] q.flipped@[i]),
        forall|i: int|
            0 <= i < after.len() && p.piece@[i] == k ==> (#[trigger] last[i])@ == after[i]@,
{
    let flip = all_in_all(p, claims);
    let n = p.size@.len();
    lemma_oriented(before, p, middle, claims, after);
    lemma_pieces_stay(before, after, flip, p, q);
    lemma_pieces_that_can_agree_do(before, p.piece@, p.flipped@, n, k, w);
    assert(wound(before, p.piece@, k, flip)) by {
        let f = |i: int| p.flipped@[i];
        assert forall|c: int|
            corner(before, c) && p.piece@[c / 3] == k && (#[trigger] mate(
                before,
                c,
            )) is Some implies agree(before, flip, c, mate(before, c)->0) by {
            lemma_mate(before, c);
            assert(agree(before, f, c, mate(before, c)->0));
            assert(p.piece@[mate(before, c)->0 / 3] == p.piece@[c / 3]);
        }
    }
    lemma_agree_as_they_are(before, after, flip, p.piece@, k);
    assert forall|i: int| 0 <= i < after.len() && p.piece@[i] == k implies !(
    #[trigger] q.flipped@[i]) by {
        lemma_agreeing_pieces_are_left_alone(after, q.piece@, q.flipped@, q.size@.len(), i);
    }
    assert forall|i: int| 0 <= i < after.len() && p.piece@[i] == k implies (#[trigger] last[i])@
        == after[i]@ by {
        assert(!q.flipped@[i]);
        lemma_claims_are_met(p, q, claims, k as int);
        assert(between[i]@ == after[i]@);
        assert(last[i]@ == between[i]@);
    }
}

/// Turning over leaves no triangle with a repeated vertex that had none.
proof fn lemma_upright_stays(before: Seq<Tri>, after: Seq<Tri>, flip: spec_fn(int) -> bool)
    requires
        turned_by(before, after, flip),
        forall|i: int| 0 <= i < before.len() ==> !degenerate(#[trigger] before[i]),
    ensures
        forall|i: int| 0 <= i < after.len() ==> !degenerate(#[trigger] after[i]),
{
    assert forall|i: int| 0 <= i < after.len() implies !degenerate(#[trigger] after[i]) by {
        assert(!degenerate(before[i]));
    }
}

/// Where no triangle has a repeated vertex, none is left out.
proof fn lemma_all_are_proper(tris: Seq<Tri>)
    requires
        forall|i: int| 0 <= i < tris.len() ==> !degenerate(#[trigger] tris[i]),
    ensures
        proper(tris) == tris,
    decreases tris.len(),
{
    if tris.len() > 0 {
        assert forall|i: int| 0 <= i < tris.drop_last().len() implies !degenerate(
            #[trigger] tris.drop_last()[i],
        ) by {
            assert(!degenerate(tris[i]));
        }
        lemma_all_are_proper(tris.drop_last());
        assert(!degenerate(tris[tris.len() - 1]));
        assert(tris.drop_last().push(tris.last()) =~= tris);
    }
}

/// A closed shell whose neighbours can be made to agree ends without a defect,
/// however its triangles were wound: no edge of it is open, reversed or used too
/// often, no triangle is degenerate, and every piece that encloses a volume
/// encloses a positive one, or a negative one where it is the wall of a cavity.
pub proof fn lemma_closed_shells_end_sound(
    before: Seq<Tri>,
    p: Pieces,
    middle: Seq<Tri>,
    claims: Seq<Enclosure>,
    after: Seq<Tri>,
    w: spec_fn(int) -> bool,
)
    requires
        oriented(before, p, middle, claims, after),
        forall|e: (u32, u32)|
            (#[trigger] users(before, e)).len() == 0 || users(before, e).len() == 2,
        forall|i: int| 0 <= i < before.len() ==> !degenerate(#[trigger] before[i]),
        all_agree(before, w),
    ensures
        proper(after) == after,
        edges_of(proper(after), EdgeClass::Open) == Set::<(u32, u32)>::empty(),
        edges_of(proper(after), EdgeClass::Reversed) == Set::<(u32, u32)>::empty(),
        edges_of(proper(after), EdgeClass::Overshared) == Set::<(u32, u32)>::empty(),
        forall|k: int|
            0 <= k < claims.len() ==> match #[trigger] settled_claims(p, claims)[k] {
                Enclosure::Flat => claims[k] is Flat,
                Enclosure::Solid { positive, nested } => positive == !nested,
            },
{
    let whole = |k: usize| points_inwards(p, claims, k as int);
    assert(turned_by(middle, after, |i: int| whole(p.piece@[i]))) by {
        let g = |i: int| points_inwards(p, claims, p.piece@[i] as int);
        assert forall|i: int| 0 <= i < middle.len() implies (#[trigger] after[i])@ == if whole(
            p.piece@[i],
        ) {
            turned(middle[i])
        } else {
            middle[i]@
        } by {
            assert(g(i) == whole(p.piece@[i]));
        }
    }
    lemma_orientation(before, middle, after, p, whole, w);
    lemma_oriented(before, p, middle, claims, after);
    lemma_upright_stays(before, after, all_in_all(p, claims));
    lemma_all_are_proper(after);
    assert(edges_of(before, EdgeClass::Open) =~= Set::<(u32, u32)>::empty());
    assert(edges_of(before, EdgeClass::Overshared) =~= Set::<(u32, u32)>::empty());
    assert forall|k: int| 0 <= k < claims.len() implies match #[trigger] settled_claims(
        p,
        claims,
    )[k] {
        Enclosure::Flat => claims[k] is Flat,
        Enclosure::Solid { positive, nested } => positive == !nested,
    } by {
        assert(open_edges_in(before, p.piece@, k) =~= Set::<(u32, u32)>::empty());
        assert(p.open@[k] == 0);
    }
}

/// A mesh that was oriented once is left alone the next time, where all its
/// neighbours could be made to agree and no triangle has a repeated vertex.
pub proof fn lemma_oriented_meshes_are_left_alone(
    before: Seq<Tri>,
    p: Pieces,
    middle: Seq<Tri>,
    claims: Seq<Enclosure>,
    after: Seq<Tri>,
    q: Pieces,
    between: Seq<Tri>,
    last: Seq<Tri>,
    w: spec_fn(int) -> bool,
)
    requires
        oriented(before, p, middle, claims, after),
        oriented(after, q, between, settled_claims(p, claims), last),
        forall|i: int| 0 <= i < before.len() ==> !degenerate(#[trigger] before[i]),
        all_agree(before, w),
    ensures
        last == after,
{
    assert forall|i: int| 0 <= i < after.len() implies last[i] == after[i] by {
        let k = p.piece@[i];
        lemma_orientation_is_settled(before, p, middle, claims, after, q, between, last, k, w);
        assert(last[i]@ == after[i]@);
        assert(last[i] =~= after[i]);
    }
    assert(last =~= after);
}

} // verus!
