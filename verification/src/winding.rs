//! What turning triangles over does to the edges of a mesh.

use vstd::prelude::*;

use crate::edges::{
    edge, edges_of, from_vertex, lemma_users_among, to_vertex, upward, users, EdgeClass, Tri,
};
use crate::mesh::{degenerate, pieces_of, turned, turned_by, Pieces};
use crate::orient::{
    agree, corner, flooded, lemma_mate, lemma_pieces_that_can_agree_do, mate, wound,
};

verus! {

/// The corner of a triangle that uses the same edge once the triangle is
/// turned over, where it is.
pub open spec fn moved_corner(flip: spec_fn(int) -> bool, c: int) -> int {
    if flip(c / 3) {
        3 * (c / 3) + (2 - c % 3)
    } else {
        c
    }
}

/// A corner uses the same edge after turning, in the other direction if its
/// triangle was turned over and has no repeated vertex.
pub(crate) proof fn lemma_moved_corner(
    before: Seq<Tri>,
    after: Seq<Tri>,
    flip: spec_fn(int) -> bool,
    c: int,
)
    requires
        turned_by(before, after, flip),
        corner(before, c),
    ensures
        corner(after, moved_corner(flip, c)),
        moved_corner(flip, c) / 3 == c / 3,
        moved_corner(flip, moved_corner(flip, c)) == c,
        edge(after, moved_corner(flip, c)) == edge(before, c),
        !degenerate(before[c / 3]) ==> upward(after, moved_corner(flip, c)) == (upward(before, c)
            != flip(c / 3)),
{
    let t = c / 3;
    let k = c % 3;
    assert(0 <= k < 3 && c == 3 * t + k);
    let d = moved_corner(flip, c);
    let old_t = before[t];
    let new_t = after[t];
    if flip(t) {
        assert(d == 3 * t + (2 - k));
        assert(d / 3 == t && d % 3 == 2 - k);
        assert(new_t@ == turned(old_t));
        if k == 0 {
            assert(from_vertex(after, d) == old_t@[1] && to_vertex(after, d) == old_t@[0]);
        } else if k == 1 {
            assert(from_vertex(after, d) == old_t@[2] && to_vertex(after, d) == old_t@[1]);
        } else {
            assert(from_vertex(after, d) == old_t@[0] && to_vertex(after, d) == old_t@[2]);
        }
    } else {
        assert(new_t@ == old_t@);
    }
}

/// Turning triangles over can be undone by turning the same ones again.
pub(crate) proof fn lemma_turn_back(before: Seq<Tri>, after: Seq<Tri>, flip: spec_fn(int) -> bool)
    requires
        turned_by(before, after, flip),
    ensures
        turned_by(after, before, flip),
{
    assert forall|i: int| 0 <= i < after.len() implies (#[trigger] before[i])@ == if flip(i) {
        turned(after[i])
    } else {
        after[i]@
    } by {
        assert(after[i]@ == if flip(i) {
            turned(before[i])
        } else {
            before[i]@
        });
        if flip(i) {
            assert(before[i]@ =~= turned(after[i]));
        }
    }
}

/// No edge has more users before turning than after.
proof fn lemma_no_more_users(
    before: Seq<Tri>,
    after: Seq<Tri>,
    flip: spec_fn(int) -> bool,
    e: (u32, u32),
)
    requires
        turned_by(before, after, flip),
    ensures
        users(before, e).len() <= users(after, e).len(),
{
    let a = users(before, e);
    let b = users(after, e);
    lemma_users_among(before, (3 * before.len()) as nat, e);
    lemma_users_among(after, (3 * after.len()) as nat, e);
    let m = a.map_values(|c: int| moved_corner(flip, c));
    assert forall|i: int| 0 <= i < a.len() implies b.contains(#[trigger] m[i]) by {
        assert(0 <= a[i] < 3 * before.len());
        lemma_moved_corner(before, after, flip, a[i]);
        assert(edge(after, m[i]) == e);
    }
    assert(m.no_duplicates()) by {
        assert forall|i: int, j: int| 0 <= i < m.len() && 0 <= j < m.len() && i != j implies m[i]
            != m[j] by {
            assert(0 <= a[i] < 3 * before.len());
            assert(0 <= a[j] < 3 * before.len());
            lemma_moved_corner(before, after, flip, a[i]);
            lemma_moved_corner(before, after, flip, a[j]);
            if i < j {
                assert(a[i] < a[j]);
            } else {
                assert(a[j] < a[i]);
            }
        }
    }
    assert(b.no_duplicates()) by {
        assert forall|i: int, j: int| 0 <= i < b.len() && 0 <= j < b.len() && i != j implies b[i]
            != b[j] by {
            if i < j {
                assert(b[i] < b[j]);
            } else {
                assert(b[j] < b[i]);
            }
        }
    }
    m.unique_seq_to_set();
    b.unique_seq_to_set();
    assert(m.to_set().subset_of(b.to_set())) by {
        assert forall|x: int| m.to_set().contains(x) implies b.to_set().contains(x) by {
            let i = choose|i: int| 0 <= i < m.len() && m[i] == x;
            assert(b.contains(m[i]));
        }
    }
    vstd::set_lib::lemma_len_subset(m.to_set(), b.to_set());
}

/// Turning triangles over leaves the number of users of each edge as it is: no
/// gap opens or closes.
pub proof fn lemma_turning_keeps_edges(
    before: Seq<Tri>,
    after: Seq<Tri>,
    flip: spec_fn(int) -> bool,
)
    requires
        turned_by(before, after, flip),
    ensures
        forall|e: (u32, u32)| (#[trigger] users(after, e)).len() == users(before, e).len(),
        edges_of(after, EdgeClass::Open) == edges_of(before, EdgeClass::Open),
        edges_of(after, EdgeClass::Overshared) == edges_of(before, EdgeClass::Overshared),
{
    assert forall|e: (u32, u32)| (#[trigger] users(after, e)).len() == users(
        before,
        e,
    ).len() by {
        lemma_no_more_users(before, after, flip, e);
        lemma_turn_back(before, after, flip);
        lemma_no_more_users(after, before, flip, e);
    }
    assert forall|e: (u32, u32)|
        edges_of(after, EdgeClass::Open).contains(e) <==> edges_of(
            before,
            EdgeClass::Open,
        ).contains(e) by {
        assert(users(after, e).len() == users(before, e).len());
    }
    assert forall|e: (u32, u32)|
        edges_of(after, EdgeClass::Overshared).contains(e) <==> edges_of(
            before,
            EdgeClass::Overshared,
        ).contains(e) by {
        assert(users(after, e).len() == users(before, e).len());
    }
    assert(edges_of(after, EdgeClass::Open) =~= edges_of(before, EdgeClass::Open));
    assert(edges_of(after, EdgeClass::Overshared) =~= edges_of(before, EdgeClass::Overshared));
}

/// All neighbours agree under `flip`.
pub open spec fn all_agree(tris: Seq<Tri>, flip: spec_fn(int) -> bool) -> bool {
    forall|c: int|
        corner(tris, c) && (#[trigger] mate(tris, c)) is Some ==> agree(
            tris,
            flip,
            c,
            mate(tris, c)->0,
        )
}

/// Where turning makes all neighbours agree, no edge is left that two
/// triangles run along in the same direction.
pub proof fn lemma_agreement_leaves_no_reversed_edge(
    before: Seq<Tri>,
    after: Seq<Tri>,
    flip: spec_fn(int) -> bool,
)
    requires
        turned_by(before, after, flip),
        forall|i: int| 0 <= i < before.len() ==> !degenerate(#[trigger] before[i]),
        all_agree(before, flip),
    ensures
        edges_of(after, EdgeClass::Reversed) == Set::<(u32, u32)>::empty(),
{
    assert forall|e: (u32, u32)| !edges_of(after, EdgeClass::Reversed).contains(e) by {
        if edges_of(after, EdgeClass::Reversed).contains(e) {
            lemma_turning_keeps_edges(before, after, flip);
            lemma_users_among(before, (3 * before.len()) as nat, e);
            lemma_users_among(after, (3 * after.len()) as nat, e);
            let list = users(after, e);
            assert(list.len() == 2);
            assert(users(before, e).len() == 2);
            let (p, q) = (list[0], list[1]);
            assert(p < q);
            assert(0 <= p < 3 * after.len() && 0 <= q < 3 * after.len());
            assert(edge(after, p) == e && edge(after, q) == e);
            lemma_turn_back(before, after, flip);
            lemma_moved_corner(after, before, flip, p);
            lemma_moved_corner(after, before, flip, q);
            let c = moved_corner(flip, p);
            let d = moved_corner(flip, q);
            lemma_moved_corner(before, after, flip, c);
            lemma_moved_corner(before, after, flip, d);
            assert(edge(before, c) == e && edge(before, d) == e);
            let old_list = users(before, e);
            assert(old_list.contains(c) && old_list.contains(d));
            assert(c != d);
            assert(!degenerate(before[c / 3]));
            assert(!degenerate(before[d / 3]));
            if c / 3 == d / 3 {
                let t = before[c / 3];
                assert(c % 3 != d % 3);
                assert(false);
            } else {
                reveal(mate);
                assert(mate(before, c) == Some(d));
                assert(agree(before, flip, c, d));
                assert(upward(after, p) != upward(after, q));
            }
        }
    }
    assert(edges_of(after, EdgeClass::Reversed) =~= Set::<(u32, u32)>::empty());
}

/// The flips of a flood make all neighbours agree, if anything can.
pub proof fn lemma_flood_agrees(
    tris: Seq<Tri>,
    piece: Seq<usize>,
    flip: Seq<bool>,
    count: nat,
    w: spec_fn(int) -> bool,
)
    requires
        flooded(tris, piece, flip, count),
        all_agree(tris, w),
    ensures
        all_agree(tris, |i: int| flip[i]),
{
    let f = |i: int| flip[i];
    assert forall|c: int| corner(tris, c) && (#[trigger] mate(tris, c)) is Some implies agree(
        tris,
        f,
        c,
        mate(tris, c)->0,
    ) by {
        let k = piece[c / 3];
        lemma_pieces_that_can_agree_do(tris, piece, flip, count, k, w);
        assert(wound(tris, piece, k, f));
    }
}

/// Turning whole pieces over keeps their neighbours in agreement.
proof fn lemma_whole_pieces_agree(
    tris: Seq<Tri>,
    piece: Seq<usize>,
    flip: Seq<bool>,
    count: nat,
    whole: spec_fn(usize) -> bool,
)
    requires
        flooded(tris, piece, flip, count),
        all_agree(tris, |i: int| flip[i]),
    ensures
        all_agree(tris, |i: int| flip[i] != whole(piece[i])),
{
    let f = |i: int| flip[i];
    let g = |i: int| flip[i] != whole(piece[i]);
    assert forall|c: int| corner(tris, c) && (#[trigger] mate(tris, c)) is Some implies agree(
        tris,
        g,
        c,
        mate(tris, c)->0,
    ) by {
        lemma_mate(tris, c);
        assert(agree(tris, f, c, mate(tris, c)->0));
        assert(piece[mate(tris, c)->0 / 3] == piece[c / 3]);
    }
}

/// The whole orientation of a mesh -- neighbours made to agree, then pieces
/// pointed outwards -- keeps every gap and every overlap as it was, and, where
/// its neighbours can be made to agree at all, leaves no edge that two
/// triangles run along in the same direction.
pub proof fn lemma_orientation(
    before: Seq<Tri>,
    middle: Seq<Tri>,
    after: Seq<Tri>,
    pieces: Pieces,
    whole: spec_fn(usize) -> bool,
    w: spec_fn(int) -> bool,
)
    requires
        pieces_of(before, pieces),
        turned_by(before, middle, |i: int| pieces.flipped@[i]),
        turned_by(middle, after, |i: int| whole(pieces.piece@[i])),
        forall|i: int| 0 <= i < before.len() ==> !degenerate(#[trigger] before[i]),
    ensures
        edges_of(after, EdgeClass::Open) == edges_of(before, EdgeClass::Open),
        edges_of(after, EdgeClass::Overshared) == edges_of(before, EdgeClass::Overshared),
        all_agree(before, w) ==> edges_of(after, EdgeClass::Reversed) == Set::<(u32, u32)>::empty(),
{
    let flip = pieces.flipped@;
    let piece = pieces.piece@;
    lemma_turning_keeps_edges(before, middle, |i: int| flip[i]);
    lemma_turning_keeps_edges(middle, after, |i: int| whole(piece[i]));
    if all_agree(before, w) {
        let g = |i: int| flip[i] != whole(piece[i]);
        lemma_flood_agrees(before, piece, flip, pieces.size@.len(), w);
        lemma_whole_pieces_agree(before, piece, flip, pieces.size@.len(), whole);
        assert(turned_by(before, after, g)) by {
            assert forall|i: int| 0 <= i < before.len() implies (#[trigger] after[i])@ == if g(i) {
                turned(before[i])
            } else {
                before[i]@
            } by {
                assert(middle[i]@ == if flip[i] {
                    turned(before[i])
                } else {
                    before[i]@
                });
                assert(after[i]@ == if whole(piece[i]) {
                    turned(middle[i])
                } else {
                    middle[i]@
                });
                assert(turned(middle[i]) =~= if flip[i] {
                    before[i]@
                } else {
                    turned(before[i])
                });
            }
        }
        lemma_agreement_leaves_no_reversed_edge(before, after, g);
    }
}

} // verus!
