//! Making neighbouring triangles agree on winding.
//!
//! Two triangles that share an edge agree exactly when they run along it in
//! opposite directions, which is a purely combinatorial test. Flood filling
//! that relation over the edges with exactly two users orients each connected
//! piece up to one sign per piece.

use std::collections::HashMap;

use vstd::prelude::*;

use crate::edges::{
    corner_key, edge, is_table, lemma_users_among, packed, tells_of, upward, users, EdgeUse, Tri,
};

verus! {

broadcast use vstd::std_specs::hash::group_hash_axioms;

/// The corner of another triangle that shares this corner's edge, where the
/// edge has exactly two users. Where three or more triangles meet there is no
/// single correct partner.
#[verifier::opaque]
pub open spec fn mate(tris: Seq<Tri>, c: int) -> Option<int> {
    let list = users(tris, edge(tris, c));
    let other = if list[0] == c {
        list[1]
    } else {
        list[0]
    };
    if list.len() == 2 && other / 3 != c / 3 {
        Some(other)
    } else {
        None
    }
}

/// A corner of one of the triangles.
pub open spec fn corner(tris: Seq<Tri>, c: int) -> bool {
    0 <= c < 3 * tris.len()
}

/// The mate of a corner is a corner whose mate is that corner.
pub proof fn lemma_mate(tris: Seq<Tri>, c: int)
    requires
        corner(tris, c),
    ensures
        mate(tris, c) matches Some(d) ==> corner(tris, d) && mate(tris, d) == Some(c) && edge(
            tris,
            d,
        ) == edge(tris, c) && d / 3 != c / 3,
{
    reveal(mate);
    let e = edge(tris, c);
    lemma_users_among(tris, (3 * tris.len()) as nat, e);
    let list = users(tris, e);
    if list.len() == 2 {
        assert(list.contains(c));
        assert(list[0] < list[1]);
    }
}

/// Two corners run along their edge in opposite directions once the triangles
/// marked in `flip` are turned over.
pub open spec fn agree(tris: Seq<Tri>, flip: spec_fn(int) -> bool, c: int, d: int) -> bool {
    (upward(tris, c) != flip(c / 3)) != (upward(tris, d) != flip(d / 3))
}

/// A chain of `steps` neighbours leads from triangle `i`, which is not turned
/// over, to triangle `j`, and making each agree with the one before it turns
/// `j` over exactly if `f`.
pub open spec fn chained(tris: Seq<Tri>, i: int, j: int, f: bool, steps: nat) -> bool
    decreases steps,
{
    if steps == 0 {
        i == j && !f
    } else {
        exists|c: int, g: bool| #[trigger]
            step(tris, i, j, f, c, g) && chained(tris, i, c / 3, g, (steps - 1) as nat)
    }
}

/// The last step of a chain: over corner `c` of a triangle that is turned over
/// exactly if `g`.
pub open spec fn step(tris: Seq<Tri>, i: int, j: int, f: bool, c: int, g: bool) -> bool {
    corner(tris, c) && match mate(tris, c) {
        Some(d) => d / 3 == j && (upward(tris, c) != g) != (upward(tris, d) != f),
        None => false,
    }
}

/// Some chain of neighbours leads from `i` to `j` and turns it over exactly if
/// `f`.
#[verifier::opaque]
pub open spec fn rooted(tris: Seq<Tri>, i: int, j: int, f: bool) -> bool {
    exists|steps: nat| chained(tris, i, j, f, steps)
}

/// `s` is the first triangle of its piece.
pub open spec fn first_of_piece(piece: Seq<usize>, s: int) -> bool {
    0 <= s < piece.len() && forall|j: int| 0 <= j < s ==> #[trigger] piece[j] != piece[s]
}

/// The triangle's flip follows from the first triangle of its piece.
pub open spec fn follows(tris: Seq<Tri>, piece: Seq<usize>, flip: Seq<bool>, i: int) -> bool {
    exists|s: int| #[trigger]
        first_of_piece(piece, s) && piece[s] == piece[i] && rooted(tris, s, i, flip[i])
}

/// Some triangle before `i` lies in piece `k`.
pub open spec fn seen_before(piece: Seq<usize>, i: int, k: int) -> bool {
    exists|j: int| 0 <= j < i && #[trigger] piece[j] == k
}

/// `piece` numbers the connected pieces in the order of their first triangles,
/// and `flip` tells which triangles to turn over: the first one of a piece
/// stays, and each other one is turned so that it agrees with a chain of
/// neighbours that leads to it from there.
pub open spec fn flooded(
    tris: Seq<Tri>,
    piece: Seq<usize>,
    flip: Seq<bool>,
    count: nat,
) -> bool {
    &&& piece.len() == tris.len()
    &&& flip.len() == tris.len()
    &&& forall|i: int| 0 <= i < tris.len() ==> #[trigger] piece[i] < count
    &&& forall|c: int|
        corner(tris, c) && (#[trigger] mate(tris, c)) is Some ==> piece[mate(tris, c)->0 / 3]
            == piece[c / 3]
    &&& forall|i: int| 0 <= i < tris.len() ==> #[trigger] follows(tris, piece, flip, i)
    &&& forall|i: int, k: int|
        0 <= i < tris.len() && 0 <= k < piece[i] ==> #[trigger] seen_before(piece, i, k)
    &&& forall|k: int| 0 <= k < count ==> #[trigger] seen_before(piece, tris.len() as int, k)
}

/// Neighbours in piece `k` all agree under `flip`.
pub open spec fn wound(
    tris: Seq<Tri>,
    piece: Seq<usize>,
    k: usize,
    flip: spec_fn(int) -> bool,
) -> bool {
    forall|c: int|
        corner(tris, c) && piece[c / 3] == k && (#[trigger] mate(tris, c)) is Some ==> agree(
            tris,
            flip,
            c,
            mate(tris, c)->0,
        )
}

/// A chain stays in its piece, and along it the flips differ as those of any
/// consistent winding do.
proof fn lemma_chain(
    tris: Seq<Tri>,
    piece: Seq<usize>,
    k: usize,
    w: spec_fn(int) -> bool,
    i: int,
    j: int,
    f: bool,
    steps: nat,
)
    requires
        chained(tris, i, j, f, steps),
        0 <= i < tris.len(),
        piece.len() == tris.len(),
        piece[i] == k,
        forall|c: int|
            corner(tris, c) && (#[trigger] mate(tris, c)) is Some ==> piece[mate(tris, c)->0 / 3]
                == piece[c / 3],
        wound(tris, piece, k, w),
    ensures
        piece[j] == k,
        f == (w(j) != w(i)),
    decreases steps,
{
    if steps > 0 {
        let (c, g) = choose|c: int, g: bool| #[trigger]
            step(tris, i, j, f, c, g) && chained(tris, i, c / 3, g, (steps - 1) as nat);
        lemma_chain(tris, piece, k, w, i, c / 3, g, (steps - 1) as nat);
        lemma_mate(tris, c);
        assert(agree(tris, w, c, mate(tris, c)->0));
    }
}

/// Where the neighbours of a piece can be made to agree at all, the flips make
/// them agree.
pub proof fn lemma_pieces_that_can_agree_do(
    tris: Seq<Tri>,
    piece: Seq<usize>,
    flip: Seq<bool>,
    count: nat,
    k: usize,
    w: spec_fn(int) -> bool,
)
    requires
        flooded(tris, piece, flip, count),
        wound(tris, piece, k, w),
    ensures
        wound(tris, piece, k, |i: int| flip[i]),
{
    reveal(rooted);
    let f = |i: int| flip[i];
    assert forall|c: int|
        corner(tris, c) && piece[c / 3] == k && (#[trigger] mate(tris, c)) is Some implies agree(
        tris,
        f,
        c,
        mate(tris, c)->0,
    ) by {
        let d = mate(tris, c)->0;
        lemma_mate(tris, c);
        let (i, j) = (c / 3, d / 3);
        assert(follows(tris, piece, flip, i));
        assert(follows(tris, piece, flip, j));
        let s = choose|s: int| #[trigger]
            first_of_piece(piece, s) && piece[s] == piece[i] && rooted(tris, s, i, flip[i]);
        let s2 = choose|s: int| #[trigger]
            first_of_piece(piece, s) && piece[s] == piece[j] && rooted(tris, s, j, flip[j]);
        if s < s2 {
            assert(piece[s] != piece[s2]);
        } else if s2 < s {
            assert(piece[s2] != piece[s]);
        }
        let n = choose|n: nat| chained(tris, s, i, flip[i], n);
        let m = choose|m: nat| chained(tris, s, j, flip[j], m);
        lemma_chain(tris, piece, k, w, s, i, flip[i], n);
        lemma_chain(tris, piece, k, w, s, j, flip[j], m);
        assert(agree(tris, w, c, d));
    }
}

/// A piece whose neighbours agree already is left alone.
pub proof fn lemma_agreeing_pieces_are_left_alone(
    tris: Seq<Tri>,
    piece: Seq<usize>,
    flip: Seq<bool>,
    count: nat,
    i: int,
)
    requires
        flooded(tris, piece, flip, count),
        0 <= i < tris.len(),
        wound(tris, piece, piece[i], |j: int| false),
    ensures
        !flip[i],
{
    reveal(rooted);
    assert(follows(tris, piece, flip, i));
    let s = choose|s: int| #[trigger]
        first_of_piece(piece, s) && piece[s] == piece[i] && rooted(tris, s, i, flip[i]);
    let n = choose|n: nat| chained(tris, s, i, flip[i], n);
    lemma_chain(tris, piece, piece[i], |j: int| false, s, i, flip[i], n);
}

/// How far the flood has come: which triangles it has reached, and the piece
/// and the flip of each.
struct Flood {
    seen: Vec<bool>,
    piece: Vec<usize>,
    flip: Vec<bool>,
}

/// The contents of a flood.
#[verifier::ext_equal]
pub struct Reach {
    pub seen: Seq<bool>,
    pub piece: Seq<usize>,
    pub flip: Seq<bool>,
}

impl View for Flood {
    type V = Reach;

    closed spec fn view(&self) -> Reach {
        Reach { seen: self.seen@, piece: self.piece@, flip: self.flip@ }
    }
}

impl Reach {
    /// It is about `n` triangles.
    spec fn sized(self, n: nat) -> bool {
        self.seen.len() == n && self.piece.len() == n && self.flip.len() == n
    }

    /// Triangle `j` is reached as well.
    pub open spec fn with(self, j: int, number: usize, f: bool) -> Reach {
        Reach {
            seen: self.seen.update(j, true),
            piece: self.piece.update(j, number),
            flip: self.flip.update(j, f),
        }
    }

    /// Triangle `i` is reached and lies in piece `k`.
    spec fn has(self, i: int, k: int) -> bool {
        0 <= i < self.seen.len() && self.seen[i] && self.piece[i] == k
    }

    /// `s` is the first triangle of its piece, and all before it are reached.
    spec fn first(self, s: int) -> bool {
        &&& 0 <= s < self.seen.len()
        &&& self.seen[s]
        &&& forall|j: int|
            0 <= j < s ==> #[trigger] self.seen[j] && self.piece[j] != self.piece[s]
    }

    /// Some reached triangle before `i` lies in piece `k`.
    spec fn met(self, i: int, k: int) -> bool {
        exists|y: int| 0 <= y < i && #[trigger] self.has(y, k)
    }

    /// The corner's mate is reached and lies in the same piece.
    spec fn closed_at(self, tris: Seq<Tri>, c: int) -> bool {
        match mate(tris, c) {
            Some(d) => self.seen[d / 3] && self.piece[d / 3] == self.piece[c / 3],
            None => true,
        }
    }

    /// The triangle's flip follows from the first triangle of its piece.
    spec fn follows(self, tris: Seq<Tri>, i: int) -> bool {
        exists|s: int| #[trigger]
            self.first(s) && self.piece[s] == self.piece[i] && rooted(tris, s, i, self.flip[i])
    }

    /// All that is known of a triangle whose piece is complete.
    spec fn settled(self, tris: Seq<Tri>, i: int) -> bool {
        &&& self.follows(tris, i)
        &&& forall|c: int| corner(tris, c) && c / 3 == i ==> #[trigger] self.closed_at(tris, c)
        &&& forall|k: int| 0 <= k < self.piece[i] ==> #[trigger] self.met(i, k)
    }

    /// The pieces below `number` are complete, and hold all triangles before
    /// `root`.
    #[verifier::opaque]
    spec fn history(self, tris: Seq<Tri>, root: int, number: int) -> bool {
        &&& self.sized(tris.len())
        &&& 0 <= root <= tris.len()
        &&& forall|i: int|
            0 <= i < tris.len() && #[trigger] self.seen[i] && self.piece[i] < number
                ==> self.settled(tris, i)
        &&& forall|k: int| 0 <= k < number ==> #[trigger] self.met(root, k)
        &&& forall|i: int| 0 <= i < root ==> #[trigger] self.seen[i] && self.piece[i] < number
        &&& forall|i: int|
            0 <= i < tris.len() && #[trigger] self.seen[i] ==> self.piece[i] <= number
    }

    /// Piece `number` begins at `root`, and the triangles of it that have been
    /// reached follow from there.
    #[verifier::opaque]
    spec fn current(self, tris: Seq<Tri>, root: int, number: int) -> bool {
        &&& self.has(root, number)
        &&& forall|i: int| #[trigger]
            self.has(i, number) ==> rooted(tris, root, i, self.flip[i])
    }

    /// No piece from `number` on has been reached.
    #[verifier::opaque]
    spec fn none_from(self, number: int) -> bool {
        forall|i: int|
            0 <= i < self.seen.len() && #[trigger] self.seen[i] ==> self.piece[i] < number
    }
}

/// The flood looks across corner `k` of triangle `t`, which lies in piece
/// `number`: a neighbour that is not reached yet is turned so that the two
/// agree, and waits.
pub open spec fn look(
    tris: Seq<Tri>,
    v: Reach,
    stack: Seq<usize>,
    t: int,
    k: int,
    number: usize,
) -> (Reach, Seq<usize>) {
    let c = 3 * t + k;
    match mate(tris, c) {
        Some(d) => if v.seen[d / 3] {
            (v, stack)
        } else {
            (
                v.with(d / 3, number, v.flip[t] != (upward(tris, c) == upward(tris, d))),
                stack.push((d / 3) as usize),
            )
        },
        None => (v, stack),
    }
}

/// It looks across the first `k` corners of triangle `t`, one after the other.
pub open spec fn look_upto(
    tris: Seq<Tri>,
    v: Reach,
    stack: Seq<usize>,
    t: int,
    k: nat,
    number: usize,
) -> (Reach, Seq<usize>)
    decreases k,
{
    if k == 0 {
        (v, stack)
    } else {
        let (w, s) = look_upto(tris, v, stack, t, (k - 1) as nat, number);
        look(tris, w, s, t, k - 1, number)
    }
}

/// The flood goes on from the triangle that came to wait last, for as long as
/// one waits, and for `steps` of them at most.
pub open spec fn walk(
    tris: Seq<Tri>,
    v: Reach,
    stack: Seq<usize>,
    number: usize,
    steps: nat,
) -> Reach
    decreases steps,
{
    if steps == 0 || stack.len() == 0 {
        v
    } else {
        let (w, s) = look_upto(tris, v, stack.drop_last(), stack.last() as int, 3, number);
        walk(tris, w, s, number, (steps - 1) as nat)
    }
}

/// The piece that begins at `root` is flooded. No triangle waits twice, so that
/// there are as many steps as triangles at most.
pub open spec fn walk_piece(tris: Seq<Tri>, v: Reach, root: int, number: usize) -> Reach {
    walk(tris, v.with(root, number, false), seq![root as usize], number, tris.len())
}

/// Every piece from triangle `next` on is flooded, and is given the next number
/// from `count` on.
pub open spec fn walk_all(tris: Seq<Tri>, v: Reach, next: nat, count: nat) -> (Reach, nat)
    decreases tris.len() - next,
{
    if next >= tris.len() {
        (v, count)
    } else if v.seen[next as int] {
        walk_all(tris, v, next + 1, count)
    } else {
        walk_all(tris, walk_piece(tris, v, next as int, count as usize), next + 1, count + 1)
    }
}

/// The flood of a whole mesh: what it reached, and how many pieces there are.
pub open spec fn walk_of(tris: Seq<Tri>) -> (Reach, nat) {
    walk_all(
        tris,
        Reach {
            seen: Seq::new(tris.len(), |i: int| false),
            piece: Seq::new(tris.len(), |i: int| 0usize),
            flip: Seq::new(tris.len(), |i: int| false),
        },
        0,
        0,
    )
}

/// The number of triangles that are not reached yet.
spec fn unseen(seen: Seq<bool>) -> nat
    decreases seen.len(),
{
    if seen.len() == 0 {
        0
    } else {
        unseen(seen.drop_last()) + if seen.last() {
            0nat
        } else {
            1nat
        }
    }
}

/// Reaching a triangle leaves one fewer.
proof fn lemma_unseen(seen: Seq<bool>, i: int)
    requires
        0 <= i < seen.len(),
        !seen[i],
    ensures
        unseen(seen.update(i, true)) + 1 == unseen(seen),
    decreases seen.len(),
{
    let now = seen.update(i, true);
    if i == seen.len() - 1 {
        assert(now.drop_last() =~= seen.drop_last());
    } else {
        lemma_unseen(seen.drop_last(), i);
        assert(now.drop_last() =~= seen.drop_last().update(i, true));
    }
}

/// No more triangles are left than there are.
proof fn lemma_unseen_at_most(seen: Seq<bool>)
    ensures
        unseen(seen) <= seen.len(),
    decreases seen.len(),
{
    if seen.len() > 0 {
        lemma_unseen_at_most(seen.drop_last());
    }
}

/// A corner whose mate lies in its piece stays so when one more triangle is
/// reached.
proof fn lemma_stays_closed(tris: Seq<Tri>, v: Reach, j: int, number: usize, f: bool, c: int)
    requires
        v.sized(tris.len()),
        0 <= j < tris.len(),
        !v.seen[j],
        corner(tris, c),
        v.seen[c / 3],
        v.closed_at(tris, c),
    ensures
        v.with(j, number, f).closed_at(tris, c),
{
    lemma_mate(tris, c);
}

/// A settled triangle stays settled when one more triangle is reached.
proof fn lemma_stays_settled(tris: Seq<Tri>, v: Reach, j: int, number: usize, f: bool, i: int)
    requires
        v.sized(tris.len()),
        0 <= j < tris.len(),
        !v.seen[j],
        0 <= i < tris.len(),
        v.seen[i],
        v.settled(tris, i),
    ensures
        v.with(j, number, f).settled(tris, i),
{
    let w = v.with(j, number, f);
    let s = choose|s: int| #[trigger]
        v.first(s) && v.piece[s] == v.piece[i] && rooted(tris, s, i, v.flip[i]);
    assert(w.first(s)) by {
        assert forall|y: int| 0 <= y < s implies #[trigger] w.seen[y] && w.piece[y]
            != w.piece[s] by {
            assert(v.seen[y]);
        }
    }
    assert(w.follows(tris, i));
    assert forall|c: int| corner(tris, c) && c / 3 == i implies #[trigger] w.closed_at(
        tris,
        c,
    ) by {
        assert(v.closed_at(tris, c));
        lemma_stays_closed(tris, v, j, number, f, c);
    }
    assert forall|k: int| 0 <= k < w.piece[i] implies #[trigger] w.met(i, k) by {
        assert(v.met(i, k));
        let y = choose|y: int| 0 <= y < i && #[trigger] v.has(y, k);
        assert(w.has(y, k));
    }
}

/// Complete pieces stay complete when one more triangle of piece `number` is
/// reached.
proof fn lemma_history_kept(
    tris: Seq<Tri>,
    v: Reach,
    root: int,
    number: usize,
    j: int,
    f: bool,
)
    requires
        v.history(tris, root, number as int),
        0 <= j < tris.len(),
        !v.seen[j],
    ensures
        v.with(j, number, f).history(tris, root, number as int),
{
    reveal(Reach::history);
    let w = v.with(j, number, f);
    assert forall|i: int|
        0 <= i < tris.len() && #[trigger] w.seen[i] && w.piece[i] < number implies w.settled(
        tris,
        i,
    ) by {
        assert(v.seen[i]);
        lemma_stays_settled(tris, v, j, number, f, i);
    }
    assert forall|k: int| 0 <= k < number implies #[trigger] w.met(root, k) by {
        assert(v.met(root, k));
        let y = choose|y: int| 0 <= y < root && #[trigger] v.has(y, k);
        assert(w.has(y, k));
    }
    assert forall|i: int| 0 <= i < root implies #[trigger] w.seen[i] && w.piece[i] < number by {
        assert(v.seen[i]);
    }
    assert forall|i: int| 0 <= i < tris.len() && #[trigger] w.seen[i] implies w.piece[i]
        <= number by {
        if i != j {
            assert(v.seen[i]);
        }
    }
}

/// A new piece begins.
proof fn lemma_begin(tris: Seq<Tri>, v: Reach, root: int, number: usize)
    requires
        v.history(tris, root, number as int),
        v.none_from(number as int),
        0 <= root < tris.len(),
        !v.seen[root],
    ensures
        v.with(root, number, false).history(tris, root, number as int),
        v.with(root, number, false).current(tris, root, number as int),
{
    reveal(Reach::current);
    reveal(Reach::none_from);
    reveal(rooted);
    assert(v.sized(tris.len())) by {
        reveal(Reach::history);
    }
    lemma_history_kept(tris, v, root, number, root, false);
    let w = v.with(root, number, false);
    assert(chained(tris, root, root, false, 0));
    assert forall|i: int| #[trigger] w.has(i, number as int) implies rooted(
        tris,
        root,
        i,
        w.flip[i],
    ) by {
        if i != root {
            assert(v.seen[i]);
        }
    }
}

/// The current piece grows over corner `c` into triangle `j`.
proof fn lemma_grow(
    tris: Seq<Tri>,
    v: Reach,
    root: int,
    number: usize,
    c: int,
    j: int,
    f: bool,
)
    requires
        v.history(tris, root, number as int),
        v.current(tris, root, number as int),
        corner(tris, c),
        v.has(c / 3, number as int),
        mate(tris, c) is Some,
        mate(tris, c)->0 / 3 == j,
        0 <= j < tris.len(),
        !v.seen[j],
        (upward(tris, c) != v.flip[c / 3]) != (upward(tris, mate(tris, c)->0) != f),
    ensures
        v.with(j, number, f).history(tris, root, number as int),
        v.with(j, number, f).current(tris, root, number as int),
        v.with(j, number, f).closed_at(tris, c),
{
    reveal(Reach::current);
    reveal(rooted);
    assert(v.sized(tris.len())) by {
        reveal(Reach::history);
    }
    lemma_history_kept(tris, v, root, number, j, f);
    let w = v.with(j, number, f);
    let i = c / 3;
    let g = v.flip[i];
    assert(rooted(tris, root, i, g));
    let n = choose|n: nat| chained(tris, root, i, g, n);
    assert(step(tris, root, j, f, c, g));
    assert(chained(tris, root, j, f, n + 1));
    assert(rooted(tris, root, j, f));
    assert forall|x: int| #[trigger] w.has(x, number as int) implies rooted(
        tris,
        root,
        x,
        w.flip[x],
    ) by {
        if x != j {
            assert(v.has(x, number as int));
        }
    }
}

/// A neighbour of the current piece that has been reached lies in that piece.
proof fn lemma_neighbour_in_piece(
    tris: Seq<Tri>,
    v: Reach,
    root: int,
    number: usize,
    c: int,
)
    requires
        v.history(tris, root, number as int),
        corner(tris, c),
        v.has(c / 3, number as int),
        mate(tris, c) is Some,
        v.seen[mate(tris, c)->0 / 3],
    ensures
        v.closed_at(tris, c),
{
    reveal(Reach::history);
    lemma_mate(tris, c);
    let d = mate(tris, c)->0;
    if v.piece[d / 3] < number {
        assert(v.settled(tris, d / 3));
        assert(v.closed_at(tris, d));
    }
}

/// A piece with all its mates in it is complete.
proof fn lemma_finish(tris: Seq<Tri>, v: Reach, root: int, number: usize)
    requires
        v.history(tris, root, number as int),
        v.current(tris, root, number as int),
        forall|c: int|
            corner(tris, c) && v.has(c / 3, number as int) ==> #[trigger] v.closed_at(tris, c),
    ensures
        v.history(tris, root + 1, number + 1),
        v.none_from(number + 1),
{
    reveal(Reach::history);
    reveal(Reach::current);
    reveal(Reach::none_from);
    assert(v.first(root)) by {
        assert forall|j: int| 0 <= j < root implies #[trigger] v.seen[j] && v.piece[j]
            != v.piece[root] by {}
    }
    assert forall|i: int|
        0 <= i < tris.len() && #[trigger] v.seen[i] && v.piece[i] < number + 1 implies v.settled(
        tris,
        i,
    ) by {
        if v.piece[i] == number {
            assert(v.has(i, number as int));
            assert(v.follows(tris, i));
            assert(root <= i) by {
                if i < root {
                    assert(v.seen[i] && v.piece[i] < number);
                }
            }
            assert forall|k: int| 0 <= k < v.piece[i] implies #[trigger] v.met(i, k) by {
                assert(v.met(root, k));
                let y = choose|y: int| 0 <= y < root && #[trigger] v.has(y, k);
                assert(v.has(y, k));
            }
            assert forall|c: int| corner(tris, c) && c / 3 == i implies #[trigger] v.closed_at(
                tris,
                c,
            ) by {
                assert(v.has(c / 3, number as int));
            }
        }
    }
    assert forall|k: int| 0 <= k < number + 1 implies #[trigger] v.met(root + 1, k) by {
        if k < number {
            assert(v.met(root, k));
            let y = choose|y: int| 0 <= y < root && #[trigger] v.has(y, k);
            assert(v.has(y, k));
        } else {
            assert(v.has(root, k));
        }
    }
}

/// A triangle that has been reached is passed over.
proof fn lemma_pass(tris: Seq<Tri>, v: Reach, root: int, number: int)
    requires
        v.history(tris, root, number),
        v.none_from(number),
        0 <= root < tris.len(),
        v.seen[root],
    ensures
        v.history(tris, root + 1, number),
{
    reveal(Reach::history);
    reveal(Reach::none_from);
    assert forall|k: int| 0 <= k < number implies #[trigger] v.met(root + 1, k) by {
        assert(v.met(root, k));
        let y = choose|y: int| 0 <= y < root && #[trigger] v.has(y, k);
        assert(v.has(y, k));
    }
}

/// With every triangle reached, the flood is what it should be.
proof fn lemma_flood_done(tris: Seq<Tri>, v: Reach, count: int)
    requires
        v.history(tris, tris.len() as int, count),
        v.none_from(count),
        0 <= count,
    ensures
        flooded(tris, v.piece, v.flip, count as nat),
{
    reveal(Reach::history);
    reveal(Reach::none_from);
    let piece = v.piece;
    assert forall|i: int| 0 <= i < tris.len() implies #[trigger] piece[i] < count && v.settled(
        tris,
        i,
    ) by {
        assert(v.seen[i]);
    }
    assert forall|c: int|
        corner(tris, c) && (#[trigger] mate(tris, c)) is Some implies piece[mate(tris, c)->0 / 3]
        == piece[c / 3] by {
        assert(piece[c / 3] < count);
        assert(v.settled(tris, c / 3));
        assert(v.closed_at(tris, c));
    }
    assert forall|i: int| 0 <= i < tris.len() implies #[trigger] follows(
        tris,
        piece,
        v.flip,
        i,
    ) by {
        assert(piece[i] < count);
        let s = choose|s: int| #[trigger]
            v.first(s) && v.piece[s] == v.piece[i] && rooted(tris, s, i, v.flip[i]);
        assert forall|j: int| 0 <= j < s implies #[trigger] piece[j] != piece[s] by {
            assert(v.seen[j]);
        }
        assert(first_of_piece(piece, s));
    }
    assert forall|i: int, k: int| 0 <= i < tris.len() && 0 <= k < piece[i] implies
        #[trigger] seen_before(piece, i, k) by {
        assert(piece[i] < count);
        assert(v.met(i, k));
        let y = choose|y: int| 0 <= y < i && #[trigger] v.has(y, k);
        assert(piece[y] == k);
    }
    assert forall|k: int| 0 <= k < count implies #[trigger] seen_before(
        piece,
        tris.len() as int,
        k,
    ) by {
        assert(v.met(tris.len() as int, k));
        let y = choose|y: int| 0 <= y < tris.len() && #[trigger] v.has(y, k);
        assert(piece[y] == k);
    }
}

/// The mate of corner `k` of triangle `t`: its triangle, and whether the two
/// corners run along the edge in the same direction.
fn find_mate(tris: &Vec<Tri>, table: &HashMap<u64, EdgeUse>, t: usize, k: usize) -> (r: Option<
    (usize, bool),
>)
    requires
        is_table(table@, tris@, (3 * tris@.len()) as nat),
        t < tris@.len(),
        k < 3,
    ensures
        match r {
            Some((j, same)) => {
                &&& mate(tris@, 3 * t + k) is Some
                &&& j < tris@.len()
                &&& mate(tris@, 3 * t + k)->0 / 3 == j
                &&& same == (upward(tris@, 3 * t + k) == upward(tris@, mate(tris@, 3 * t + k)->0))
            },
            None => mate(tris@, 3 * t + k) is None,
        },
{
    let ghost c = 3 * t + k;
    let ghost e = edge(tris@, c);
    let (key, up) = corner_key(&tris[t], k);
    proof {
        reveal(mate);
        assert(c / 3 == t && c % 3 == k);
        assert(key == packed(e) && up == upward(tris@, c));
        lemma_users_among(tris@, (3 * tris@.len()) as nat, e);
        assert(users(tris@, e).contains(c));
        assert(table@.contains_key(packed(e)));
    }
    let ghost list = users(tris@, e);
    let u: EdgeUse = *table.get(&key).unwrap();
    assert(tells_of(u, list));
    if u.count != 2 {
        return None;
    }
    proof {
        assert(list.len() == 2);
        assert(list[0] / 3 == u.t0 && list[0] % 3 == u.k0);
        assert(list[1] / 3 == u.t1 && list[1] % 3 == u.k1);
    }
    if u.t0 == t && u.t1 == t {
        return None;
    }
    let (j, kj) = if u.t0 == t {
        (u.t1, u.k1)
    } else {
        (u.t0, u.k0)
    };
    let ghost d = 3 * j + kj;
    proof {
        assert(mate(tris@, c) == Some(d));
        assert(d / 3 == j && d % 3 == kj);
        assert(corner(tris@, d));
    }
    let (keyj, upj) = corner_key(&tris[j], kj);
    assert(keyj == packed(edge(tris@, d)) && upj == upward(tris@, d));
    Some((j, up == upj))
}

/// Look across corner `k` of triangle `t`, which lies in piece `number`, and
/// reach its mate's triangle if that is not reached yet.
fn look_across(
    tris: &Vec<Tri>,
    table: &HashMap<u64, EdgeUse>,
    f: &mut Flood,
    t: usize,
    k: usize,
    number: usize,
    Ghost(root): Ghost<int>,
) -> (r: Option<usize>)
    requires
        is_table(table@, tris@, (3 * tris@.len()) as nat),
        t < tris@.len(),
        k < 3,
        old(f)@.sized(tris@.len()),
        old(f)@.history(tris@, root, number as int),
        old(f)@.current(tris@, root, number as int),
        old(f)@.has(t as int, number as int),
    ensures
        final(f)@.sized(tris@.len()),
        final(f)@.history(tris@, root, number as int),
        final(f)@.current(tris@, root, number as int),
        final(f)@.closed_at(tris@, 3 * t + k),
        match r {
            Some(j) => j < tris@.len() && !old(f)@.seen[j as int] && final(f)@ == old(f)@.with(
                j as int,
                number,
                final(f)@.flip[j as int],
            ),
            None => final(f)@ == old(f)@,
        },
        forall|stack: Seq<usize>| #[trigger]
            look(tris@, old(f)@, stack, t as int, k as int, number) == (
                final(f)@,
                match r {
                    Some(j) => stack.push(j),
                    None => stack,
                },
            ),
{
    let ghost c = 3 * t + k;
    assert(c / 3 == t);
    match find_mate(tris, table, t, k) {
        None => None,
        Some((j, same)) => {
            if f.seen[j] {
                proof {
                    lemma_neighbour_in_piece(tris@, f@, root, number, c);
                }
                return None;
            }
            let fj = f.flip[t] != same;
            let ghost before = f@;
            proof {
                lemma_grow(tris@, before, root, number, c, j as int, fj);
            }
            f.seen.set(j, true);
            f.piece.set(j, number);
            f.flip.set(j, fj);
            assert(f@ == before.with(j as int, number, fj));
            Some(j)
        },
    }
}

/// Triangles of the current piece that have been reached and whose mates are
/// not all known to lie in it.
spec fn waits(v: Reach, stack: Seq<usize>, n: nat, number: int) -> bool {
    forall|x: usize| #[trigger] stack.contains(x) ==> x < n && v.has(x as int, number)
}

/// Every corner of the current piece has its mate in the piece, or its
/// triangle waits.
spec fn closed_or_waiting(
    tris: Seq<Tri>,
    v: Reach,
    stack: Seq<usize>,
    number: int,
) -> bool {
    forall|c: int|
        corner(tris, c) && v.has(c / 3, number) ==> #[trigger] v.closed_at(tris, c)
            || stack.contains((c / 3) as usize)
}

/// Looking across one more corner keeps what is known of the others.
proof fn lemma_looked(
    tris: Seq<Tri>,
    v: Reach,
    stack: Seq<usize>,
    number: usize,
    j: usize,
    f: bool,
)
    requires
        v.sized(tris.len()),
        j < tris.len(),
        !v.seen[j as int],
        waits(v, stack, tris.len(), number as int),
    ensures
        waits(v.with(j as int, number, f), stack.push(j), tris.len(), number as int),
        forall|x: usize| stack.contains(x) ==> #[trigger] stack.push(j).contains(x),
        stack.push(j).contains(j),
        forall|c: int|
            corner(tris, c) && v.has(c / 3, number as int) && v.closed_at(tris, c)
                ==> #[trigger] v.with(j as int, number, f).closed_at(tris, c),
{
    let w = v.with(j as int, number, f);
    let more = stack.push(j);
    assert(more[stack.len() as int] == j);
    assert forall|x: usize| stack.contains(x) implies #[trigger] more.contains(x) by {
        let i = choose|i: int| 0 <= i < stack.len() && stack[i] == x;
        assert(more[i] == x);
    }
    assert forall|x: usize| #[trigger] more.contains(x) implies x < tris.len() && w.has(
        x as int,
        number as int,
    ) by {
        let i = choose|i: int| 0 <= i < more.len() && more[i] == x;
        if i < stack.len() {
            assert(stack[i] == x);
            assert(stack.contains(x));
        }
    }
    assert forall|c: int|
        corner(tris, c) && v.has(c / 3, number as int) && v.closed_at(
            tris,
            c,
        ) implies #[trigger] w.closed_at(tris, c) by {
        lemma_stays_closed(tris, v, j as int, number, f, c);
    }
}

/// Look across all corners of a triangle of the current piece; those reached
/// wait.
fn look_around(
    tris: &Vec<Tri>,
    table: &HashMap<u64, EdgeUse>,
    f: &mut Flood,
    stack: &mut Vec<usize>,
    t: usize,
    number: usize,
    Ghost(root): Ghost<int>,
)
    requires
        is_table(table@, tris@, (3 * tris@.len()) as nat),
        t < tris@.len(),
        old(f)@.sized(tris@.len()),
        old(f)@.history(tris@, root, number as int),
        old(f)@.current(tris@, root, number as int),
        old(f)@.has(t as int, number as int),
        waits(old(f)@, old(stack)@, tris@.len(), number as int),
        forall|c: int|
            corner(tris@, c) && old(f)@.has(c / 3, number as int) && c / 3 != t
                ==> #[trigger] old(f)@.closed_at(tris@, c) || old(stack)@.contains(
                (c / 3) as usize,
            ),
    ensures
        final(f)@.sized(tris@.len()),
        final(f)@.history(tris@, root, number as int),
        final(f)@.current(tris@, root, number as int),
        waits(final(f)@, final(stack)@, tris@.len(), number as int),
        closed_or_waiting(tris@, final(f)@, final(stack)@, number as int),
        (final(f)@, final(stack)@) == look_upto(
            tris@,
            old(f)@,
            old(stack)@,
            t as int,
            3,
            number,
        ),
        unseen(final(f)@.seen) + final(stack)@.len() == unseen(old(f)@.seen) + old(stack)@.len(),
{
    let mut k: usize = 0;
    while k < 3
        invariant
            is_table(table@, tris@, (3 * tris@.len()) as nat),
            t < tris@.len(),
            k <= 3,
            f@.sized(tris@.len()),
            f@.history(tris@, root, number as int),
            f@.current(tris@, root, number as int),
            f@.has(t as int, number as int),
            waits(f@, stack@, tris@.len(), number as int),
            forall|c: int|
                corner(tris@, c) && f@.has(c / 3, number as int) && !(c / 3 == t && c % 3 >= k)
                    ==> #[trigger] f@.closed_at(tris@, c) || stack@.contains((c / 3) as usize),
            (f@, stack@) == look_upto(
                tris@,
                old(f)@,
                old(stack)@,
                t as int,
                k as nat,
                number,
            ),
            unseen(f@.seen) + stack@.len() == unseen(old(f)@.seen) + old(stack)@.len(),
        decreases 3 - k,
    {
        let ghost before = f@;
        let ghost s0 = stack@;
        let ghost after = look(tris@, before, s0, t as int, k as int, number);
        match look_across(tris, table, f, t, k, number, Ghost(root)) {
            None => {
                assert forall|c: int|
                    corner(tris@, c) && f@.has(c / 3, number as int) && !(c / 3 == t && c % 3 >= k
                        + 1) implies #[trigger] f@.closed_at(tris@, c) || stack@.contains(
                    (c / 3) as usize,
                ) by {
                    if c / 3 == t && c % 3 == k {
                        assert(c == 3 * t + k);
                    } else {
                        assert(before.closed_at(tris@, c) || s0.contains((c / 3) as usize));
                    }
                }
            },
            Some(j) => {
                let ghost fj = f@.flip[j as int];
                proof {
                    lemma_looked(tris@, before, s0, number, j, fj);
                    lemma_unseen(before.seen, j as int);
                }
                stack.push(j);
                assert forall|c: int|
                    corner(tris@, c) && f@.has(c / 3, number as int) && !(c / 3 == t && c % 3 >= k
                        + 1) implies #[trigger] f@.closed_at(tris@, c) || stack@.contains(
                    (c / 3) as usize,
                ) by {
                    if c / 3 == t && c % 3 == k {
                        assert(c == 3 * t + k);
                    } else if c / 3 != j {
                        assert(before.has(c / 3, number as int));
                        assert(before.closed_at(tris@, c) || s0.contains((c / 3) as usize));
                        if s0.contains((c / 3) as usize) {
                            assert(stack@.contains((c / 3) as usize));
                        }
                    }
                }
            },
        }
        k += 1;
    }
}

/// A triangle taken off the stack leaves the others waiting.
proof fn lemma_taken(
    tris: Seq<Tri>,
    v: Reach,
    stack: Seq<usize>,
    number: int,
)
    requires
        tris.len() <= usize::MAX,
        v.sized(tris.len()),
        stack.len() > 0,
        waits(v, stack, tris.len(), number),
        closed_or_waiting(tris, v, stack, number),
    ensures
        waits(v, stack.drop_last(), tris.len(), number),
        stack.last() < tris.len(),
        v.has(stack.last() as int, number),
        forall|c: int|
            corner(tris, c) && v.has(c / 3, number) && c / 3 != stack.last()
                ==> #[trigger] v.closed_at(tris, c) || stack.drop_last().contains((c / 3) as usize),
{
    let rest = stack.drop_last();
    assert(stack[stack.len() - 1] == stack.last());
    assert(stack.contains(stack.last()));
    assert forall|x: usize| #[trigger] rest.contains(x) implies x < tris.len() && v.has(
        x as int,
        number,
    ) by {
        let i = choose|i: int| 0 <= i < rest.len() && rest[i] == x;
        assert(stack[i] == x);
        assert(stack.contains(x));
    }
    assert forall|c: int|
        corner(tris, c) && v.has(c / 3, number) && c / 3
            != stack.last() implies #[trigger] v.closed_at(tris, c) || rest.contains(
        (c / 3) as usize,
    ) by {
        if stack.contains((c / 3) as usize) {
            let i = choose|i: int| 0 <= i < stack.len() && stack[i] == (c / 3) as usize;
            assert(v.has((c / 3) as usize as int, number));
            assert(rest[i] == (c / 3) as usize);
        }
    }
}

/// Flood the piece that begins at `root`.
fn flood_piece(
    tris: &Vec<Tri>,
    table: &HashMap<u64, EdgeUse>,
    f: &mut Flood,
    root: usize,
    number: usize,
)
    requires
        is_table(table@, tris@, (3 * tris@.len()) as nat),
        root < tris@.len(),
        old(f)@.sized(tris@.len()),
        old(f)@.history(tris@, root as int, number as int),
        old(f)@.none_from(number as int),
        !old(f)@.seen[root as int],
    ensures
        final(f)@.sized(tris@.len()),
        final(f)@.history(tris@, root + 1, number + 1),
        final(f)@.none_from(number + 1),
        final(f)@ == walk_piece(tris@, old(f)@, root as int, number),
{
    let ghost before = f@;
    let ghost mut steps: nat = tris@.len();
    f.seen.set(root, true);
    f.piece.set(root, number);
    f.flip.set(root, false);
    let mut stack: Vec<usize> = Vec::new();
    stack.push(root);
    proof {
        assert(f@ =~= before.with(root as int, number, false));
        lemma_begin(tris@, before, root as int, number);
        assert(stack@ =~= seq![root]);
        assert(stack@[0] == root);
        assert(f@.has(root as int, number as int)) by {
            reveal(Reach::current);
        }
        reveal(Reach::none_from);
        assert forall|c: int|
            corner(tris@, c) && f@.has(c / 3, number as int) implies #[trigger] f@.closed_at(
            tris@,
            c,
        ) || stack@.contains((c / 3) as usize) by {
            if c / 3 != root {
                assert(before.seen[c / 3]);
            }
        }
        lemma_unseen(before.seen, root as int);
        lemma_unseen_at_most(before.seen);
    }
    while stack.len() > 0
        invariant
            is_table(table@, tris@, (3 * tris@.len()) as nat),
            f@.sized(tris@.len()),
            f@.history(tris@, root as int, number as int),
            f@.current(tris@, root as int, number as int),
            waits(f@, stack@, tris@.len(), number as int),
            closed_or_waiting(tris@, f@, stack@, number as int),
            unseen(f@.seen) + stack@.len() <= steps,
            walk(tris@, f@, stack@, number, steps) == walk_piece(
                tris@,
                before,
                root as int,
                number,
            ),
        decreases unseen(f@.seen) + stack@.len(),
    {
        proof {
            assert(tris.len() <= usize::MAX);
            lemma_taken(tris@, f@, stack@, number as int);
        }
        let t: usize = stack.pop().unwrap();
        look_around(tris, table, f, &mut stack, t, number, Ghost(root as int));
        proof {
            steps = (steps - 1) as nat;
        }
    }
    proof {
        lemma_finish(tris@, f@, root as int, number);
    }
}

/// The connected pieces of a mesh, and the triangles to turn over so that
/// neighbours agree: the piece of each triangle, its flip, and the number of
/// pieces.
pub fn flood(tris: &Vec<Tri>, table: &HashMap<u64, EdgeUse>) -> (r: (Vec<usize>, Vec<bool>, usize))
    requires
        is_table(table@, tris@, (3 * tris@.len()) as nat),
    ensures
        flooded(tris@, r.0@, r.1@, r.2 as nat),
        r.2 <= tris@.len(),
        (r.0@, r.1@, r.2 as nat) == (
            walk_of(tris@).0.piece,
            walk_of(tris@).0.flip,
            walk_of(tris@).1,
        ),
{
    let n: usize = tris.len();
    let mut f = Flood { seen: vec![false; n], piece: vec![0usize; n], flip: vec![false; n] };
    let mut count: usize = 0;
    let mut next: usize = 0;
    proof {
        reveal(Reach::history);
        reveal(Reach::none_from);
        let start = Reach {
            seen: Seq::new(tris@.len(), |i: int| false),
            piece: Seq::new(tris@.len(), |i: int| 0usize),
            flip: Seq::new(tris@.len(), |i: int| false),
        };
        assert(f@ =~= start);
    }
    while next < n
        invariant
            n == tris@.len(),
            is_table(table@, tris@, (3 * tris@.len()) as nat),
            count <= next <= n,
            f@.sized(n as nat),
            f@.history(tris@, next as int, count as int),
            f@.none_from(count as int),
            walk_all(tris@, f@, next as nat, count as nat) == walk_of(tris@),
        decreases n - next,
    {
        if f.seen[next] {
            proof {
                lemma_pass(tris@, f@, next as int, count as int);
            }
        } else {
            flood_piece(tris, table, &mut f, next, count);
            count += 1;
        }
        next += 1;
    }
    proof {
        lemma_flood_done(tris@, f@, count as int);
    }
    (f.piece, f.flip, count)
}

} // verus!
