//! Trimming a triangulated face to its boundary.
//!
//! Every boundary segment is an edge of the triangulation, so the triangles
//! inside the face are found by flooding from one whose side is known, and
//! changing sides each time a boundary edge is crossed. That is exact for
//! nested holes and cannot disagree between neighbouring triangles the way
//! independent per-point tests can.

use vstd::prelude::*;
use vstd::set_lib::{lemma_int_range, lemma_len_subset, set_int_range};

use crate::text::push_signed;
use crate::value::NodeId;

verus! {

/// What lies across one side of a triangle.
#[derive(Debug, Clone, Copy, PartialEq, Eq, Structural)]
pub struct Side {
    /// The triangle there, if there is one.
    pub next: Option<usize>,
    /// Whether the boundary of the face runs along this side.
    pub wall: bool,
}

/// The triangles whose side is not known yet.
pub open spec fn unknown(state: Seq<Option<bool>>) -> Set<int> {
    Set::new(|f: int| 0 <= f < state.len() && state[f] is None)
}

/// There are at most as many triangles of unknown side as triangles, and one
/// fewer once the side of one is known.
pub proof fn lemma_unknown(state: Seq<Option<bool>>)
    ensures
        unknown(state).finite(),
        unknown(state).len() <= state.len(),
        forall|f: int, ins: bool|
            0 <= f < state.len() && state[f] is None ==> unknown(
                #[trigger] state.update(f, Some(ins)),
            ).len() < unknown(state).len(),
{
    lemma_int_range(0, state.len() as int);
    lemma_len_subset(unknown(state), set_int_range(0, state.len() as int));
    assert forall|f: int, ins: bool| 0 <= f < state.len() && state[f] is None implies unknown(
        #[trigger] state.update(f, Some(ins)),
    ).len() < unknown(state).len() by {
        assert(unknown(state.update(f, Some(ins))) =~= unknown(state).remove(f));
        assert(unknown(state).contains(f));
    }
}

/// What one side adds to the triangles waiting: the triangle across it, unless
/// its side is known, on the same side of the boundary or, across a wall, on
/// the other.
pub open spec fn beyond(side: Side, state: Seq<Option<bool>>, ins: bool) -> Seq<(int, bool)> {
    match side.next {
        Some(n) => if n < state.len() && state[n as int] is None {
            seq![(n as int, ins != side.wall)]
        } else {
            Seq::empty()
        },
        None => Seq::empty(),
    }
}

/// The sides of all triangles that can be reached, where those of some are
/// known and others wait, the last of them first.
pub open spec fn spread(
    adj: Seq<[Side; 3]>,
    state: Seq<Option<bool>>,
    waiting: Seq<(int, bool)>,
) -> Seq<Option<bool>>
    decreases unknown(state).len(), waiting.len(),
    via spread_decreases
{
    if waiting.len() == 0 {
        state
    } else {
        let (f, ins) = waiting.last();
        let rest = waiting.drop_last();
        if 0 <= f < state.len() && state[f] is None {
            let known = state.update(f, Some(ins));
            spread(
                adj,
                known,
                rest + beyond(adj[f]@[0], known, ins) + beyond(adj[f]@[1], known, ins) + beyond(
                    adj[f]@[2],
                    known,
                    ins,
                ),
            )
        } else {
            spread(adj, state, rest)
        }
    }
}

#[via_fn]
proof fn spread_decreases(
    adj: Seq<[Side; 3]>,
    state: Seq<Option<bool>>,
    waiting: Seq<(int, bool)>,
) {
    lemma_unknown(state);
    if waiting.len() > 0 {
        let (f, ins) = waiting.last();
        if 0 <= f < state.len() && state[f] is None {
            assert(unknown(state.update(f, Some(ins))).len() < unknown(state).len());
        }
    }
}

/// No side is known.
pub open spec fn blank(n: nat) -> Seq<Option<bool>> {
    Seq::new(n, |i: int| None)
}

/// The sides found from a seed.
pub open spec fn flooded_from(adj: Seq<[Side; 3]>, seed: Option<(usize, bool)>) -> Seq<
    Option<bool>,
> {
    match seed {
        Some((f, ins)) => spread(adj, blank(adj.len()), seq![(f as int, ins)]),
        None => blank(adj.len()),
    }
}

/// Triangles that wait, as numbers.
spec fn waits(waiting: Seq<(usize, bool)>) -> Seq<(int, bool)> {
    waiting.map_values(|w: (usize, bool)| (w.0 as int, w.1))
}

/// Let the triangle across one side wait.
fn wait(
    waiting: &mut Vec<(usize, bool)>,
    state: &Vec<Option<bool>>,
    side: Side,
    ins: bool,
)
    ensures
        waits(final(waiting)@) == waits(old(waiting)@) + beyond(side, state@, ins),
{
    let ghost before = waiting@;
    if let Some(n) = side.next {
        if n < state.len() && state[n].is_none() {
            waiting.push((n, ins != side.wall));
            assert(waits(waiting@) =~= waits(before).push((n as int, ins != side.wall)));
            assert(waits(waiting@) =~= waits(before) + beyond(side, state@, ins));
            return;
        }
    }
    assert(waits(waiting@) =~= waits(before) + beyond(side, state@, ins));
}

/// Which triangles are inside, found by flooding from a seed: a triangle and
/// whether it is inside. A triangle that the flood does not reach is not.
pub fn flood_inside(adj: &Vec<[Side; 3]>, seed: Option<(usize, bool)>) -> (r: Vec<bool>)
    ensures
        r@.len() == adj@.len(),
        forall|f: int|
            0 <= f < adj@.len() ==> #[trigger] r@[f] == (flooded_from(adj@, seed)[f] == Some(true)),
{
    let mut state: Vec<Option<bool>> = Vec::new();
    let mut i: usize = 0;
    while i < adj.len()
        invariant
            i <= adj@.len(),
            state@.len() == i,
            forall|k: int| 0 <= k < i ==> state@[k] is None,
        decreases adj@.len() - i,
    {
        state.push(None);
        i += 1;
    }
    assert(state@ =~= blank(adj@.len()));
    let mut waiting: Vec<(usize, bool)> = Vec::new();
    if let Some((f, ins)) = seed {
        waiting.push((f, ins));
        assert(waits(waiting@) =~= seq![(f as int, ins)]);
    } else {
        assert(waits(waiting@) =~= Seq::<(int, bool)>::empty());
    }
    loop
        invariant
            state@.len() == adj@.len(),
            spread(adj@, state@, waits(waiting@)) == flooded_from(adj@, seed),
        ensures
            state@.len() == adj@.len(),
            state@ == flooded_from(adj@, seed),
        decreases unknown(state@).len(), waiting@.len(),
    {
        let ghost before = waiting@;
        match waiting.pop() {
            None => {
                assert(waits(before) =~= Seq::<(int, bool)>::empty());
                break;
            },
            Some((f, ins)) => {
                proof {
                    assert(waits(before).last() == (f as int, ins));
                    assert(waits(before).drop_last() =~= waits(waiting@));
                    lemma_unknown(state@);
                }
                if f < state.len() && state[f].is_none() {
                    let ghost was = state@;
                    state.set(f, Some(ins));
                    assert(unknown(was.update(f as int, Some(ins))).len() < unknown(was).len());
                    let sides: [Side; 3] = adj[f];
                    wait(&mut waiting, &state, sides[0], ins);
                    wait(&mut waiting, &state, sides[1], ins);
                    wait(&mut waiting, &state, sides[2], ins);
                }
            },
        }
    }
    let mut out: Vec<bool> = Vec::new();
    let mut k: usize = 0;
    while k < state.len()
        invariant
            k <= state@.len(),
            out@.len() == k,
            forall|f: int| 0 <= f < k ==> #[trigger] out@[f] == (state@[f] == Some(true)),
        decreases state@.len() - k,
    {
        let ins: bool = match state[k] {
            Some(b) => b,
            None => false,
        };
        out.push(ins);
        k += 1;
    }
    out
}

/// Sides that agree: two triangles that share an edge are on the same side of
/// the boundary, unless it runs along that edge.
pub open spec fn sides_agree(adj: Seq<[Side; 3]>, side: spec_fn(int) -> bool) -> bool {
    forall|f: int, k: int|
        0 <= f < adj.len() && 0 <= k < 3 ==> match (#[trigger] adj[f]@[k]).next {
            Some(n) => n < adj.len() ==> side(n as int) == (side(f) != adj[f]@[k].wall),
            None => true,
        }
}

/// Flooding keeps to sides that agree.
proof fn lemma_spread_keeps_sides(
    adj: Seq<[Side; 3]>,
    state: Seq<Option<bool>>,
    waiting: Seq<(int, bool)>,
    side: spec_fn(int) -> bool,
    turned: bool,
)
    requires
        state.len() == adj.len(),
        sides_agree(adj, side),
        forall|f: int|
            0 <= f < adj.len() && #[trigger] state[f] is Some ==> state[f] == Some(
                side(f) != turned,
            ),
        forall|w: int|
            0 <= w < waiting.len() && 0 <= (#[trigger] waiting[w]).0 < adj.len() ==> waiting[w].1
                == (side(waiting[w].0) != turned),
    ensures
        spread(adj, state, waiting).len() == adj.len(),
        forall|f: int|
            0 <= f < adj.len() && #[trigger] spread(adj, state, waiting)[f] is Some ==> spread(
                adj,
                state,
                waiting,
            )[f] == Some(side(f) != turned),
    decreases unknown(state).len(), waiting.len(),
{
    lemma_unknown(state);
    if waiting.len() > 0 {
        let (f, ins) = waiting.last();
        let rest = waiting.drop_last();
        assert(waiting[waiting.len() - 1] == (f, ins));
        if 0 <= f < state.len() && state[f] is None {
            let known = state.update(f, Some(ins));
            let more = rest + beyond(adj[f]@[0], known, ins) + beyond(adj[f]@[1], known, ins)
                + beyond(adj[f]@[2], known, ins);
            assert(unknown(state.update(f, Some(ins))).len() < unknown(state).len());
            assert forall|w: int| 0 <= w < more.len() && 0 <= (#[trigger] more[w]).0 < adj.len() implies more[w].1
                == (side(more[w].0) != turned) by {
                if w < rest.len() {
                    assert(more[w] == waiting[w]);
                } else {
                    let a = adj[f]@[0];
                    let b = adj[f]@[1];
                    let c = adj[f]@[2];
                    assert(more[w] == beyond(a, known, ins)[0] || more[w] == beyond(
                        b,
                        known,
                        ins,
                    )[0] || more[w] == beyond(c, known, ins)[0]);
                }
            }
            lemma_spread_keeps_sides(adj, known, more, side, turned);
        } else {
            assert forall|w: int| 0 <= w < rest.len() && 0 <= (#[trigger] rest[w]).0 < adj.len() implies rest[w].1
                == (side(rest[w].0) != turned) by {
                assert(rest[w] == waiting[w]);
            }
            lemma_spread_keeps_sides(adj, state, rest, side, turned);
        }
    }
}

/// Where the triangles can be told inside from outside at all, and the seed's
/// side is right, every triangle that the flood reaches is told right: inside
/// changes to outside across the boundary and nowhere else.
pub proof fn lemma_flood_tells_sides(
    adj: Seq<[Side; 3]>,
    seed: usize,
    ins: bool,
    side: spec_fn(int) -> bool,
)
    requires
        seed < adj.len(),
        sides_agree(adj, side),
        ins == side(seed as int),
    ensures
        forall|f: int|
            0 <= f < adj.len() && #[trigger] flooded_from(adj, Some((seed, ins)))[f] is Some
                ==> flooded_from(adj, Some((seed, ins)))[f] == Some(side(f)),
{
    lemma_spread_keeps_sides(adj, blank(adj.len()), seq![(seed as int, ins)], side, false);
}

/// With the seed on the wrong side, every triangle is told wrong: the flood
/// gives the complement.
pub proof fn lemma_wrong_seed_gives_the_complement(
    adj: Seq<[Side; 3]>,
    seed: usize,
    ins: bool,
    side: spec_fn(int) -> bool,
)
    requires
        seed < adj.len(),
        sides_agree(adj, side),
        ins != side(seed as int),
    ensures
        forall|f: int|
            0 <= f < adj.len() && #[trigger] flooded_from(adj, Some((seed, ins)))[f] is Some
                ==> flooded_from(adj, Some((seed, ins)))[f] == Some(!side(f)),
{
    lemma_spread_keeps_sides(adj, blank(adj.len()), seq![(seed as int, ins)], side, true);
}

/// Every triangle across a side of a known one is known or waits.
spec fn closing(adj: Seq<[Side; 3]>, state: Seq<Option<bool>>, waiting: Seq<(int, bool)>) -> bool {
    forall|f: int, k: int|
        0 <= f < adj.len() && state[f] is Some && 0 <= k < 3 ==> match (
        #[trigger] adj[f]@[k]).next {
            Some(n) => n < adj.len() ==> state[n as int] is Some || awaited(waiting, n as int),
            None => true,
        }
}

/// A triangle waits.
spec fn awaited(waiting: Seq<(int, bool)>, n: int) -> bool {
    exists|w: int| 0 <= w < waiting.len() && (#[trigger] waiting[w]).0 == n
}

/// Flooding goes on until every triangle across a side of a known one is
/// known; what was known stays so.
proof fn lemma_spread_closes(
    adj: Seq<[Side; 3]>,
    state: Seq<Option<bool>>,
    waiting: Seq<(int, bool)>,
)
    requires
        state.len() == adj.len(),
        closing(adj, state, waiting),
    ensures
        spread(adj, state, waiting).len() == adj.len(),
        closing(adj, spread(adj, state, waiting), Seq::empty()),
        forall|f: int|
            0 <= f < adj.len() && #[trigger] state[f] is Some ==> spread(adj, state, waiting)[f]
                == state[f],
        forall|w: int|
            0 <= w < waiting.len() && 0 <= (#[trigger] waiting[w]).0 < adj.len() ==> spread(
                adj,
                state,
                waiting,
            )[waiting[w].0] is Some,
    decreases unknown(state).len(), waiting.len(),
{
    lemma_unknown(state);
    if waiting.len() > 0 {
        let (f, ins) = waiting.last();
        let rest = waiting.drop_last();
        assert(waiting[waiting.len() - 1] == (f, ins));
        if 0 <= f < state.len() && state[f] is None {
            let known = state.update(f, Some(ins));
            let first = beyond(adj[f]@[0], known, ins);
            let second = beyond(adj[f]@[1], known, ins);
            let third = beyond(adj[f]@[2], known, ins);
            let more = rest + first + second + third;
            assert(unknown(state.update(f, Some(ins))).len() < unknown(state).len());
            assert forall|g: int, k: int|
                0 <= g < adj.len() && known[g] is Some && 0 <= k < 3 implies match (
            #[trigger] adj[g]@[k]).next {
                Some(n) => n < adj.len() ==> known[n as int] is Some || awaited(more, n as int),
                None => true,
            } by {
                if let Some(n) = adj[g]@[k].next {
                    if n < adj.len() && known[n as int] is None {
                        if g != f {
                            assert(state[g] is Some);
                            assert(awaited(waiting, n as int));
                            let w = choose|w: int|
                                0 <= w < waiting.len() && (#[trigger] waiting[w]).0 == n as int;
                            assert(more[w] == waiting[w]);
                        } else {
                            let at = rest.len() + (if k == 0 {
                                0
                            } else if k == 1 {
                                first.len()
                            } else {
                                first.len() + second.len()
                            });
                            assert(more[at as int].0 == n as int);
                        }
                    }
                }
            }
            lemma_spread_closes(adj, known, more);
            assert forall|g: int| 0 <= g < adj.len() && #[trigger] state[g] is Some implies spread(
                adj,
                state,
                waiting,
            )[g] == state[g] by {
                assert(known[g] is Some);
            }
            assert forall|w: int| 0 <= w < waiting.len() && 0 <= (#[trigger] waiting[w]).0
                < adj.len() implies spread(adj, state, waiting)[waiting[w].0] is Some by {
                if w < rest.len() {
                    assert(more[w] == waiting[w]);
                } else {
                    assert(known[f] is Some);
                }
            }
        } else {
            assert forall|g: int, k: int|
                0 <= g < adj.len() && state[g] is Some && 0 <= k < 3 implies match (
            #[trigger] adj[g]@[k]).next {
                Some(n) => n < adj.len() ==> state[n as int] is Some || awaited(rest, n as int),
                None => true,
            } by {
                if let Some(n) = adj[g]@[k].next {
                    if n < adj.len() && state[n as int] is None {
                        assert(awaited(waiting, n as int));
                        let w = choose|w: int|
                            0 <= w < waiting.len() && (#[trigger] waiting[w]).0 == n as int;
                        assert(rest[w] == waiting[w]);
                    }
                }
            }
            lemma_spread_closes(adj, state, rest);
            assert forall|w: int| 0 <= w < waiting.len() && 0 <= (#[trigger] waiting[w]).0
                < adj.len() implies spread(adj, state, waiting)[waiting[w].0] is Some by {
                if w < rest.len() {
                    assert(rest[w] == waiting[w]);
                }
            }
        }
    }
}

/// The flood reaches its seed, and with a triangle every one that shares an
/// edge with it.
pub proof fn lemma_flood_reaches_neighbours(adj: Seq<[Side; 3]>, seed: usize, ins: bool)
    requires
        seed < adj.len(),
    ensures
        flooded_from(adj, Some((seed, ins)))[seed as int] is Some,
        forall|f: int, k: int|
            0 <= f < adj.len() && flooded_from(adj, Some((seed, ins)))[f] is Some && 0 <= k < 3
                ==> match (#[trigger] adj[f]@[k]).next {
                Some(n) => n < adj.len() ==> flooded_from(
                    adj,
                    Some((seed, ins)),
                )[n as int] is Some,
                None => true,
            },
{
    let waiting = seq![(seed as int, ins)];
    lemma_spread_closes(adj, blank(adj.len()), waiting);
    assert(waiting[0] == (seed as int, ins));
    let end = spread(adj, blank(adj.len()), waiting);
    assert(closing(adj, end, Seq::empty()));
}

// ---- what is left of the triangles ----

/// The triangles that are marked with `want`.
pub open spec fn marked(tris: Seq<[usize; 3]>, keep: Seq<bool>, want: bool) -> Seq<[usize; 3]>
    decreases tris.len(),
{
    if tris.len() == 0 {
        Seq::empty()
    } else {
        let before = marked(tris.drop_last(), keep, want);
        if keep[tris.len() - 1] == want {
            before.push(tris.last())
        } else {
            before
        }
    }
}

/// The triangles marked with `want`.
fn pick(tris: &[[usize; 3]], keep: &[bool], want: bool) -> (r: Vec<[usize; 3]>)
    requires
        keep@.len() == tris@.len(),
    ensures
        r@ == marked(tris@, keep@, want),
{
    let mut out: Vec<[usize; 3]> = Vec::new();
    let mut i: usize = 0;
    while i < tris.len()
        invariant
            i <= tris@.len(),
            keep@.len() == tris@.len(),
            out@ == marked(tris@.take(i as int), keep@, want),
        decreases tris@.len() - i,
    {
        assert(tris@.take(i + 1).drop_last() =~= tris@.take(i as int));
        if keep[i] == want {
            out.push(tris[i]);
        }
        i += 1;
    }
    assert(tris@.take(i as int) =~= tris@);
    out
}

/// True when any triangle is marked to be kept.
pub fn keeps_any(keep: &[bool]) -> (r: bool)
    ensures
        r == (exists|i: int| 0 <= i < keep@.len() && #[trigger] keep@[i]),
{
    let mut i: usize = 0;
    while i < keep.len()
        invariant
            i <= keep@.len(),
            forall|k: int| 0 <= k < i ==> !(#[trigger] keep@[k]),
        decreases keep@.len() - i,
    {
        if keep[i] {
            return true;
        }
        i += 1;
    }
    false
}

/// What is left of a face's triangles.
pub struct Trimmed {
    pub triangles: Vec<[usize; 3]>,
    /// Nothing was marked to be kept, and these are the others.
    pub flipped: bool,
}

/// The triangles of a face that are kept. An empty face is never right: where
/// none is marked, the anchor most likely landed on the wrong side (thin face)
/// and the complement is the best answer available. `None` where there is no
/// triangle at all.
pub fn trimmed(tris: &[[usize; 3]], keep: &[bool]) -> (r: Option<Trimmed>)
    requires
        keep@.len() == tris@.len(),
    ensures
        match r {
            Some(t) => {
                &&& tris@.len() > 0
                &&& t.triangles@.len() > 0
                &&& t.flipped == (marked(tris@, keep@, true).len() == 0)
                &&& t.triangles@ == marked(tris@, keep@, !t.flipped)
            },
            None => tris@.len() == 0,
        },
{
    let kept = pick(tris, keep, true);
    if kept.len() > 0 {
        assert(tris@.len() > 0);
        return Some(Trimmed { triangles: kept, flipped: false });
    }
    let others = pick(tris, keep, false);
    proof {
        lemma_marked(tris@, keep@);
    }
    if others.len() > 0 {
        return Some(Trimmed { triangles: others, flipped: true });
    }
    None
}

/// Every triangle is marked one way or the other.
pub proof fn lemma_marked(tris: Seq<[usize; 3]>, keep: Seq<bool>)
    ensures
        marked(tris, keep, true).len() + marked(tris, keep, false).len() == tris.len(),
    decreases tris.len(),
{
    if tris.len() > 0 {
        lemma_marked(tris.drop_last(), keep);
    }
}

/// A triangle wound the other way.
pub open spec fn rewound(t: [usize; 3]) -> Seq<usize> {
    seq![t@[0], t@[2], t@[1]]
}

/// Wind every triangle the other way.
pub fn rewind(tris: &mut Vec<[usize; 3]>)
    ensures
        final(tris)@.len() == old(tris)@.len(),
        forall|i: int|
            0 <= i < old(tris)@.len() ==> (#[trigger] final(tris)@[i])@ == rewound(old(tris)@[i]),
{
    let ghost start = tris@;
    let mut i: usize = 0;
    while i < tris.len()
        invariant
            i <= start.len(),
            tris@.len() == start.len(),
            forall|k: int| 0 <= k < i ==> (#[trigger] tris@[k])@ == rewound(start[k]),
            forall|k: int| i <= k < start.len() ==> tris@[k] == start[k],
        decreases start.len() - i,
    {
        let t: [usize; 3] = tris[i];
        let u: [usize; 3] = [t[0], t[2], t[1]];
        assert(u@ =~= rewound(t));
        tris.set(i, u);
        i += 1;
    }
}

// ---- the boundary ----

/// The links of one loop of `n` samples that begins at `base`: each sample to
/// the next, and the last to the first where the loop closes.
pub open spec fn ring(base: int, n: int, closes: bool) -> Seq<(int, int)> {
    let open = Seq::new(
        (if n > 0 {
            n - 1
        } else {
            0
        }) as nat,
        |k: int| (base + k, base + k + 1),
    );
    if n > 0 && closes {
        open.push((base + n - 1, base))
    } else {
        open
    }
}

/// How many samples loops have.
pub open spec fn samples(lens: Seq<usize>) -> int
    decreases lens.len(),
{
    if lens.len() == 0 {
        0
    } else {
        samples(lens.drop_last()) + lens.last()
    }
}

/// The links of loops whose samples are numbered through.
pub open spec fn rings(lens: Seq<usize>, closes: Seq<bool>) -> Seq<(int, int)>
    decreases lens.len(),
{
    if lens.len() == 0 {
        Seq::empty()
    } else {
        rings(lens.drop_last(), closes) + ring(
            samples(lens.drop_last()),
            lens.last() as int,
            closes[lens.len() - 1],
        )
    }
}

/// Links as numbers.
pub open spec fn link_views(links: Seq<(usize, usize)>) -> Seq<(int, int)> {
    links.map_values(|l: (usize, usize)| (l.0 as int, l.1 as int))
}

/// The samples that the boundary of a face links, loop by loop. A loop that
/// winds the period leaves the window at one edge and re-enters at the other;
/// closing it directly would slice across the face, so it stays open.
pub fn boundary_links(lens: &[usize], closes: &[bool]) -> (r: Vec<(usize, usize)>)
    requires
        closes@.len() == lens@.len(),
        samples(lens@) <= usize::MAX,
    ensures
        link_views(r@) == rings(lens@, closes@),
{
    let mut out: Vec<(usize, usize)> = Vec::new();
    let mut base: usize = 0;
    let mut i: usize = 0;
    assert(link_views(out@) =~= rings(lens@.take(0), closes@));
    while i < lens.len()
        invariant
            i <= lens@.len(),
            closes@.len() == lens@.len(),
            samples(lens@) <= usize::MAX,
            base == samples(lens@.take(i as int)),
            link_views(out@) == rings(lens@.take(i as int), closes@),
        decreases lens@.len() - i,
    {
        let n: usize = lens[i];
        proof {
            assert(lens@.take(i + 1).drop_last() =~= lens@.take(i as int));
            lemma_samples_grow(lens@, i + 1);
        }
        let ghost before = out@;
        let mut k: usize = 0;
        assert(link_views(out@) =~= link_views(before) + ring(base as int, 0, false));
        while k + 1 < n
            invariant
                k < n || k == 0,
                base + n <= usize::MAX,
                link_views(out@) == link_views(before) + ring(base as int, k + 1, false),
            decreases n - k,
        {
            let ghost prior = out@;
            out.push((base + k, base + k + 1));
            assert(link_views(out@) =~= link_views(prior).push(
                ((base + k) as int, (base + k + 1) as int),
            ));
            assert(ring(base as int, k + 2, false) =~= ring(base as int, k + 1, false).push(
                ((base + k) as int, (base + k + 1) as int),
            ));
            assert(link_views(out@) =~= link_views(before) + ring(base as int, k + 2, false));
            k += 1;
        }
        if n > 0 {
            if closes[i] {
                let ghost prior = out@;
                out.push((base + (n - 1), base));
                assert(link_views(out@) =~= link_views(prior).push(
                    ((base + n - 1) as int, base as int),
                ));
            }
            assert(link_views(out@) =~= link_views(before) + ring(base as int, n as int, closes@[i as int]));
        } else {
            assert(link_views(out@) =~= link_views(before) + ring(base as int, n as int, closes@[i as int]));
        }
        base += n;
        i += 1;
    }
    assert(lens@.take(i as int) =~= lens@);
    out
}

/// Fewer loops have no more samples.
proof fn lemma_samples_grow(lens: Seq<usize>, n: int)
    requires
        0 <= n <= lens.len(),
    ensures
        0 <= samples(lens.take(n)) <= samples(lens),
    decreases lens.len(),
{
    if n < lens.len() {
        lemma_samples_grow(lens.drop_last(), n);
        assert(lens.drop_last().take(n) =~= lens.take(n));
    } else {
        assert(lens.take(n) =~= lens);
        if lens.len() > 0 {
            lemma_samples_grow(lens.drop_last(), n - 1);
        }
    }
}

// ---- what is said of a face ----

/// What can be worth saying of a face.
#[derive(Debug, Clone, Copy, PartialEq, Eq, Structural)]
pub enum FaceNote {
    NoSurface,
    OpenSurface,
    TooFewPoints,
    NoTriangulation,
    FloodKeptNothing,
    NothingSurvived,
    AnchorFlipped,
}

/// What a note says.
pub open spec fn note_words(note: FaceNote) -> Seq<char> {
    match note {
        FaceNote::NoSurface => ": no surface and no loops; skipped"@,
        FaceNote::OpenSurface => ": open surface with no loops; skipped"@,
        FaceNote::TooFewPoints => ": too few points; skipped"@,
        FaceNote::NoTriangulation => ": triangulation failed; skipped"@,
        FaceNote::FloodKeptNothing => ": flood fill kept nothing; per-triangle trim"@,
        FaceNote::NothingSurvived => ": no triangles survived classification"@,
        FaceNote::AnchorFlipped => ": parity anchor flipped (thin face?)"@,
    }
}

/// A note on a face, in words.
pub fn face_note(face: NodeId, note: FaceNote) -> (r: String)
    ensures
        r@ == "face #"@ + crate::text::signed_decimal(face as int) + note_words(note),
{
    let mut s = "face #".to_owned();
    push_signed(&mut s, face as i64);
    match note {
        FaceNote::NoSurface => s.append(": no surface and no loops; skipped"),
        FaceNote::OpenSurface => s.append(": open surface with no loops; skipped"),
        FaceNote::TooFewPoints => s.append(": too few points; skipped"),
        FaceNote::NoTriangulation => s.append(": triangulation failed; skipped"),
        FaceNote::FloodKeptNothing => s.append(": flood fill kept nothing; per-triangle trim"),
        FaceNote::NothingSurvived => s.append(": no triangles survived classification"),
        FaceNote::AnchorFlipped => s.append(": parity anchor flipped (thin face?)"),
    }
    s
}

/// The note on a face whose surface cannot be evaluated, in words.
pub fn plane_note(face: NodeId, surface: Option<&str>) -> (r: String)
    ensures
        r@ == "face #"@ + crate::text::signed_decimal(face as int) + " ("@ + (match surface {
            Some(kind) => kind@,
            None => "?"@,
        }) + "): best-fit-plane fallback"@,
{
    let mut s = "face #".to_owned();
    push_signed(&mut s, face as i64);
    s.append(" (");
    match surface {
        Some(kind) => s.append(kind),
        None => s.append("?"),
    }
    s.append("): best-fit-plane fallback");
    s
}

/// What a face is triangulated on.
#[derive(Debug, Clone, Copy, PartialEq, Eq, Structural)]
pub enum Footing {
    /// Its own surface.
    Surface,
    /// The plane that fits its boundary best.
    Plane,
    /// Nothing: it is skipped, with this note.
    Skipped(FaceNote),
}

/// What a face is triangulated on, by whether its surface can be evaluated, by
/// how many boundary loops it has, and by whether the surface closes in both
/// directions.
pub fn footing(has_surface: bool, loops: usize, closed_both_ways: bool) -> (r: Footing)
    ensures
        r == (if !has_surface {
            if loops == 0 {
                Footing::Skipped(FaceNote::NoSurface)
            } else {
                Footing::Plane
            }
        } else if loops == 0 && !closed_both_ways {
            Footing::Skipped(FaceNote::OpenSurface)
        } else {
            Footing::Surface
        }),
{
    if !has_surface {
        if loops == 0 {
            Footing::Skipped(FaceNote::NoSurface)
        } else {
            Footing::Plane
        }
    } else if loops == 0 && !closed_both_ways {
        Footing::Skipped(FaceNote::OpenSurface)
    } else {
        Footing::Surface
    }
}

/// Where the samples of loop `l` begin: behind those of the loops before it.
pub open spec fn loop_start(lens: Seq<usize>, l: int) -> int {
    lens.take(l).fold_left(0int, |sum: int, n: usize| sum + n)
}

proof fn lemma_samples_sum(lens: Seq<usize>)
    ensures
        samples(lens) == lens.fold_left(0int, |sum: int, n: usize| sum + n),
    decreases lens.len(),
{
    if lens.len() > 0 {
        lemma_samples_sum(lens.drop_last());
    }
}

/// The links of one loop go round it: there is one from each sample, but for the
/// last of a loop that does not close.
proof fn lemma_ring(base: int, n: int, closes: bool)
    requires
        0 <= n,
    ensures
        ring(base, n, closes).len() == if closes || n == 0 {
            n
        } else {
            n - 1
        },
        forall|i: int|
            0 <= i < ring(base, n, closes).len() ==> (#[trigger] ring(base, n, closes)[i]) == (
                base + i,
                base + (i + 1) % n,
            ),
{
    let r = ring(base, n, closes);
    assert forall|i: int| 0 <= i < r.len() implies (#[trigger] r[i]) == (
        base + i,
        base + (i + 1) % n,
    ) by {
        if i < n - 1 {
            vstd::arithmetic::div_mod::lemma_small_mod((i + 1) as nat, n as nat);
        } else {
            vstd::arithmetic::div_mod::lemma_mod_self_0(n);
        }
    }
}

/// Every loop is linked to itself alone, sample by sample. A link that leaves a
/// sample of a loop ends at the next sample of that loop, the last one being
/// followed by the first; there is one from every sample of a loop that closes,
/// and from all but the last of one that does not. So no link joins samples of
/// two loops, and no boundary slices across the face.
pub proof fn lemma_loops_are_linked_to_themselves(lens: Seq<usize>, closes: Seq<bool>, l: int)
    requires
        closes.len() == lens.len(),
        0 <= l < lens.len(),
    ensures
        ({
            let links = rings(lens, closes);
            let s = loop_start(lens, l);
            let n = lens[l] as int;
            &&& forall|a: int|
                s <= a < s + n && (closes[l] || a + 1 < s + n) ==> #[trigger] links.contains(
                    (a, s + (a - s + 1) % n),
                )
            &&& forall|i: int|
                0 <= i < links.len() && s <= (#[trigger] links[i]).0 < s + n ==> links[i].1 == s + (
                links[i].0 - s + 1) % n && (closes[l] || links[i].0 + 1 < s + n)
        }),
    decreases lens.len(),
{
    let links = rings(lens, closes);
    let few = lens.drop_last();
    let before = rings(few, closes);
    let base = samples(few);
    let last = ring(base, lens.last() as int, closes[lens.len() - 1]);
    assert(links == before + last);
    lemma_samples_sum(few);
    assert(few =~= lens.take(lens.len() - 1));
    assert(base == loop_start(lens, lens.len() - 1));
    lemma_ring(base, lens.last() as int, closes[lens.len() - 1]);
    lemma_links_stay_below(few, closes);
    let s = loop_start(lens, l);
    let n = lens[l] as int;
    if l < lens.len() - 1 {
        assert(few.take(l) =~= lens.take(l));
        lemma_rings_prefix(few, closes.drop_last(), closes);
        lemma_loops_are_linked_to_themselves(few, closes.drop_last(), l);
        lemma_loop_below(few, l);
        assert forall|a: int|
            s <= a < s + n && (closes[l] || a + 1 < s + n) implies #[trigger] links.contains(
            (a, s + (a - s + 1) % n),
        ) by {
            assert(before.contains((a, s + (a - s + 1) % n)));
            let i = choose|i: int| 0 <= i < before.len() && before[i] == (a, s + (a - s + 1) % n);
            assert(links[i] == before[i]);
        }
        assert forall|i: int|
            0 <= i < links.len() && s <= (#[trigger] links[i]).0 < s + n implies links[i].1 == s + (
        links[i].0 - s + 1) % n && (closes[l] || links[i].0 + 1 < s + n) by {
            if i < before.len() {
                assert(links[i] == before[i]);
            } else {
                assert(links[i] == last[i - before.len()]);
                assert(links[i].0 >= base);
            }
        }
    } else {
        assert forall|a: int|
            s <= a < s + n && (closes[l] || a + 1 < s + n) implies #[trigger] links.contains(
            (a, s + (a - s + 1) % n),
        ) by {
            assert(last[a - s] == (a, s + (a - s + 1) % n));
            assert(links[before.len() + (a - s)] == last[a - s]);
        }
        assert forall|i: int|
            0 <= i < links.len() && s <= (#[trigger] links[i]).0 < s + n implies links[i].1 == s + (
        links[i].0 - s + 1) % n && (closes[l] || links[i].0 + 1 < s + n) by {
            if i < before.len() {
                assert(links[i] == before[i]);
                assert(before[i].0 < base);
            } else {
                assert(links[i] == last[i - before.len()]);
            }
        }
    }
}

/// Every link leaves a sample of some loop, no two the same one, and they come in
/// the order of the samples.
pub proof fn lemma_one_link_from_each_sample(lens: Seq<usize>, closes: Seq<bool>)
    requires
        closes.len() == lens.len(),
    ensures
        forall|i: int|
            0 <= i < rings(lens, closes).len() ==> 0 <= (#[trigger] rings(lens, closes)[i]).0
                < loop_start(lens, lens.len() as int),
        forall|i: int, k: int|
            0 <= i < k < rings(lens, closes).len() ==> (#[trigger] rings(lens, closes)[i]).0 < (
            #[trigger] rings(lens, closes)[k]).0,
{
    lemma_links_stay_below(lens, closes);
    lemma_samples_sum(lens);
    assert(lens.take(lens.len() as int) =~= lens);
}

proof fn lemma_rings_prefix(lens: Seq<usize>, a: Seq<bool>, b: Seq<bool>)
    requires
        lens.len() <= a.len(),
        lens.len() <= b.len(),
        forall|i: int| 0 <= i < lens.len() ==> a[i] == b[i],
    ensures
        rings(lens, a) == rings(lens, b),
    decreases lens.len(),
{
    if lens.len() > 0 {
        lemma_rings_prefix(lens.drop_last(), a, b);
    }
}

proof fn lemma_loop_below(lens: Seq<usize>, l: int)
    requires
        0 <= l < lens.len(),
    ensures
        0 <= loop_start(lens, l),
        loop_start(lens, l) + lens[l] <= samples(lens),
{
    lemma_samples_grow(lens, l);
    lemma_samples_grow(lens, l + 1);
    lemma_samples_sum(lens.take(l));
    assert(lens.take(l + 1).drop_last() =~= lens.take(l));
}

proof fn lemma_links_stay_below(lens: Seq<usize>, closes: Seq<bool>)
    requires
        lens.len() <= closes.len(),
    ensures
        0 <= samples(lens),
        forall|i: int|
            0 <= i < rings(lens, closes).len() ==> 0 <= (#[trigger] rings(lens, closes)[i]).0
                < samples(lens),
        forall|i: int, k: int|
            0 <= i < k < rings(lens, closes).len() ==> (#[trigger] rings(lens, closes)[i]).0 < (
            #[trigger] rings(lens, closes)[k]).0,
    decreases lens.len(),
{
    if lens.len() > 0 {
        let few = lens.drop_last();
        lemma_links_stay_below(few, closes);
        let before = rings(few, closes);
        let base = samples(few);
        let last = ring(base, lens.last() as int, closes[lens.len() - 1]);
        lemma_ring(base, lens.last() as int, closes[lens.len() - 1]);
        let all = rings(lens, closes);
        assert(all == before + last);
        assert forall|i: int| 0 <= i < all.len() implies 0 <= (#[trigger] all[i]).0 < samples(
            lens,
        ) by {
            if i < before.len() {
                assert(all[i] == before[i]);
            } else {
                assert(all[i] == last[i - before.len()]);
            }
        }
        assert forall|i: int, k: int| 0 <= i < k < all.len() implies (#[trigger] all[i]).0 < (
        #[trigger] all[k]).0 by {
            if k < before.len() {
                assert(all[i] == before[i] && all[k] == before[k]);
            } else {
                assert(all[k] == last[k - before.len()]);
                if i < before.len() {
                    assert(all[i] == before[i]);
                } else {
                    assert(all[i] == last[i - before.len()]);
                }
            }
        }
    }
}

} // verus!
