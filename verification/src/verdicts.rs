//! What holds of every comparison of two revisions.

use vstd::prelude::*;
use vstd::relations::injective_on;
use vstd::set_lib::{
    lemma_int_range, lemma_len_subset, lemma_map_size, lemma_map_size_bound, lemma_subset_equality,
    set_int_range,
};

use crate::diff::{
    all_moves, all_paired, all_unchanged, gap, ids, judged, last_free, lemma_last_free,
    lemma_moves_grow, lemma_nearest, moves, nearest, paired, sigs, with_verdict, Change,
    FaceSig, SigView,
};
use crate::value::NodeId;

verus! {

/// No two entries name the same face.
spec fn one_each(partners: Seq<Option<int>>) -> bool {
    forall|i: int, k: int|
        0 <= i < k < partners.len() && #[trigger] partners[i] is Some ==> partners[i]
            != #[trigger] partners[k]
}

/// Partners have the same signature, and no face is the partner of two.
proof fn lemma_paired(a: Seq<SigView>, b: Seq<SigView>, n: int)
    requires
        0 <= n <= a.len(),
    ensures
        paired(a, b, n).len() == n,
        one_each(paired(a, b, n)),
        forall|i: int|
            0 <= i < n && #[trigger] paired(a, b, n)[i] is Some ==> 0 <= paired(a, b, n)[i]->0
                < b.len() && b[paired(a, b, n)[i]->0] == a[i],
    decreases n,
{
    if n > 0 {
        lemma_paired(a, b, n - 1);
        let before = paired(a, b, n - 1);
        let choice = last_free(b, a[n - 1], before, b.len() as int);
        lemma_last_free(b, a[n - 1], before, b.len() as int);
        assert(paired(a, b, n) == before.push(choice));
        assert forall|i: int, k: int|
            0 <= i < k < n && #[trigger] paired(a, b, n)[i] is Some implies paired(a, b, n)[i]
            != #[trigger] paired(a, b, n)[k] by {
            if k == n - 1 && paired(a, b, n)[i] == paired(a, b, n)[k] {
                assert(before[i] == choice);
                assert(before.contains(choice));
            } else {
                assert(before[i] is Some);
                assert(paired(a, b, n)[k] == paired(a, b, n)[k]);
            }
        }
    }
}

/// An old face moves to a new one that is not unchanged, and no two move to
/// the same; one that is unchanged does not move.
proof fn lemma_moved(
    a: Seq<SigView>,
    b: Seq<SigView>,
    gaps: Seq<Vec<Option<u64>>>,
    same: Seq<Option<int>>,
    n: int,
)
    requires
        0 <= n <= a.len(),
    ensures
        moves(a, b, gaps, same, n).len() == n,
        one_each(moves(a, b, gaps, same, n)),
        forall|i: int|
            0 <= i < n && #[trigger] moves(a, b, gaps, same, n)[i] is Some ==> same[i] is None && 0
                <= moves(a, b, gaps, same, n)[i]->0 < b.len() && !same.contains(
                moves(a, b, gaps, same, n)[i],
            ),
    decreases n,
{
    if n > 0 {
        lemma_moved(a, b, gaps, same, n - 1);
        let before = moves(a, b, gaps, same, n - 1);
        let after = moves(a, b, gaps, same, n);
        let choice: Option<int> = if same[n - 1] is Some {
            None
        } else {
            nearest(a, b, gaps, same, before, n - 1, b.len() as int)
        };
        lemma_nearest(a, b, gaps, same, before, n - 1, b.len() as int);
        assert(after == before.push(choice));
        assert forall|i: int, k: int|
            0 <= i < k < n && #[trigger] after[i] is Some implies after[i] != #[trigger] after[k] by {
            if k == n - 1 && after[i] == after[k] {
                assert(before[i] == choice);
                assert(before.contains(choice));
            } else {
                assert(before[i] is Some);
            }
        }
    }
}

/// Where an id stands among distinct ids.
proof fn lemma_place(s: Seq<NodeId>, k: NodeId)
    requires
        s.to_set().contains(k),
    ensures
        0 <= s.index_of(k) < s.len(),
        s[s.index_of(k)] == k,
{
    assert(s.contains(k));
}

/// As many faces on one side as on the other, where each face of the one side
/// has a partner on the other and each partner is a partner of one.
proof fn lemma_as_many(
    old: Seq<FaceSig>,
    new: Seq<FaceSig>,
    partners: Seq<Option<int>>,
    left: Set<NodeId>,
    right: Set<NodeId>,
)
    requires
        ids(old).no_duplicates(),
        ids(new).no_duplicates(),
        partners.len() == old.len(),
        one_each(partners),
        forall|i: int|
            0 <= i < old.len() && #[trigger] partners[i] is Some ==> 0 <= partners[i]->0
                < new.len(),
        forall|k: NodeId| #[trigger] left.contains(k) ==> ids(old).contains(k),
        forall|k: NodeId| #[trigger] right.contains(k) ==> ids(new).contains(k),
        forall|i: int|
            0 <= i < old.len() ==> left.contains((#[trigger] old[i]).id) == (partners[i] is Some),
        forall|j: int|
            0 <= j < new.len() ==> right.contains((#[trigger] new[j]).id) == partners.contains(
                Some(j),
            ),
    ensures
        left.finite(),
        right.finite(),
        left.len() == right.len(),
{
    let a = ids(old);
    let b = ids(new);
    let f = |k: NodeId| b[partners[a.index_of(k)]->0];
    assert(left.subset_of(a.to_set()));
    assert(a.to_set().finite()) by {
        vstd::seq_lib::seq_to_set_is_finite(a);
    }
    lemma_len_subset(left, a.to_set());
    assert forall|k: NodeId| left.contains(k) implies {
        let i = #[trigger] a.index_of(k);
        &&& 0 <= i < old.len()
        &&& old[i].id == k
        &&& partners[i] is Some
    } by {
        lemma_place(a, k);
        let i = a.index_of(k);
        assert(old[i].id == k);
    }
    assert(injective_on(f, left)) by {
        assert forall|x: NodeId, y: NodeId|
            left.contains(x) && left.contains(y) && #[trigger] f(x) == #[trigger] f(
                y,
            ) implies x == y by {
            let i = a.index_of(x);
            let k = a.index_of(y);
            let p = partners[i];
            let q = partners[k];
            assert(b[p->0] == b[q->0]);
            assert(p == q);
        }
    }
    assert(left.map(f) =~= right) by {
        assert forall|y: NodeId| left.map(f).contains(y) implies right.contains(y) by {
            let x = choose|x: NodeId| left.contains(x) && y == f(x);
            let i = a.index_of(x);
            let j = partners[i]->0;
            assert(partners[i] == Some(j));
            assert(new[j].id == y);
        }
        assert forall|y: NodeId| right.contains(y) implies left.map(f).contains(y) by {
            lemma_place(b, y);
            let j = b.index_of(y);
            assert(new[j].id == y);
            let i = choose|i: int| 0 <= i < partners.len() && partners[i] == Some(j);
            let x = old[i].id;
            assert(left.contains(x));
            lemma_place(a, x);
            assert(a[i] == x);
            assert(a.index_of(x) == i);
            assert(f(x) == y);
        }
    }
    lemma_map_size(left, right, f);
}

/// Faces of the older revision are only ever unchanged, moved or removed, and
/// those of the newer one unchanged, moved or added; every face has a verdict.
pub proof fn lemma_verdicts_by_side(
    old: Seq<FaceSig>,
    new: Seq<FaceSig>,
    gaps: Seq<Vec<Option<u64>>>,
    old_side: Map<NodeId, Change>,
    new_side: Map<NodeId, Change>,
)
    requires
        judged(old, new, gaps, old_side, new_side),
    ensures
        forall|i: int| 0 <= i < old.len() ==> old_side.contains_key((#[trigger] old[i]).id),
        forall|j: int| 0 <= j < new.len() ==> new_side.contains_key((#[trigger] new[j]).id),
        forall|k: NodeId| #[trigger]
            old_side.contains_key(k) ==> old_side[k] != Change::Added,
        forall|k: NodeId| #[trigger]
            new_side.contains_key(k) ==> new_side[k] != Change::Removed,
{
    assert forall|i: int| 0 <= i < old.len() implies old_side.contains_key(
        (#[trigger] old[i]).id,
    ) by {
        assert(ids(old)[i] == old[i].id);
        assert(ids(old).to_set().contains(old[i].id));
    }
    assert forall|j: int| 0 <= j < new.len() implies new_side.contains_key(
        (#[trigger] new[j]).id,
    ) by {
        assert(ids(new)[j] == new[j].id);
        assert(ids(new).to_set().contains(new[j].id));
    }
    assert forall|k: NodeId| #[trigger] old_side.contains_key(k) implies old_side[k]
        != Change::Added by {
        lemma_place(ids(old), k);
        assert(old[ids(old).index_of(k)].id == k);
    }
    assert forall|k: NodeId| #[trigger] new_side.contains_key(k) implies new_side[k]
        != Change::Removed by {
        lemma_place(ids(new), k);
        assert(new[ids(new).index_of(k)].id == k);
    }
}

/// As many faces are unchanged on one side as on the other, and as many moved.
pub proof fn lemma_counts_agree(
    old: Seq<FaceSig>,
    new: Seq<FaceSig>,
    gaps: Seq<Vec<Option<u64>>>,
    old_side: Map<NodeId, Change>,
    new_side: Map<NodeId, Change>,
)
    requires
        ids(old).no_duplicates(),
        ids(new).no_duplicates(),
        judged(old, new, gaps, old_side, new_side),
    ensures
        with_verdict(old_side, Change::Unchanged).len() == with_verdict(
            new_side,
            Change::Unchanged,
        ).len(),
        with_verdict(old_side, Change::Moved).len() == with_verdict(new_side, Change::Moved).len(),
{
    let a = sigs(old);
    let b = sigs(new);
    let same = all_paired(a, b);
    let moved = all_moves(a, b, gaps);
    let n = a.len() as int;
    lemma_paired(a, b, n);
    lemma_moved(a, b, gaps, same, n);
    lemma_verdicts_by_side(old, new, gaps, old_side, new_side);
    assert forall|c: Change, k: NodeId| #[trigger]
        with_verdict(old_side, c).contains(k) implies ids(old).contains(k) by {
        assert(ids(old).to_set().contains(k));
    }
    assert forall|c: Change, k: NodeId| #[trigger]
        with_verdict(new_side, c).contains(k) implies ids(new).contains(k) by {
        assert(ids(new).to_set().contains(k));
    }
    assert forall|j: int| 0 <= j < new.len() && moved.contains(Some(j)) implies !same.contains(
        Some(j),
    ) by {
        let i = choose|i: int| 0 <= i < moved.len() && moved[i] == Some(j);
        assert(moved[i] is Some);
    }
    lemma_as_many(
        old,
        new,
        same,
        with_verdict(old_side, Change::Unchanged),
        with_verdict(new_side, Change::Unchanged),
    );
    lemma_as_many(
        old,
        new,
        moved,
        with_verdict(old_side, Change::Moved),
        with_verdict(new_side, Change::Moved),
    );
}

/// Where a signature stands in a list.
spec fn places(s: Seq<SigView>, sig: SigView) -> Set<int> {
    Set::new(|i: int| 0 <= i < s.len() && s[i] == sig)
}

/// A signature stands in as many places as it is counted.
proof fn lemma_places(s: Seq<SigView>, sig: SigView)
    ensures
        places(s, sig).finite(),
        places(s, sig).len() == s.to_multiset().count(sig),
    decreases s.len(),
{
    if s.len() == 0 {
        assert(places(s, sig) =~= Set::<int>::empty());
        s.to_multiset_ensures();
        assert(!s.contains(sig));
    } else {
        let shorter = s.drop_last();
        lemma_places(shorter, sig);
        shorter.to_multiset_ensures();
        assert(s =~= shorter.push(s.last()));
        assert(s.to_multiset() == shorter.to_multiset().insert(s.last()));
        if s.last() == sig {
            assert(places(s, sig) =~= places(shorter, sig).insert(s.len() - 1));
            assert(!places(shorter, sig).contains(s.len() - 1));
        } else {
            assert(places(s, sig) =~= places(shorter, sig));
        }
    }
}

/// With the same signatures on both sides every old face finds a partner.
proof fn lemma_all_find_partners(a: Seq<SigView>, b: Seq<SigView>, n: int)
    requires
        a.to_multiset() == b.to_multiset(),
        0 <= n <= a.len(),
    ensures
        forall|i: int| 0 <= i < n ==> #[trigger] paired(a, b, n)[i] is Some,
    decreases n,
{
    if n > 0 {
        lemma_all_find_partners(a, b, n - 1);
        lemma_paired(a, b, n - 1);
        let before = paired(a, b, n - 1);
        let sig = a[n - 1];
        let choice = last_free(b, sig, before, b.len() as int);
        lemma_last_free(b, sig, before, b.len() as int);
        assert(paired(a, b, n) == before.push(choice));
        if choice is None {
            lemma_places(a, sig);
            lemma_places(b, sig);
            // each place in the new list is taken by an earlier place in the old one
            let earlier = places(a, sig).remove(n - 1);
            let f = |i: int| before[i]->0;
            assert(places(a, sig).contains(n - 1));
            let taken = earlier.filter(|i: int| i < n - 1);
            lemma_len_subset(taken, earlier);
            assert(places(b, sig).subset_of(taken.map(f))) by {
                assert forall|j: int| places(b, sig).contains(j) implies taken.map(f).contains(
                    j,
                ) by {
                    assert(before.contains(Some(j)));
                    let i = choose|i: int| 0 <= i < before.len() && before[i] == Some(j);
                    assert(before[i] is Some);
                    assert(taken.contains(i));
                    assert(f(i) == j);
                }
            }
            lemma_map_size_bound(taken, taken.map(f), f);
            lemma_len_subset(places(b, sig), taken.map(f));
            assert(false);
        }
    }
}

/// With the same signatures on both sides every new face is a partner.
proof fn lemma_all_are_partners(a: Seq<SigView>, b: Seq<SigView>)
    requires
        a.to_multiset() == b.to_multiset(),
    ensures
        forall|j: int| 0 <= j < b.len() ==> #[trigger] all_paired(a, b).contains(Some(j)),
{
    let n = a.len() as int;
    let same = all_paired(a, b);
    a.to_multiset_ensures();
    b.to_multiset_ensures();
    assert(a.len() == b.len());
    lemma_all_find_partners(a, b, n);
    lemma_paired(a, b, n);
    let left = set_int_range(0, n);
    let f = |i: int| same[i]->0;
    lemma_int_range(0, n);
    assert(injective_on(f, left)) by {
        assert forall|x: int, y: int|
            left.contains(x) && left.contains(y) && #[trigger] f(x) == #[trigger] f(
                y,
            ) implies x == y by {
            let p = same[x];
            let q = same[y];
            assert(p == q);
        }
    }
    lemma_map_size(left, left.map(f), f);
    assert(left.map(f).subset_of(left)) by {
        assert forall|y: int| left.map(f).contains(y) implies left.contains(y) by {
            let x = choose|x: int| left.contains(x) && y == f(x);
            assert(same[x] is Some);
        }
    }
    lemma_subset_equality(left.map(f), left);
    assert forall|j: int| 0 <= j < b.len() implies #[trigger] same.contains(Some(j)) by {
        assert(left.contains(j));
        assert(left.map(f).contains(j));
        let x = choose|x: int| left.contains(x) && j == f(x);
        assert(same[x] is Some);
        assert(same[x] == Some(j));
    }
}

/// A part compared with itself, or with any rebuild whose faces have the same
/// signatures, in whatever order they stand and under whatever ids, shows no
/// difference.
pub proof fn lemma_same_faces_are_identical(
    old: Seq<FaceSig>,
    new: Seq<FaceSig>,
    gaps: Seq<Vec<Option<u64>>>,
    old_side: Map<NodeId, Change>,
    new_side: Map<NodeId, Change>,
)
    requires
        judged(old, new, gaps, old_side, new_side),
        sigs(old).to_multiset() == sigs(new).to_multiset(),
    ensures
        all_unchanged(old_side),
        all_unchanged(new_side),
{
    let a = sigs(old);
    let b = sigs(new);
    lemma_all_find_partners(a, b, a.len() as int);
    lemma_all_are_partners(a, b);
    assert forall|k: NodeId| #[trigger] old_side.contains_key(k) implies old_side[k]
        == Change::Unchanged by {
        lemma_place(ids(old), k);
        let i = ids(old).index_of(k);
        assert(old[i].id == k);
        assert(all_paired(a, b)[i] is Some);
    }
    assert forall|k: NodeId| #[trigger] new_side.contains_key(k) implies new_side[k]
        == Change::Unchanged by {
        lemma_place(ids(new), k);
        let j = ids(new).index_of(k);
        assert(new[j].id == k);
        assert(all_paired(a, b).contains(Some(j)));
    }
}


/// The distance from the old face `i` to the new face `k`, where they compare.
pub open spec fn distance(gaps: Seq<Vec<Option<u64>>>, i: int, k: int) -> Option<u64> {
    if i < gaps.len() && k < gaps[i]@.len() {
        gaps[i]@[k]
    } else {
        None
    }
}

/// The old face `i` can have moved to the new face `k`: the two have the same
/// type of surface and a distance, `k` is no partner of an old face, and no old
/// face before `i` moved to it.
pub open spec fn open_to(
    old: Seq<SigView>,
    new: Seq<SigView>,
    gaps: Seq<Vec<Option<u64>>>,
    i: int,
    k: int,
) -> bool {
    &&& 0 <= k < new.len()
    &&& new[k].surface == old[i].surface
    &&& distance(gaps, i, k) is Some
    &&& forall|o: int|
        0 <= o < old.len() ==> (#[trigger] all_paired(old, new)[o]) != Some(k)
    &&& forall|o: int|
        0 <= o < i ==> (#[trigger] all_moves(old, new, gaps)[o]) != Some(k)
}

proof fn lemma_nearest_is_least(
    old: Seq<SigView>,
    new: Seq<SigView>,
    gaps: Seq<Vec<Option<u64>>>,
    same: Seq<Option<int>>,
    moved: Seq<Option<int>>,
    i: int,
    n: int,
)
    requires
        0 <= i,
        0 <= n <= new.len(),
    ensures
        match nearest(old, new, gaps, same, moved, i, n) {
            Some(j) => {
                &&& 0 <= j < n
                &&& free_for(old, new, gaps, same, moved, i, j)
                &&& forall|k: int| 0 <= k < n && #[trigger] free_for(
                    old,
                    new,
                    gaps,
                    same,
                    moved,
                    i,
                    k,
                ) ==> distance(gaps, i, k)->0 >= distance(gaps, i, j)->0 && (k < j ==> distance(
                    gaps,
                    i,
                    k,
                )->0 > distance(gaps, i, j)->0)
            },
            None => forall|k: int|
                0 <= k < n ==> !#[trigger] free_for(old, new, gaps, same, moved, i, k),
        },
    decreases n,
{
    if n > 0 {
        lemma_nearest_is_least(old, new, gaps, same, moved, i, n - 1);
        assert(distance(gaps, i, n - 1) == gap(gaps, i, n - 1));
        let best = nearest(old, new, gaps, same, moved, i, n - 1);
        if best is Some {
            assert(distance(gaps, i, best->0) == gap(gaps, i, best->0));
        }
        assert(free_for(old, new, gaps, same, moved, i, n - 1) == !(same.contains(Some(n - 1))
            || moved.contains(Some(n - 1)) || new[n - 1].surface != old[i].surface || gap(
            gaps,
            i,
            n - 1,
        ) is None));
    }
}

/// The new face `k` is free for the old face `i`.
spec fn free_for(
    old: Seq<SigView>,
    new: Seq<SigView>,
    gaps: Seq<Vec<Option<u64>>>,
    same: Seq<Option<int>>,
    moved: Seq<Option<int>>,
    i: int,
    k: int,
) -> bool {
    &&& new[k].surface == old[i].surface
    &&& distance(gaps, i, k) is Some
    &&& !same.contains(Some(k))
    &&& !moved.contains(Some(k))
}

/// A face that moved went to the nearest one it could: of all the new faces that
/// are open to it none is nearer, and none of those before it is as near. A face
/// that moved nowhere had none that was open to it.
pub proof fn lemma_faces_move_to_the_nearest(
    old: Seq<SigView>,
    new: Seq<SigView>,
    gaps: Seq<Vec<Option<u64>>>,
    i: int,
)
    requires
        0 <= i < old.len(),
        all_paired(old, new)[i] is None,
    ensures
        match all_moves(old, new, gaps)[i] {
            Some(j) => {
                &&& open_to(old, new, gaps, i, j)
                &&& forall|k: int| #[trigger]
                    open_to(old, new, gaps, i, k) ==> distance(gaps, i, k)->0 >= distance(
                        gaps,
                        i,
                        j,
                    )->0
                &&& forall|k: int| #[trigger]
                    open_to(old, new, gaps, i, k) && k < j ==> distance(gaps, i, k)->0 > distance(
                        gaps,
                        i,
                        j,
                    )->0
            },
            None => forall|k: int| !#[trigger] open_to(old, new, gaps, i, k),
        },
{
    let same = all_paired(old, new);
    let whole = all_moves(old, new, gaps);
    let n = old.len() as int;
    lemma_moves_grow(old, new, gaps, same, i, n);
    lemma_moves_grow(old, new, gaps, same, i + 1, n);
    let moved = moves(old, new, gaps, same, i);
    assert(whole[i] == whole.take(i + 1)[i]);
    assert(whole[i] == nearest(old, new, gaps, same, moved, i, new.len() as int));
    lemma_nearest_is_least(old, new, gaps, same, moved, i, new.len() as int);
    lemma_paired_length(old, new, n);
    assert forall|k: int| 0 <= k < new.len() implies #[trigger] open_to(old, new, gaps, i, k)
        == free_for(old, new, gaps, same, moved, i, k) by {
        if open_to(old, new, gaps, i, k) {
            if same.contains(Some(k)) {
                let o = choose|o: int| 0 <= o < same.len() && same[o] == Some(k);
                assert(all_paired(old, new)[o] == Some(k));
            }
            if moved.contains(Some(k)) {
                let o = choose|o: int| 0 <= o < moved.len() && moved[o] == Some(k);
                assert(whole.take(i)[o] == whole[o]);
                assert(all_moves(old, new, gaps)[o] == Some(k));
            }
        }
        if free_for(old, new, gaps, same, moved, i, k) {
            assert forall|o: int| 0 <= o < old.len() implies (#[trigger] all_paired(old, new)[o])
                != Some(k) by {
                if same[o] == Some(k) {
                    assert(same.contains(Some(k)));
                }
            }
            assert forall|o: int| 0 <= o < i implies (#[trigger] all_moves(old, new, gaps)[o])
                != Some(k) by {
                if whole[o] == Some(k) {
                    assert(whole.take(i)[o] == Some(k));
                    assert(moved.contains(Some(k)));
                }
            }
        }
    }
}

proof fn lemma_paired_length(old: Seq<SigView>, new: Seq<SigView>, n: int)
    requires
        0 <= n,
    ensures
        paired(old, new, n).len() == n,
    decreases n,
{
    if n > 0 {
        lemma_paired_length(old, new, n - 1);
    }
}

proof fn lemma_paired_grow(old: Seq<SigView>, new: Seq<SigView>, n: int, m: int)
    requires
        0 <= n <= m,
    ensures
        paired(old, new, n) == paired(old, new, m).take(n),
    decreases m,
{
    lemma_paired_length(old, new, n);
    lemma_paired_length(old, new, m);
    if n < m {
        lemma_paired_grow(old, new, n, m - 1);
        lemma_paired_length(old, new, m - 1);
    }
    assert(paired(old, new, n) =~= paired(old, new, m).take(n));
}

proof fn lemma_last_is_last(
    new: Seq<SigView>,
    sig: SigView,
    partners: Seq<Option<int>>,
    n: int,
)
    requires
        0 <= n <= new.len(),
    ensures
        last_free(new, sig, partners, n) matches Some(j) ==> forall|k: int|
            j < k < n && new[k] == sig ==> #[trigger] partners.contains(Some(k)),
    decreases n,
{
    if n > 0 {
        lemma_last_is_last(new, sig, partners, n - 1);
    }
}

/// A face is paired off with the last new face of its signature that no old face
/// before it was paired off with: every later one of that signature is taken by
/// then. A face that is not paired off found every one of them taken.
pub proof fn lemma_faces_pair_with_their_like(old: Seq<SigView>, new: Seq<SigView>, i: int)
    requires
        0 <= i < old.len(),
    ensures
        all_paired(old, new).len() == old.len(),
        match all_paired(old, new)[i] {
            Some(j) => {
                &&& 0 <= j < new.len()
                &&& new[j] == old[i]
                &&& forall|o: int| 0 <= o < i ==> (#[trigger] all_paired(old, new)[o]) != Some(j)
                &&& forall|k: int|
                    j < k < new.len() && (#[trigger] new[k]) == old[i] ==> exists|o: int|
                        0 <= o < i && (#[trigger] all_paired(old, new)[o]) == Some(k)
            },
            None => forall|k: int|
                0 <= k < new.len() && (#[trigger] new[k]) == old[i] ==> exists|o: int|
                    0 <= o < i && (#[trigger] all_paired(old, new)[o]) == Some(k),
        },
{
    let n = old.len() as int;
    let whole = all_paired(old, new);
    lemma_paired_length(old, new, n);
    lemma_paired_length(old, new, i);
    lemma_paired_grow(old, new, i, n);
    lemma_paired_grow(old, new, i + 1, n);
    let before = paired(old, new, i);
    assert(whole[i] == whole.take(i + 1)[i]);
    assert(whole[i] == last_free(new, old[i], before, new.len() as int));
    lemma_last_free(new, old[i], before, new.len() as int);
    lemma_last_is_last(new, old[i], before, new.len() as int);
    assert forall|k: int| before.contains(Some(k)) implies exists|o: int|
        0 <= o < i && (#[trigger] all_paired(old, new)[o]) == Some(k) by {
        let o = choose|o: int| 0 <= o < before.len() && before[o] == Some(k);
        assert(whole.take(i)[o] == whole[o]);
        assert(all_paired(old, new)[o] == Some(k));
    }
    assert forall|o: int, k: int| 0 <= o < i && (#[trigger] all_paired(old, new)[o]) == Some(
        k,
    ) implies #[trigger] before.contains(Some(k)) by {
        assert(whole.take(i)[o] == whole[o]);
        assert(before[o] == Some(k));
    }
    match whole[i] {
        Some(j) => {
            assert forall|o: int| 0 <= o < i implies (#[trigger] all_paired(old, new)[o]) != Some(
                j,
            ) by {
                if all_paired(old, new)[o] == Some(j) {
                    assert(before.contains(Some(j)));
                }
            }
            assert forall|k: int|
                j < k < new.len() && (#[trigger] new[k]) == old[i] implies exists|o: int|
                0 <= o < i && (#[trigger] all_paired(old, new)[o]) == Some(k) by {
                assert(before.contains(Some(k)));
            }
        },
        None => {
            assert forall|k: int|
                0 <= k < new.len() && (#[trigger] new[k]) == old[i] implies exists|o: int|
                0 <= o < i && (#[trigger] all_paired(old, new)[o]) == Some(k) by {
                assert(before.contains(Some(k)));
            }
        },
    }
}


/// A face of the older revision is unchanged where it has a partner, moved where
/// it has none but went somewhere, and removed otherwise. One of the newer
/// revision is unchanged where it is somebody's partner, moved where something
/// moved to it, and added otherwise.
pub proof fn lemma_verdicts_go_by_partners(
    old: Seq<FaceSig>,
    new: Seq<FaceSig>,
    gaps: Seq<Vec<Option<u64>>>,
    old_side: Map<NodeId, Change>,
    new_side: Map<NodeId, Change>,
)
    requires
        judged(old, new, gaps, old_side, new_side),
    ensures
        ({
            let same = all_paired(sigs(old), sigs(new));
            let moved = all_moves(sigs(old), sigs(new), gaps);
            &&& forall|i: int|
                0 <= i < old.len() ==> match old_side[(#[trigger] old[i]).id] {
                    Change::Unchanged => same[i] is Some,
                    Change::Moved => same[i] is None && moved[i] is Some,
                    Change::Removed => same[i] is None && moved[i] is None,
                    Change::Added => false,
                }
            &&& forall|j: int|
                0 <= j < new.len() ==> match new_side[(#[trigger] new[j]).id] {
                    Change::Unchanged => exists|i: int|
                        0 <= i < old.len() && #[trigger] same[i] == Some(j),
                    Change::Moved => {
                        &&& forall|i: int| 0 <= i < old.len() ==> #[trigger] same[i] != Some(j)
                        &&& exists|i: int| 0 <= i < old.len() && #[trigger] moved[i] == Some(j)
                    },
                    Change::Added => {
                        &&& forall|i: int| 0 <= i < old.len() ==> #[trigger] same[i] != Some(j)
                        &&& forall|i: int| 0 <= i < old.len() ==> #[trigger] moved[i] != Some(j)
                    },
                    Change::Removed => false,
                }
        }),
{
    let same = all_paired(sigs(old), sigs(new));
    let moved = all_moves(sigs(old), sigs(new), gaps);
    lemma_paired_length(sigs(old), sigs(new), old.len() as int);
    lemma_moves_grow(sigs(old), sigs(new), gaps, same, old.len() as int, old.len() as int);
    assert(same.len() == old.len());
    assert(moved.len() == old.len());
    assert forall|j: int| 0 <= j < new.len() implies match new_side[(#[trigger] new[j]).id] {
        Change::Unchanged => exists|i: int| 0 <= i < old.len() && #[trigger] same[i] == Some(j),
        Change::Moved => {
            &&& forall|i: int| 0 <= i < old.len() ==> #[trigger] same[i] != Some(j)
            &&& exists|i: int| 0 <= i < old.len() && #[trigger] moved[i] == Some(j)
        },
        Change::Added => {
            &&& forall|i: int| 0 <= i < old.len() ==> #[trigger] same[i] != Some(j)
            &&& forall|i: int| 0 <= i < old.len() ==> #[trigger] moved[i] != Some(j)
        },
        Change::Removed => false,
    } by {
        if same.contains(Some(j)) {
            let i = choose|i: int| 0 <= i < same.len() && same[i] == Some(j);
            assert(same[i] == Some(j));
        } else {
            assert forall|i: int| 0 <= i < old.len() implies #[trigger] same[i] != Some(j) by {
                if same[i] == Some(j) {
                    assert(same.contains(Some(j)));
                }
            }
            if moved.contains(Some(j)) {
                let i = choose|i: int| 0 <= i < moved.len() && moved[i] == Some(j);
                assert(moved[i] == Some(j));
            } else {
                assert forall|i: int| 0 <= i < old.len() implies #[trigger] moved[i] != Some(
                    j,
                ) by {
                    if moved[i] == Some(j) {
                        assert(moved.contains(Some(j)));
                    }
                }
            }
        }
    }
}

} // verus!
