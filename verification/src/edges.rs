//! The edges of a triangle mesh, and which triangles use each.
//!
//! Corner `c` of a list of triangles is corner `c % 3` of triangle `c / 3`; the
//! directed edge that it stands for runs from that corner to the next one of
//! the same triangle. Triangles that run along the same two vertices, in
//! whichever direction, use the same edge.

use std::collections::HashMap;

use vstd::prelude::*;

verus! {

broadcast use vstd::std_specs::hash::group_hash_axioms;

/// Vertex indices of a triangle.
pub type Tri = [u32; 3];

/// Where the directed edge of a corner begins.
pub open spec fn from_vertex(tris: Seq<Tri>, c: int) -> u32 {
    tris[c / 3]@[c % 3]
}

/// Where the directed edge of a corner ends.
pub open spec fn to_vertex(tris: Seq<Tri>, c: int) -> u32 {
    tris[c / 3]@[(c % 3 + 1) % 3]
}

/// The edge of a corner, its lower vertex first.
pub open spec fn edge(tris: Seq<Tri>, c: int) -> (u32, u32) {
    if from_vertex(tris, c) < to_vertex(tris, c) {
        (from_vertex(tris, c), to_vertex(tris, c))
    } else {
        (to_vertex(tris, c), from_vertex(tris, c))
    }
}

/// The corner runs along its edge from the lower vertex to the higher one.
pub open spec fn upward(tris: Seq<Tri>, c: int) -> bool {
    from_vertex(tris, c) < to_vertex(tris, c)
}

/// The corners among the first `m` that use the edge `e`, in order.
pub open spec fn users_among(tris: Seq<Tri>, m: nat, e: (u32, u32)) -> Seq<int>
    decreases m,
{
    if m == 0 {
        Seq::empty()
    } else {
        let before = users_among(tris, (m - 1) as nat, e);
        if edge(tris, m - 1) == e {
            before.push(m - 1)
        } else {
            before
        }
    }
}

/// The corners that use the edge `e`, in order.
pub open spec fn users(tris: Seq<Tri>, e: (u32, u32)) -> Seq<int> {
    users_among(tris, (3 * tris.len()) as nat, e)
}

/// The users of an edge are corners of that edge, each listed once and in
/// order.
pub proof fn lemma_users_among(tris: Seq<Tri>, m: nat, e: (u32, u32))
    ensures
        forall|i: int|
            0 <= i < users_among(tris, m, e).len() ==> 0 <= #[trigger] users_among(tris, m, e)[i]
                < m && edge(tris, users_among(tris, m, e)[i]) == e,
        forall|i: int, j: int|
            0 <= i < j < users_among(tris, m, e).len() ==> #[trigger] users_among(tris, m, e)[i]
                < #[trigger] users_among(tris, m, e)[j],
        forall|c: int|
            0 <= c < m && #[trigger] edge(tris, c) == e ==> users_among(tris, m, e).contains(c),
    decreases m,
{
    if m > 0 {
        let before = users_among(tris, (m - 1) as nat, e);
        let all = users_among(tris, m, e);
        lemma_users_among(tris, (m - 1) as nat, e);
        assert forall|c: int| 0 <= c < m && #[trigger] edge(tris, c) == e implies all.contains(
            c,
        ) by {
            if c < m - 1 {
                assert(before.contains(c));
                let i = choose|i: int| 0 <= i < before.len() && before[i] == c;
                assert(all[i] == c);
            } else {
                assert(all[before.len() as int] == c);
            }
        }
        assert forall|i: int, j: int| 0 <= i < j < all.len() implies #[trigger] all[i]
            < #[trigger] all[j] by {
            assert(all[i] == before[i]);
            if j < before.len() {
                assert(all[j] == before[j]);
            }
        }
    }
}

/// The kinds of edges by the triangles that use them.
#[derive(Clone, Copy, PartialEq, Eq, Structural)]
pub enum EdgeClass {
    /// Used once: a visible gap starts here.
    Open,
    /// Used twice, in opposite directions.
    Paired,
    /// Used twice in the same direction: the neighbours disagree on winding.
    Reversed,
    /// Used more than twice.
    Overshared,
}

/// The kind of an edge with those users.
pub open spec fn class_of(tris: Seq<Tri>, list: Seq<int>) -> EdgeClass {
    if list.len() == 1 {
        EdgeClass::Open
    } else if list.len() == 2 {
        if upward(tris, list[0]) == upward(tris, list[1]) {
            EdgeClass::Reversed
        } else {
            EdgeClass::Paired
        }
    } else {
        EdgeClass::Overshared
    }
}

/// The edges of one kind.
pub open spec fn edges_of(tris: Seq<Tri>, class: EdgeClass) -> Set<(u32, u32)> {
    Set::new(|e: (u32, u32)| users(tris, e).len() > 0 && class_of(tris, users(tris, e)) == class)
}

/// What is kept of the users of an edge: how many there are, up to three, and
/// the first two corners, each as a triangle and a corner of it.
#[derive(Clone, Copy)]
pub struct EdgeUse {
    pub count: u8,
    pub t0: usize,
    pub k0: usize,
    pub t1: usize,
    pub k1: usize,
}

/// `u` tells of the users in `list`.
pub open spec fn tells_of(u: EdgeUse, list: Seq<int>) -> bool {
    &&& u.count == if list.len() < 3 {
        list.len()
    } else {
        3
    }
    &&& list.len() >= 1 ==> list[0] == 3 * u.t0 + u.k0 && u.k0 < 3
    &&& list.len() >= 2 ==> list[1] == 3 * u.t1 + u.k1 && u.k1 < 3
}

/// An edge as one number.
pub open spec fn packed(e: (u32, u32)) -> u64 {
    (e.0 * 0x100000000 + e.1) as u64
}

/// The edge that a number stands for.
pub open spec fn unpacked(p: u64) -> (u32, u32) {
    ((p / 0x100000000) as u32, (p % 0x100000000) as u32)
}

/// No two edges are the same number, and every number is an edge.
pub proof fn lemma_packed()
    ensures
        forall|e: (u32, u32)| unpacked(#[trigger] packed(e)) == e,
        forall|p: u64| packed(#[trigger] unpacked(p)) == p,
{
}

/// A table of the edges that the first `m` corners use.
pub open spec fn is_table(table: Map<u64, EdgeUse>, tris: Seq<Tri>, m: nat) -> bool {
    forall|e: (u32, u32)|
        {
            &&& #[trigger] table.contains_key(packed(e)) <==> users_among(tris, m, e).len() > 0
            &&& table.contains_key(packed(e)) ==> tells_of(
                table[packed(e)],
                users_among(tris, m, e),
            )
        }
}

/// The edge of a corner as one number.
pub fn corner_key(tri: &Tri, k: usize) -> (r: (u64, bool))
    requires
        k < 3,
    ensures
        forall|tris: Seq<Tri>, c: int|
            0 <= c && c / 3 < tris.len() && tris[c / 3] == *tri && c % 3 == k ==> r.0 == packed(
                #[trigger] edge(tris, c),
            ) && r.1 == upward(tris, c),
{
    let a: u32 = tri[k];
    let b: u32 = tri[if k == 2 {
        0
    } else {
        k + 1
    }];
    if a < b {
        (a as u64 * 0x100000000 + b as u64, true)
    } else {
        (b as u64 * 0x100000000 + a as u64, false)
    }
}

/// Enter one more corner.
fn enter(table: &mut HashMap<u64, EdgeUse>, tris: &Vec<Tri>, t: usize, k: usize)
    requires
        t < tris@.len(),
        k < 3,
        is_table(old(table)@, tris@, (3 * t + k) as nat),
    ensures
        is_table(final(table)@, tris@, (3 * t + k + 1) as nat),
{
    let ghost c = 3 * t + k;
    let ghost m = c as nat;
    assert(c / 3 == t && c % 3 == k);
    let (key, _) = corner_key(&tris[t], k);
    let ghost e = edge(tris@, c);
    let ghost before = table@;
    proof {
        lemma_packed();
        assert(key == packed(e));
        assert(unpacked(packed(e)) == e);
    }
    let next = match table.get(&key) {
        None => EdgeUse { count: 1, t0: t, k0: k, t1: 0, k1: 0 },
        Some(u) => {
            assert(table@.contains_key(packed(e)));
            if u.count == 1 {
                EdgeUse { count: 2, t0: u.t0, k0: u.k0, t1: t, k1: k }
            } else {
                EdgeUse { count: 3, t0: u.t0, k0: u.k0, t1: u.t1, k1: u.k1 }
            }
        },
    };
    table.insert(key, next);
    proof {
        assert forall|f: (u32, u32)|
            {
                &&& #[trigger] table@.contains_key(packed(f)) <==> users_among(
                    tris@,
                    m + 1,
                    f,
                ).len() > 0
                &&& table@.contains_key(packed(f)) ==> tells_of(
                    table@[packed(f)],
                    users_among(tris@, m + 1, f),
                )
            } by {
            assert(before.contains_key(packed(f)) <==> users_among(tris@, m, f).len() > 0);
            assert(unpacked(packed(f)) == f);
            if f == e {
                assert(users_among(tris@, m + 1, f) == users_among(tris@, m, f).push(c));
            } else {
                assert(packed(f) != key);
                assert(users_among(tris@, m + 1, f) == users_among(tris@, m, f));
            }
        }
    }
}

/// The table of the edges of a list of triangles.
pub fn edge_table(tris: &Vec<Tri>) -> (table: HashMap<u64, EdgeUse>)
    ensures
        is_table(table@, tris@, (3 * tris@.len()) as nat),
{
    let mut table: HashMap<u64, EdgeUse> = HashMap::new();
    let mut t: usize = 0;
    while t < tris.len()
        invariant
            t <= tris@.len(),
            is_table(table@, tris@, (3 * t) as nat),
        decreases tris@.len() - t,
    {
        enter(&mut table, tris, t, 0);
        enter(&mut table, tris, t, 1);
        enter(&mut table, tris, t, 2);
        t += 1;
    }
    table
}

/// The kind of the edge that `u` tells of.
fn class_in(tris: &Vec<Tri>, u: &EdgeUse, Ghost(list): Ghost<Seq<int>>) -> (r: EdgeClass)
    requires
        tells_of(*u, list),
        list.len() > 0,
        forall|i: int| 0 <= i < list.len() ==> 0 <= #[trigger] list[i] < 3 * tris@.len(),
    ensures
        r == class_of(tris@, list),
{
    if u.count == 1 {
        EdgeClass::Open
    } else if u.count == 2 {
        proof {
            assert(0 <= list[0] < 3 * tris@.len());
            assert(0 <= list[1] < 3 * tris@.len());
            assert(list[0] / 3 == u.t0 && list[0] % 3 == u.k0);
            assert(list[1] / 3 == u.t1 && list[1] % 3 == u.k1);
        }
        let (key0, up0) = corner_key(&tris[u.t0], u.k0);
        let (key1, up1) = corner_key(&tris[u.t1], u.k1);
        proof {
            assert(key0 == packed(edge(tris@, list[0])));
            assert(key1 == packed(edge(tris@, list[1])));
        }
        if up0 == up1 {
            EdgeClass::Reversed
        } else {
            EdgeClass::Paired
        }
    } else {
        EdgeClass::Overshared
    }
}

/// The numbers of the edges in a table, each once.
pub fn table_keys(table: &HashMap<u64, EdgeUse>) -> (r: Vec<u64>)
    ensures
        r@.no_duplicates(),
        r@.to_set() == table@.dom(),
{
    let mut out: Vec<u64> = Vec::new();
    for key in it: table.keys()
        invariant
            it.seq().no_duplicates(),
            it.seq().unref().to_set() == table@.dom(),
            out@.len() == it.index(),
            forall|j: int| 0 <= j < out@.len() ==> #[trigger] out@[j] == *it.seq()[j],
            it.index() == it.seq().len() ==> out@ =~= it.seq().unref(),
    {
        out.push(*key);
    }
    assert(out@.no_duplicates());
    out
}

/// The edges of one kind among those with the first `n` of the numbers.
spec fn counted(tris: Seq<Tri>, class: EdgeClass, keys: Seq<u64>, n: int) -> Set<(u32, u32)> {
    Set::new(
        |e: (u32, u32)|
            keys.take(n).contains(packed(e)) && class_of(tris, users(tris, e)) == class,
    )
}

/// One more number adds its edge, if that is of the kind.
proof fn lemma_counted(tris: Seq<Tri>, class: EdgeClass, keys: Seq<u64>, i: int)
    requires
        0 <= i < keys.len(),
        keys.no_duplicates(),
    ensures
        ({
            let e = unpacked(keys[i]);
            let before = counted(tris, class, keys, i);
            let after = counted(tris, class, keys, i + 1);
            &&& !before.contains(e)
            &&& class_of(tris, users(tris, e)) == class ==> after == before.insert(e)
            &&& class_of(tris, users(tris, e)) != class ==> after == before
        }),
{
    let e = unpacked(keys[i]);
    let before = counted(tris, class, keys, i);
    let after = counted(tris, class, keys, i + 1);
    lemma_packed();
    assert(packed(e) == keys[i]);
    assert(!keys.take(i).contains(keys[i])) by {
        if keys.take(i).contains(keys[i]) {
            let j = choose|j: int| 0 <= j < i && keys.take(i)[j] == keys[i];
            assert(keys[j] == keys[i]);
        }
    }
    assert forall|f: (u32, u32)| after.contains(f) <==> before.contains(f) || (f == e
        && class_of(tris, users(tris, e)) == class) by {
        assert(unpacked(packed(f)) == f);
        if keys.take(i).contains(packed(f)) {
            let j = choose|j: int| 0 <= j < i && keys.take(i)[j] == packed(f);
            assert(keys.take(i + 1)[j] == packed(f));
        }
        assert(keys.take(i + 1)[i] == keys[i]);
        if keys.take(i + 1).contains(packed(f)) && f != e {
            let more = keys.take(i + 1);
            let j = choose|j: int| 0 <= j < more.len() && more[j] == packed(f);
            assert(j != i);
            assert(keys.take(i)[j] == packed(f));
        }
    }
    if class_of(tris, users(tris, e)) == class {
        assert(after =~= before.insert(e));
    } else {
        assert(after =~= before);
    }
}

/// The number of edges of one kind.
pub fn count_class(tris: &Vec<Tri>, table: &HashMap<u64, EdgeUse>, class: EdgeClass) -> (n: usize)
    requires
        is_table(table@, tris@, (3 * tris@.len()) as nat),
    ensures
        edges_of(tris@, class).finite(),
        n == edges_of(tris@, class).len(),
{
    let keys = table_keys(table);
    let mut n: usize = 0;
    let mut i: usize = 0;
    let ghost m = (3 * tris@.len()) as nat;
    assert(counted(tris@, class, keys@, 0) =~= Set::<(u32, u32)>::empty());
    while i < keys.len()
        invariant
            i <= keys@.len(),
            n <= i,
            keys@.no_duplicates(),
            keys@.to_set() == table@.dom(),
            m == 3 * tris@.len(),
            is_table(table@, tris@, m),
            counted(tris@, class, keys@, i as int).finite(),
            n == counted(tris@, class, keys@, i as int).len(),
        decreases keys@.len() - i,
    {
        let ghost e = unpacked(keys@[i as int]);
        proof {
            lemma_packed();
            assert(keys@.to_set().contains(keys@[i as int]));
            assert(table@.contains_key(packed(e)));
            lemma_users_among(tris@, m, e);
            lemma_counted(tris@, class, keys@, i as int);
        }
        let u: EdgeUse = *table.get(&keys[i]).unwrap();
        let c = class_in(tris, &u, Ghost(users(tris@, e)));
        if c == class {
            n += 1;
        }
        i += 1;
    }
    proof {
        lemma_packed();
        assert(keys@.take(i as int) =~= keys@);
        assert forall|e: (u32, u32)| edges_of(tris@, class).contains(e) <==> counted(
            tris@,
            class,
            keys@,
            i as int,
        ).contains(e) by {
            assert(table@.contains_key(packed(e)) <==> users(tris@, e).len() > 0);
            assert(keys@.to_set().contains(packed(e)) <==> keys@.contains(packed(e)));
        }
        assert(edges_of(tris@, class) =~= counted(tris@, class, keys@, i as int));
    }
    n
}

} // verus!
