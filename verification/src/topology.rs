//! What holds of every node graph.

use vstd::prelude::*;

use crate::graph::{
    chain_from, folded, graph_of, id_tuple, identity_in, nodes_by_id, AttributeView, ID_FACTOR,
};
use crate::value::{NodeId, NodeView};

verus! {

/// Every node is filed under its own id.
pub open spec fn filed(nodes: Map<NodeId, NodeView>) -> bool {
    forall|id: NodeId| #[trigger] nodes.contains_key(id) ==> nodes[id].id == id
}

/// In the graph of a list of nodes, each is filed under its own id, every id
/// of the list has a node, and that node is one of the list.
pub proof fn lemma_nodes_are_filed(nodes: Seq<NodeView>)
    ensures
        filed(graph_of(nodes).nodes),
        forall|id: NodeId|
            #[trigger] graph_of(nodes).nodes.contains_key(id) ==> nodes.contains(
                graph_of(nodes).nodes[id],
            ),
        forall|i: int|
            0 <= i < nodes.len() ==> graph_of(nodes).nodes.contains_key((#[trigger] nodes[i]).id),
    decreases nodes.len(),
{
    if nodes.len() > 0 {
        let front = nodes.drop_last();
        lemma_nodes_are_filed(front);
        let all = nodes_by_id(nodes);
        assert forall|id: NodeId| #[trigger] all.contains_key(id) implies nodes.contains(
            all[id],
        ) by {
            if id == nodes.last().id {
                assert(nodes[nodes.len() - 1] == all[id]);
            } else {
                assert(nodes_by_id(front).contains_key(id));
                let k = choose|k: int| 0 <= k < front.len() && front[k] == all[id];
                assert(nodes[k] == all[id]);
            }
        }
        assert forall|i: int| 0 <= i < nodes.len() implies all.contains_key(
            (#[trigger] nodes[i]).id,
        ) by {
            if i < nodes.len() - 1 {
                assert(front[i] == nodes[i]);
            }
        }
    }
}

/// Where no two nodes of a list share an id, each is found under its id.
pub proof fn lemma_distinct_nodes_are_found(nodes: Seq<NodeView>, i: int)
    requires
        forall|a: int, b: int|
            0 <= a < b < nodes.len() ==> (#[trigger] nodes[a]).id != (#[trigger] nodes[b]).id,
        0 <= i < nodes.len(),
    ensures
        graph_of(nodes).nodes.contains_key(nodes[i].id),
        graph_of(nodes).nodes[nodes[i].id] == nodes[i],
    decreases nodes.len(),
{
    if i < nodes.len() - 1 {
        lemma_distinct_nodes_are_found(nodes.drop_last(), i);
        assert(nodes.drop_last()[i] == nodes[i]);
        assert(nodes[i].id != nodes[nodes.len() - 1].id);
    }
}

/// A walk along links meets no node twice and none that was seen before, and
/// each step goes where the link of the node before it points.
pub proof fn lemma_walk(
    nodes: Map<NodeId, NodeView>,
    cur: Option<NodeId>,
    link: Seq<char>,
    seen: Set<NodeId>,
)
    requires
        nodes.dom().finite(),
        filed(nodes),
    ensures
        ({
            let walk = chain_from(nodes, cur, link, seen);
            &&& forall|i: int|
                0 <= i < walk.len() ==> !seen.contains((#[trigger] walk[i]).id)
                    && nodes.contains_key(walk[i].id) && nodes[walk[i].id] == walk[i]
            &&& forall|i: int, j: int|
                0 <= i < j < walk.len() ==> (#[trigger] walk[i]).id != (#[trigger] walk[j]).id
            &&& forall|i: int|
                0 < i < walk.len() ==> walk[i - 1].pointer(link) == Some((#[trigger] walk[i]).id)
            &&& walk.len() > 0 ==> cur == Some(walk[0].id)
        }),
    decreases nodes.dom().difference(seen).len(),
{
    let walk = chain_from(nodes, cur, link, seen);
    match cur {
        None => {},
        Some(id) => {
            if seen.contains(id) || !nodes.contains_key(id) {
            } else {
                let rest = chain_from(nodes, nodes[id].pointer(link), link, seen.insert(id));
                assert(nodes.dom().difference(seen.insert(id)) =~= nodes.dom().difference(
                    seen,
                ).remove(id));
                lemma_walk(nodes, nodes[id].pointer(link), link, seen.insert(id));
                assert(walk == seq![nodes[id]] + rest);
                assert(walk[0] == nodes[id]);
                assert forall|i: int| 0 <= i < walk.len() implies !seen.contains(
                    (#[trigger] walk[i]).id,
                ) && nodes.contains_key(walk[i].id) && nodes[walk[i].id] == walk[i] by {
                    if i > 0 {
                        assert(walk[i] == rest[i - 1]);
                        assert(!seen.insert(id).contains(rest[i - 1].id));
                    }
                }
                assert forall|i: int, j: int| 0 <= i < j < walk.len() implies (
                #[trigger] walk[i]).id != (#[trigger] walk[j]).id by {
                    assert(walk[j] == rest[j - 1]);
                    assert(!seen.insert(id).contains(rest[j - 1].id));
                    if i > 0 {
                        assert(walk[i] == rest[i - 1]);
                    }
                }
                assert forall|i: int| 0 < i < walk.len() implies walk[i - 1].pointer(link) == Some(
                    (#[trigger] walk[i]).id,
                ) by {
                    assert(walk[i] == rest[i - 1]);
                    if i > 1 {
                        assert(walk[i - 1] == rest[i - 2]);
                    }
                }
            }
        },
    }
}

/// A linked list of a graph, whatever its links say, ends: it meets no node
/// twice, begins at its start, and follows its link at each step.
pub proof fn lemma_chains_end(nodes: Seq<NodeView>, start: Option<NodeId>, link: Seq<char>)
    ensures
        ({
            let walk = graph_of(nodes).chain(start, link);
            &&& forall|i: int, j: int|
                0 <= i < j < walk.len() ==> (#[trigger] walk[i]).id != (#[trigger] walk[j]).id
            &&& forall|i: int|
                0 < i < walk.len() ==> walk[i - 1].pointer(link) == Some((#[trigger] walk[i]).id)
            &&& walk.len() > 0 ==> start == Some(walk[0].id)
            &&& forall|i: int| 0 <= i < walk.len() ==> nodes.contains(#[trigger] walk[i])
        }),
{
    lemma_nodes_are_filed(nodes);
    lemma_finite(nodes);
    let all = graph_of(nodes).nodes;
    lemma_walk(all, start, link, Set::empty());
    let walk = graph_of(nodes).chain(start, link);
    assert forall|i: int| 0 <= i < walk.len() implies nodes.contains(#[trigger] walk[i]) by {
        assert(all.contains_key(walk[i].id));
    }
}

proof fn lemma_finite(nodes: Seq<NodeView>)
    ensures
        nodes_by_id(nodes).dom().finite(),
    decreases nodes.len(),
{
    if nodes.len() > 0 {
        lemma_finite(nodes.drop_last());
        assert(nodes_by_id(nodes).dom() =~= nodes_by_id(nodes.drop_last()).dom().insert(
            nodes.last().id,
        ));
    }
}

/// The ids of a ring: distinct nodes of which each points at the next, and the
/// last at the first.
pub open spec fn is_ring(nodes: Map<NodeId, NodeView>, ring: Seq<NodeId>, link: Seq<char>) -> bool {
    &&& ring.len() > 0
    &&& forall|i: int, j: int| 0 <= i < j < ring.len() ==> ring[i] != ring[j]
    &&& forall|i: int| 0 <= i < ring.len() ==> nodes.contains_key(#[trigger] ring[i])
    &&& forall|i: int|
        0 <= i < ring.len() ==> #[trigger] nodes[ring[i]].pointer(link) == Some(
            ring[(if i + 1 < ring.len() {
                i + 1
            } else {
                0
            })],
        )
}

/// Loops close: a walk round a ring meets every node of it, in order, and stops
/// where it began.
pub proof fn lemma_ring_is_walked_whole(
    nodes: Map<NodeId, NodeView>,
    ring: Seq<NodeId>,
    link: Seq<char>,
)
    requires
        nodes.dom().finite(),
        is_ring(nodes, ring, link),
    ensures
        chain_from(nodes, Some(ring[0]), link, Set::empty()) == ring.map_values(
            |id: NodeId| nodes[id],
        ),
{
    lemma_rest_of_ring(nodes, ring, link, 0);
    assert(ring.take(0).to_set() =~= Set::<NodeId>::empty());
    assert(ring.skip(0) =~= ring);
}

/// What is left of a walk round a ring, `at` nodes on.
proof fn lemma_rest_of_ring(
    nodes: Map<NodeId, NodeView>,
    ring: Seq<NodeId>,
    link: Seq<char>,
    at: int,
)
    requires
        nodes.dom().finite(),
        is_ring(nodes, ring, link),
        0 <= at <= ring.len(),
    ensures
        chain_from(
            nodes,
            Some(
                ring[(if at < ring.len() {
                    at
                } else {
                    0
                })],
            ),
            link,
            ring.take(at).to_set(),
        ) == ring.skip(at).map_values(|id: NodeId| nodes[id]),
    decreases ring.len() - at,
{
    let seen = ring.take(at).to_set();
    let rest = ring.skip(at).map_values(|id: NodeId| nodes[id]);
    if at == ring.len() {
        assert(ring.take(at)[0] == ring[0]);
        assert(seen.contains(ring[0]));
        assert(rest =~= Seq::<NodeView>::empty());
    } else {
        lemma_rest_of_ring(nodes, ring, link, at + 1);
        assert(!seen.contains(ring[at])) by {
            if seen.contains(ring[at]) {
                let k = choose|k: int| 0 <= k < at && ring.take(at)[k] == ring[at];
                assert(ring[k] == ring[at]);
            }
        }
        assert(seen.insert(ring[at]) =~= ring.take(at + 1).to_set()) by {
            let next = ring.take(at + 1);
            assert(next =~= ring.take(at).push(ring[at]));
            assert forall|x: NodeId| seen.insert(ring[at]).contains(x) implies next.to_set().contains(
                x,
            ) by {
                if x == ring[at] {
                    assert(next[at] == x);
                } else {
                    let k = choose|k: int| 0 <= k < at && ring.take(at)[k] == x;
                    assert(next[k] == x);
                }
            }
            assert forall|x: NodeId| next.to_set().contains(x) implies seen.insert(
                ring[at],
            ).contains(x) by {
                let k = choose|k: int| 0 <= k < at + 1 && next[k] == x;
                if k < at {
                    assert(ring.take(at)[k] == x);
                }
            }
        }
        assert(nodes.contains_key(ring[at]));
        assert(rest =~= seq![nodes[ring[at]]] + ring.skip(at + 1).map_values(
            |id: NodeId| nodes[id],
        ));
    }
}

/// Identities tell faces apart: two tuples that agree but for their last
/// integer are folded into different numbers.
pub proof fn lemma_identities_differ(tuple: Seq<i64>, a: i64, b: i64)
    requires
        a != b,
    ensures
        folded(tuple.push(a)) != folded(tuple.push(b)),
{
    assert(tuple.push(a).drop_last() =~= tuple);
    assert(tuple.push(b).drop_last() =~= tuple);
    assert(a as u64 != b as u64) by (bit_vector)
        requires
            a != b,
    ;
    let h = folded(tuple) * ID_FACTOR;
    let m: int = 0x10000000000000000;
    let x: int = (a as u64) as int;
    let y: int = (b as u64) as int;
    assert((h + x) % m != (h + y) % m) by (nonlinear_arith)
        requires
            m == 0x10000000000000000,
            0 <= x < m,
            0 <= y < m,
            x != y,
    ;
}

/// What the factor of an identity is multiplied by to give 1, but for multiples
/// of the span of the numbers.
const ID_INVERSE: u64 = 0xce965057aff6957b;

/// A folded number can be told from what it was folded from: no two numbers
/// become one when the same integer is added.
proof fn lemma_fold_is_injective(g: u64, h: u64, v: u64)
    requires
        (g * ID_FACTOR + v) % 0x10000000000000000 == (h * ID_FACTOR + v) % 0x10000000000000000,
    ensures
        g == h,
{
    let m: int = 0x10000000000000000;
    let f = ID_FACTOR as int;
    let inv = ID_INVERSE as int;
    let turns: int = 887285111055;
    let (x, y, w) = (g as int, h as int, v as int);
    let (p, q) = (x * f + w, y * f + w);
    // What is left over both times is the same, so the two are a multiple of
    // the span apart.
    let d = p / m - q / m;
    vstd::arithmetic::div_mod::lemma_fundamental_div_mod(p, m);
    vstd::arithmetic::div_mod::lemma_fundamental_div_mod(q, m);
    assert(p - q == m * d) by (nonlinear_arith)
        requires
            p == m * (p / m) + p % m,
            q == m * (q / m) + q % m,
            p % m == q % m,
            d == p / m - q / m,
    ;
    assert((x - y) * f == m * d) by (nonlinear_arith)
        requires
            p == x * f + w,
            q == y * f + w,
            p - q == m * d,
    ;
    assert(f * inv == turns * m + 1);
    let e = d * inv - turns * (x - y);
    assert(x - y == m * e) by (nonlinear_arith)
        requires
            (x - y) * f == m * d,
            f * inv == turns * m + 1,
            e == d * inv - turns * (x - y),
    {
        assert((x - y) * f * inv == m * d * inv);
        assert((x - y) * f * inv == (x - y) * (f * inv));
        assert((x - y) * (turns * m + 1) == m * d * inv);
    }
    assert(e == 0) by (nonlinear_arith)
        requires
            x - y == m * e,
            -m < x - y < m,
            m > 0,
    ;
}

/// Identities tell faces apart: two tuples of the same length that differ in
/// one place, whichever it is, are folded into different numbers.
pub proof fn lemma_one_difference_tells(s: Seq<i64>, t: Seq<i64>, k: int)
    requires
        s.len() == t.len(),
        0 <= k < s.len(),
        s[k] != t[k],
        forall|j: int| 0 <= j < s.len() && j != k ==> s[j] == t[j],
    ensures
        folded(s) != folded(t),
    decreases s.len(),
{
    let n = s.len() - 1;
    if k == n {
        assert(s =~= s.drop_last().push(s[k]));
        assert(t =~= s.drop_last().push(t[k]));
        lemma_identities_differ(s.drop_last(), s[k], t[k]);
    } else {
        lemma_one_difference_tells(s.drop_last(), t.drop_last(), k);
        let (g, h, v) = (folded(s.drop_last()), folded(t.drop_last()), s.last() as u64);
        assert(s.last() == t.last());
        if folded(s) == folded(t) {
            lemma_fold_is_injective(g, h, v);
        }
    }
}

/// An entry of an identity as files have it: not negative, and of 32 bits.
pub open spec fn small_entry(v: i64) -> bool {
    0 <= v < 0x80000000
}

/// No two pairs of small entries are folded alike.
proof fn lemma_small_pairs_tell(a: int, b: int, c: int, d: int, e: int)
    requires
        0 <= a < 0x80000000,
        0 <= b < 0x80000000,
        0 <= c < 0x80000000,
        0 <= d < 0x80000000,
        (a - c) * ID_FACTOR + (b - d) == 0x10000000000000000 * e,
    ensures
        a == c && b == d,
{
    let x = a - c;
    let y = b - d;
    // The factor is a power of two and a small number.
    let low = 435 * x + y;
    let high = 0x1000000 * e - x;
    assert(ID_FACTOR == 0x10000000000 + 435);
    assert(low == 0x10000000000 * high) by (nonlinear_arith)
        requires
            x * (0x10000000000 + 435) + y == 0x10000000000000000 * e,
            low == 435 * x + y,
            high == 0x1000000 * e - x,
    ;
    assert(-0x10000000000 < low < 0x10000000000);
    assert(high == 0);
    assert(low == 0);
    assert(x == 0x1000000 * e);
    assert(y == -435 * x);
    assert(e == 0);
}

/// Identities tell faces apart: two tuples of the same length that differ in
/// their last two places at most, and hold small entries there, are folded into
/// different numbers.
pub proof fn lemma_last_two_tell(s: Seq<i64>, t: Seq<i64>)
    requires
        s.len() == t.len(),
        s.len() >= 2,
        s.take(s.len() - 2) == t.take(t.len() - 2),
        s != t,
        small_entry(s[s.len() - 2]) && small_entry(s[s.len() - 1]),
        small_entry(t[t.len() - 2]) && small_entry(t[t.len() - 1]),
    ensures
        folded(s) != folded(t),
{
    let n = s.len() as int;
    let m: int = 0x10000000000000000;
    let f = ID_FACTOR as int;
    let head = s.take(n - 2);
    let (s1, t1) = (s.drop_last(), t.drop_last());
    assert(s1.drop_last() =~= head);
    assert(t1.drop_last() =~= t.take(n - 2));
    let h = folded(head) as int;
    let (a, b, c, d) = (s[n - 2] as int, s[n - 1] as int, t[n - 2] as int, t[n - 1] as int);
    let (p, q) = (h * f + a, h * f + c);
    assert(folded(s1) == p % m);
    assert(folded(t1) == q % m);
    assert(folded(s) == ((p % m) * f + b) % m);
    assert(folded(t) == ((q % m) * f + d) % m);
    if folded(s) == folded(t) {
        let (u, v) = ((p % m) * f + b, (q % m) * f + d);
        vstd::arithmetic::div_mod::lemma_fundamental_div_mod(u, m);
        vstd::arithmetic::div_mod::lemma_fundamental_div_mod(v, m);
        vstd::arithmetic::div_mod::lemma_fundamental_div_mod(p, m);
        vstd::arithmetic::div_mod::lemma_fundamental_div_mod(q, m);
        let (pd, qd, ud, vd) = (p / m, q / m, u / m, v / m);
        let e = (ud - vd) + (pd - qd) * f;
        assert((a - c) * f + (b - d) == m * e) by (nonlinear_arith)
            requires
                p == m * pd + p % m,
                q == m * qd + q % m,
                u == m * ud + u % m,
                v == m * vd + v % m,
                u % m == v % m,
                u == (p % m) * f + b,
                v == (q % m) * f + d,
                p - q == a - c,
                e == (ud - vd) + (pd - qd) * f,
        {
            let (pr, qr) = (p % m, q % m);
            assert(u - v == m * (ud - vd));
            assert(u - v == (pr - qr) * f + (b - d));
            assert(pr - qr == (a - c) - m * (pd - qd));
            assert((pr - qr) * f == (a - c) * f - m * (pd - qd) * f);
        }
        lemma_small_pairs_tell(a, b, c, d, e);
        assert(s =~= t) by {
            assert forall|i: int| 0 <= i < n implies s[i] == t[i] by {
                if i < n - 2 {
                    assert(s.take(n - 2)[i] == t.take(n - 2)[i]);
                }
            }
        }
    }
}

/// The tuple that gives a face its identity: that of the first `FACE_ID`
/// attribute that has one.
pub open spec fn identity_tuple(attributes: Seq<AttributeView>) -> Option<Seq<i64>>
    decreases attributes.len(),
{
    if attributes.len() == 0 {
        None
    } else {
        let tuple = id_tuple(attributes[0].values);
        if crate::text::has_head(attributes[0].name, "FACE_ID"@) && tuple.len() > 0 {
            Some(tuple)
        } else {
            identity_tuple(attributes.drop_first())
        }
    }
}

/// The identity of a face is its whole tuple, folded.
pub proof fn lemma_identity_is_the_whole_tuple(attributes: Seq<AttributeView>)
    ensures
        identity_in(attributes) == match identity_tuple(attributes) {
            Some(tuple) => Some(folded(tuple)),
            None => None,
        },
    decreases attributes.len(),
{
    if attributes.len() > 0 {
        lemma_identity_is_the_whole_tuple(attributes.drop_first());
    }
}

/// Faces whose tuples share their leading entries but differ in one place, or in
/// their last two places by small entries, both have an identity, and not the
/// same one.
pub proof fn lemma_faces_are_told_apart(
    a: Seq<AttributeView>,
    b: Seq<AttributeView>,
    s: Seq<i64>,
    t: Seq<i64>,
    k: int,
)
    requires
        identity_tuple(a) == Some(s),
        identity_tuple(b) == Some(t),
        s.len() == t.len(),
        0 <= k < s.len(),
        s[k] != t[k],
        ({
            ||| forall|j: int| 0 <= j < s.len() && j != k ==> s[j] == t[j]
            ||| s.len() >= 2 && s.take(s.len() - 2) == t.take(t.len() - 2) && small_entry(
                s[s.len() - 2],
            ) && small_entry(s[s.len() - 1]) && small_entry(t[t.len() - 2]) && small_entry(
                t[t.len() - 1],
            )
        }),
    ensures
        identity_in(a) is Some,
        identity_in(b) is Some,
        identity_in(a) != identity_in(b),
{
    lemma_identity_is_the_whole_tuple(a);
    lemma_identity_is_the_whole_tuple(b);
    if forall|j: int| 0 <= j < s.len() && j != k ==> s[j] == t[j] {
        lemma_one_difference_tells(s, t, k);
    } else {
        lemma_last_two_tell(s, t);
    }
}

} // verus!
