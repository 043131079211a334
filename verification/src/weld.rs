//! Welding the faces of a body into one mesh.
//!
//! Every vertex of a face comes with a key: vertices with the same key are the
//! same vertex of the mesh, whichever faces they come from. Neighbouring faces
//! share the keys along their common edge, so welding closes the shell.

use std::collections::HashMap;

use vstd::prelude::*;

use crate::double::{below, is_less, INFINITY_BITS};
use crate::mesh::{degenerate, Mesh};
use crate::value::NodeId;

verus! {

broadcast use vstd::std_specs::hash::group_hash_axioms;

/// What a vertex is welded by.
pub type Key = [u64; 3];

/// The first two numbers of a key in one.
pub open spec fn pair_key(k: Seq<u64>) -> u128 {
    (k[0] * 0x10000000000000000 + k[1]) as u128
}

/// The number of a pair and the last number of a key in one.
pub open spec fn point_key(pair: u32, z: u64) -> u128 {
    (pair * 0x10000000000000000 + z) as u128
}

/// The keys of vertices.
pub open spec fn key_views(keys: Seq<Key>) -> Seq<Seq<u64>> {
    keys.map_values(|k: Key| k@)
}

/// The vertex that a key stands for, where `known` are the keys of the
/// vertices that there are: one of them, or the next.
pub open spec fn place(known: Seq<Seq<u64>>, key: Seq<u64>) -> int {
    if known.contains(key) {
        known.index_of(key)
    } else {
        known.len() as int
    }
}

/// The keys that are known once a vertex with `key` was welded in.
pub open spec fn with_key(known: Seq<Seq<u64>>, key: Seq<u64>) -> Seq<Seq<u64>> {
    if known.contains(key) {
        known
    } else {
        known.push(key)
    }
}

/// The keys that are known once vertices were welded in, in order.
pub open spec fn with_keys(known: Seq<Seq<u64>>, keys: Seq<Seq<u64>>) -> Seq<Seq<u64>>
    decreases keys.len(),
{
    if keys.len() == 0 {
        known
    } else {
        with_key(with_keys(known, keys.drop_last()), keys.last())
    }
}

/// The vertices that are new, in order: the first with each key that was not
/// known.
pub open spec fn fresh(
    known: Seq<Seq<u64>>,
    keys: Seq<Seq<u64>>,
    points: Seq<[u64; 3]>,
) -> Seq<[u64; 3]>
    decreases keys.len(),
{
    if keys.len() == 0 {
        Seq::empty()
    } else {
        let before = fresh(known, keys.drop_last(), points);
        if with_keys(known, keys.drop_last()).contains(keys.last()) {
            before
        } else {
            before.push(points[keys.len() - 1])
        }
    }
}

/// Which vertex each key stands for.
pub struct Welder {
    /// The keys of the vertices, in order.
    keys: Vec<Key>,
    /// A number for each pair of first two numbers.
    pairs: HashMap<u128, u32>,
    /// The vertex for each such number and last number.
    points: HashMap<u128, u32>,
    /// How many pairs there are.
    count: u32,
}

impl Welder {
    /// The keys of the vertices.
    pub closed spec fn known(self) -> Seq<Seq<u64>> {
        key_views(self.keys@)
    }

    /// No two vertices have the same key, and the tables find each by its key
    /// and nothing else.
    pub closed spec fn well_formed(self) -> bool {
        &&& self.known().no_duplicates()
        &&& self.count <= self.keys@.len()
        &&& self.keys@.len() <= u32::MAX
        &&& forall|i: int|
            0 <= i < self.keys@.len() ==> self.pairs@.contains_key(
                pair_key(#[trigger] self.known()[i]),
            ) && self.points@.contains_key(
                point_key(self.pairs@[pair_key(self.known()[i])], self.known()[i][2]),
            ) && self.points@[point_key(
                self.pairs@[pair_key(self.known()[i])],
                self.known()[i][2],
            )] == i
        &&& forall|k: u128| #[trigger]
            self.points@.contains_key(k) ==> self.points@[k] < self.keys@.len() && k == point_key(
                self.pairs@[pair_key(self.known()[self.points@[k] as int])],
                self.known()[self.points@[k] as int][2],
            )
        &&& forall|a: u128, b: u128|
            self.pairs@.contains_key(a) && self.pairs@.contains_key(b) && #[trigger] self.pairs@[a]
                == #[trigger] self.pairs@[b] ==> a == b
        &&& forall|a: u128| #[trigger] self.pairs@.contains_key(a) ==> self.pairs@[a] < self.count
    }

    pub fn new() -> (r: Self)
        ensures
            r.well_formed(),
            r.known() == Seq::<Seq<u64>>::empty(),
    {
        let r = Welder {
            keys: Vec::new(),
            pairs: HashMap::new(),
            points: HashMap::new(),
            count: 0,
        };
        assert(r.known() =~= Seq::<Seq<u64>>::empty());
        r
    }

    /// How many vertices there are.
    pub fn len(&self) -> (r: usize)
        ensures
            r == self.known().len(),
    {
        self.keys.len()
    }

    /// The vertex with a key, where there is one.
    pub fn find(&self, key: &Key) -> (r: Option<u32>)
        requires
            self.well_formed(),
        ensures
            match r {
                Some(i) => i < self.known().len() && self.known()[i as int] == key@
                    && self.known().contains(key@) && self.known().index_of(key@) == i,
                None => !self.known().contains(key@),
            },
    {
        let pk: u128 = (key[0] as u128) * 0x10000000000000000 + (key[1] as u128);
        assert(pk == pair_key(key@));
        match self.pairs.get(&pk) {
            None => {
                assert(!self.known().contains(key@));
                None
            },
            Some(p) => {
                let zk: u128 = (*p as u128) * 0x10000000000000000 + (key[2] as u128);
                assert(zk == point_key(*p, key@[2]));
                match self.points.get(&zk) {
                    None => {
                        assert(!self.known().contains(key@));
                        None
                    },
                    Some(i) => {
                        proof {
                            let k = self.known()[*i as int];
                            assert(self.points@.contains_key(zk));
                            assert(self.pairs@.contains_key(pair_key(k)));
                            assert(self.pairs@[pair_key(k)] == self.pairs@[pk]);
                            assert(pair_key(k) == pk);
                            assert(k =~= key@);
                            assert(self.known()[self.known().index_of(key@)] == key@);
                        }
                        Some(*i)
                    },
                }
            },
        }
    }

    /// The vertex that a key stands for; a key that is not known yet stands for
    /// the next vertex from now on.
    pub fn weld(&mut self, key: Key) -> (r: u32)
        requires
            old(self).well_formed(),
            old(self).known().len() < u32::MAX,
        ensures
            final(self).well_formed(),
            r == place(old(self).known(), key@),
            final(self).known() == with_key(old(self).known(), key@),
    {
        if let Some(i) = self.find(&key) {
            return i;
        }
        let ghost before = *self;
        let pk: u128 = (key[0] as u128) * 0x10000000000000000 + (key[1] as u128);
        assert(pk == pair_key(key@));
        let p: u32 = match self.pairs.get(&pk) {
            Some(p) => *p,
            None => {
                let p: u32 = self.count;
                self.pairs.insert(pk, p);
                self.count = p + 1;
                p
            },
        };
        let ghost mid = *self;
        let zk: u128 = (p as u128) * 0x10000000000000000 + (key[2] as u128);
        assert(zk == point_key(p, key@[2]));
        let n: u32 = self.keys.len() as u32;
        self.points.insert(zk, n);
        self.keys.push(key);
        proof {
            let old_known = before.known();
            let now = self.known();
            assert(now =~= old_known.push(key@));
            assert(now.no_duplicates()) by {
                assert forall|a: int, b: int| 0 <= a < b < now.len() implies now[a] != now[b] by {
                    if b == old_known.len() {
                        assert(old_known[a] == now[a]);
                        assert(old_known.contains(now[a]));
                    } else {
                        assert(old_known[a] != old_known[b]);
                    }
                }
            }
            assert(forall|a: u128| before.pairs@.contains_key(a) ==> #[trigger] self.pairs@[a]
                == before.pairs@[a] && self.pairs@.contains_key(a));
            assert forall|i: int| 0 <= i < self.keys@.len() implies self.pairs@.contains_key(
                pair_key(#[trigger] self.known()[i]),
            ) && self.points@.contains_key(
                point_key(self.pairs@[pair_key(self.known()[i])], self.known()[i][2]),
            ) && self.points@[point_key(
                self.pairs@[pair_key(self.known()[i])],
                self.known()[i][2],
            )] == i by {
                if i < before.keys@.len() {
                    assert(before.known()[i] == self.known()[i]);
                    let q = self.known()[i];
                    assert(before.pairs@.contains_key(pair_key(q)));
                    let k = point_key(self.pairs@[pair_key(q)], q[2]);
                    assert(before.points@.contains_key(k));
                    if k == zk {
                        assert(self.pairs@[pair_key(q)] == self.pairs@[pk]);
                        assert(pair_key(q) == pk);
                        assert(q =~= key@);
                        assert(old_known.contains(key@));
                    }
                }
            }
            assert forall|k: u128| #[trigger] self.points@.contains_key(k) implies self.points@[k]
                < self.keys@.len() && k == point_key(
                self.pairs@[pair_key(self.known()[self.points@[k] as int])],
                self.known()[self.points@[k] as int][2],
            ) by {
                if k != zk {
                    assert(before.points@.contains_key(k));
                    let i = before.points@[k] as int;
                    assert(before.known()[i] == self.known()[i]);
                    assert(before.pairs@.contains_key(pair_key(before.known()[i])));
                }
            }
        }
        n
    }
}

/// Keys that are known stay known, and in their places.
pub proof fn lemma_known_keys_stay(known: Seq<Seq<u64>>, keys: Seq<Seq<u64>>)
    requires
        known.no_duplicates(),
    ensures
        with_keys(known, keys).no_duplicates(),
        with_keys(known, keys).len() <= known.len() + keys.len(),
        known.len() <= with_keys(known, keys).len(),
        with_keys(known, keys).take(known.len() as int) == known,
    decreases keys.len(),
{
    if keys.len() > 0 {
        lemma_known_keys_stay(known, keys.drop_last());
        let before = with_keys(known, keys.drop_last());
        let after = with_keys(known, keys);
        if !before.contains(keys.last()) {
            assert(after == before.push(keys.last()));
            assert(after.no_duplicates()) by {
                assert forall|a: int, b: int| 0 <= a < b < after.len() implies after[a]
                    != after[b] by {
                    if b == before.len() {
                        assert(before.contains(before[a]));
                    }
                }
            }
            assert(after.take(known.len() as int) =~= before.take(known.len() as int));
        }
    } else {
        assert(known.take(known.len() as int) =~= known);
    }
}

/// Every key that was welded in is known.
pub proof fn lemma_welded_keys_are_known(known: Seq<Seq<u64>>, keys: Seq<Seq<u64>>, i: int)
    requires
        0 <= i < keys.len(),
    ensures
        with_keys(known, keys).contains(keys[i]),
    decreases keys.len(),
{
    let before = with_keys(known, keys.drop_last());
    let after = with_keys(known, keys);
    if i < keys.len() - 1 {
        lemma_welded_keys_are_known(known, keys.drop_last(), i);
        let k = choose|k: int| 0 <= k < before.len() && before[k] == keys[i];
        assert(after[k] == keys[i]);
    } else if !before.contains(keys.last()) {
        assert(after[before.len() as int] == keys.last());
    }
}

/// Two vertices become one exactly when they have the same key.
pub proof fn lemma_welded_by_key(
    known: Seq<Seq<u64>>,
    keys: Seq<Seq<u64>>,
    i: int,
    k: int,
)
    requires
        known.no_duplicates(),
        0 <= i < keys.len(),
        0 <= k < keys.len(),
    ensures
        ({
            let all = with_keys(known, keys);
            place(all, keys[i]) == place(all, keys[k]) <==> keys[i] == keys[k]
        }),
{
    lemma_welded_keys_are_known(known, keys, i);
    lemma_welded_keys_are_known(known, keys, k);
    let all = with_keys(known, keys);
    assert(all[all.index_of(keys[i])] == keys[i]);
    assert(all[all.index_of(keys[k])] == keys[k]);
}

/// A triangle over the welded vertices.
pub open spec fn welded_triangle(
    all: Seq<Seq<u64>>,
    keys: Seq<Seq<u64>>,
    t: [usize; 3],
    turned: bool,
) -> Seq<u32> {
    let a = place(all, keys[t@[0] as int]) as u32;
    let b = place(all, keys[t@[1] as int]) as u32;
    let c = place(all, keys[t@[2] as int]) as u32;
    if turned {
        seq![a, c, b]
    } else {
        seq![a, b, c]
    }
}

/// A triangle with three different corners.
pub open spec fn upright(t: Seq<u32>) -> bool {
    t[0] != t[1] && t[1] != t[2] && t[0] != t[2]
}

/// The triangles over the welded vertices, those that collapsed left out.
pub open spec fn welded_triangles(
    all: Seq<Seq<u64>>,
    keys: Seq<Seq<u64>>,
    tris: Seq<[usize; 3]>,
    turned: bool,
) -> Seq<Seq<u32>>
    decreases tris.len(),
{
    if tris.len() == 0 {
        Seq::empty()
    } else {
        let before = welded_triangles(all, keys, tris.drop_last(), turned);
        let t = welded_triangle(all, keys, tris.last(), turned);
        if upright(t) {
            before.push(t)
        } else {
            before
        }
    }
}

/// The corners of triangles.
pub open spec fn corner_views(tris: Seq<[u32; 3]>) -> Seq<Seq<u32>> {
    tris.map_values(|t: [u32; 3]| t@)
}

/// Weld the vertices of a face in; the vertex of each.
fn weld_points(
    mesh: &mut Mesh,
    welder: &mut Welder,
    points: &[[u64; 3]],
    keys: &[Key],
) -> (r: Vec<u32>)
    requires
        old(welder).well_formed(),
        points@.len() == keys@.len(),
        old(welder).known().len() + keys@.len() <= u32::MAX,
    ensures
        final(welder).well_formed(),
        final(welder).known() == with_keys(old(welder).known(), key_views(keys@)),
        final(mesh).vertices@ == old(mesh).vertices@ + fresh(
            old(welder).known(),
            key_views(keys@),
            points@,
        ),
        final(mesh).triangles == old(mesh).triangles,
        final(mesh).face_ids == old(mesh).face_ids,
        final(mesh).colors == old(mesh).colors,
        final(mesh).warnings == old(mesh).warnings,
        r@.len() == keys@.len(),
        forall|i: int|
            0 <= i < keys@.len() ==> #[trigger] r@[i] == place(
                final(welder).known(),
                key_views(keys@)[i],
            ),
{
    let ghost views = key_views(keys@);
    let ghost start = welder.known();
    let ghost mesh0 = *mesh;
    let mut out: Vec<u32> = Vec::new();
    let mut i: usize = 0;
    proof {
        assert(views.take(0) =~= Seq::<Seq<u64>>::empty());
        assert(mesh0.vertices@ + fresh(start, views.take(0), points@) =~= mesh0.vertices@);
    }
    while i < keys.len()
        invariant
            i <= keys@.len(),
            views == key_views(keys@),
            points@.len() == keys@.len(),
            welder.well_formed(),
            start.no_duplicates(),
            start.len() + keys@.len() <= u32::MAX,
            welder.known() == with_keys(start, views.take(i as int)),
            mesh.vertices@ == mesh0.vertices@ + fresh(start, views.take(i as int), points@),
            mesh.triangles == mesh0.triangles,
            mesh.face_ids == mesh0.face_ids,
            mesh.colors == mesh0.colors,
            mesh.warnings == mesh0.warnings,
            out@.len() == i,
            forall|k: int|
                0 <= k < i ==> #[trigger] out@[k] == place(welder.known(), views[k])
                    && welder.known().contains(views[k]),
        decreases keys@.len() - i,
    {
        let ghost before = welder.known();
        proof {
            assert(views.take(i + 1).drop_last() =~= views.take(i as int));
            assert(views.take(i + 1).last() == views[i as int]);
            lemma_known_keys_stay(start, views.take(i as int));
        }
        let n: usize = welder.len();
        let v: u32 = welder.weld(keys[i]);
        let ghost verts = mesh.vertices@;
        if v as usize == n {
            mesh.vertices.push(points[i]);
            proof {
                if before.contains(views[i as int]) {
                    assert(before[before.index_of(views[i as int])] == views[i as int]);
                }
                assert(mesh.vertices@ =~= mesh0.vertices@ + fresh(
                    start,
                    views.take(i + 1),
                    points@,
                ));
            }
        }
        let ghost earlier = out@;
        out.push(v);
        proof {
            let after = welder.known();
            lemma_known_keys_stay(start, views.take(i + 1));
            assert forall|k: int| 0 <= k < i + 1 implies #[trigger] out@[k] == place(
                after,
                views[k],
            ) && after.contains(views[k]) by {
                if k < i {
                    assert(earlier[k] == place(before, views[k]));
                    let p = before.index_of(views[k]);
                    assert(before[p] == views[k]);
                    assert(after[p] == views[k]);
                    assert(after[after.index_of(views[k])] == views[k]);
                } else if before.contains(views[k]) {
                    assert(after == before);
                } else {
                    assert(after[before.len() as int] == views[k]);
                    assert(after[after.index_of(views[k])] == views[k]);
                }
            }
        }
        i += 1;
    }
    assert(views.take(i as int) =~= views);
    out
}

/// Add a face to a mesh: its vertices are welded in by their keys, and its
/// triangles follow, wound the other way where `turned`; a triangle that
/// welding collapsed is left out.
pub fn add_face(
    mesh: &mut Mesh,
    welder: &mut Welder,
    face: NodeId,
    points: &[[u64; 3]],
    keys: &[Key],
    tris: &[[usize; 3]],
    turned: bool,
)
    requires
        old(welder).well_formed(),
        points@.len() == keys@.len(),
        old(welder).known().len() + keys@.len() <= u32::MAX,
        forall|i: int, k: int|
            0 <= i < tris@.len() && 0 <= k < 3 ==> (#[trigger] tris@[i]@[k]) < keys@.len(),
    ensures
        final(welder).well_formed(),
        final(welder).known() == with_keys(old(welder).known(), key_views(keys@)),
        final(mesh).vertices@ == old(mesh).vertices@ + fresh(
            old(welder).known(),
            key_views(keys@),
            points@,
        ),
        corner_views(final(mesh).triangles@) == corner_views(old(mesh).triangles@)
            + welded_triangles(final(welder).known(), key_views(keys@), tris@, turned),
        final(mesh).face_ids@ == old(mesh).face_ids@ + Seq::new(
            welded_triangles(final(welder).known(), key_views(keys@), tris@, turned).len(),
            |i: int| face,
        ),
        final(mesh).colors == old(mesh).colors,
        final(mesh).warnings == old(mesh).warnings,
        final(mesh).vertices@.len() - old(mesh).vertices@.len() == final(welder).known().len()
            - old(welder).known().len(),
        old(welder).known().len() <= old(mesh).vertices@.len() && old(mesh).indexed()
            ==> final(mesh).indexed(),
        old(mesh).upright() ==> final(mesh).upright(),
{
    let ghost views = key_views(keys@);
    let ghost mesh0 = *mesh;
    let remap = weld_points(mesh, welder, points, keys);
    let ghost all = welder.known();
    let mut i: usize = 0;
    proof {
        assert(tris@.take(0) =~= Seq::<[usize; 3]>::empty());
        assert(corner_views(mesh.triangles@) =~= corner_views(mesh0.triangles@) + welded_triangles(
            all,
            views,
            tris@.take(0),
            turned,
        ));
        assert(mesh.face_ids@ =~= mesh0.face_ids@ + Seq::new(0, |i: int| face));
    }
    while i < tris.len()
        invariant
            i <= tris@.len(),
            remap@.len() == keys@.len(),
            views == key_views(keys@),
            forall|k: int|
                0 <= k < keys@.len() ==> #[trigger] remap@[k] == place(all, views[k]),
            forall|i: int, k: int|
                0 <= i < tris@.len() && 0 <= k < 3 ==> (#[trigger] tris@[i]@[k]) < keys@.len(),
            mesh.vertices@ == mesh0.vertices@ + fresh(old(welder).known(), views, points@),
            mesh.colors == mesh0.colors,
            mesh.warnings == mesh0.warnings,
            corner_views(mesh.triangles@) == corner_views(mesh0.triangles@) + welded_triangles(
                all,
                views,
                tris@.take(i as int),
                turned,
            ),
            mesh.face_ids@ == mesh0.face_ids@ + Seq::new(
                welded_triangles(all, views, tris@.take(i as int), turned).len(),
                |i: int| face,
            ),
        decreases tris@.len() - i,
    {
        let t: [usize; 3] = tris[i];
        assert(tris@[i as int]@[0] < keys@.len() && tris@[i as int]@[1] < keys@.len()
            && tris@[i as int]@[2] < keys@.len());
        let a: u32 = remap[t[0]];
        let b: u32 = remap[t[1]];
        let c: u32 = remap[t[2]];
        let tri: [u32; 3] = if turned {
            [a, c, b]
        } else {
            [a, b, c]
        };
        proof {
            assert(tris@.take(i + 1).drop_last() =~= tris@.take(i as int));
            assert(tris@.take(i + 1).last() == t);
            assert(tri@ =~= welded_triangle(all, views, t, turned));
        }
        if a != b && b != c && a != c {
            let ghost before = mesh.triangles@;
            let ghost ids = mesh.face_ids@;
            mesh.triangles.push(tri);
            mesh.face_ids.push(face);
            proof {
                assert(corner_views(mesh.triangles@) =~= corner_views(before).push(tri@));
                assert(corner_views(mesh.triangles@) =~= corner_views(mesh0.triangles@)
                    + welded_triangles(all, views, tris@.take(i + 1), turned));
                assert(mesh.face_ids@ =~= mesh0.face_ids@ + Seq::new(
                    welded_triangles(all, views, tris@.take(i + 1), turned).len(),
                    |i: int| face,
                ));
            }
        }
        i += 1;
    }
    assert(tris@.take(i as int) =~= tris@);
    proof {
        lemma_one_vertex_for_each_key(old(welder).known(), views, points@);
        lemma_face_added(
            *mesh,
            mesh0,
            welded_triangles(all, views, tris@, turned),
            all.len(),
        );
        lemma_welded_triangles_are_upright(all, views, tris@, turned);
        assert(all.len() <= u32::MAX) by {
            lemma_known_keys_stay(old(welder).known(), views);
        }
        lemma_corners_are_vertices(old(welder).known(), views, tris@, turned);
    }
}

/// There are as many new vertices as new keys.
pub proof fn lemma_one_vertex_for_each_key(
    known: Seq<Seq<u64>>,
    keys: Seq<Seq<u64>>,
    points: Seq<[u64; 3]>,
)
    ensures
        with_keys(known, keys).len() == known.len() + fresh(known, keys, points).len(),
    decreases keys.len(),
{
    if keys.len() > 0 {
        lemma_one_vertex_for_each_key(known, keys.drop_last(), points);
    }
}

/// The corners of the triangles that welding leaves are vertices with a key.
pub proof fn lemma_corners_are_vertices(
    known: Seq<Seq<u64>>,
    keys: Seq<Seq<u64>>,
    tris: Seq<[usize; 3]>,
    turned: bool,
)
    requires
        with_keys(known, keys).len() <= u32::MAX,
        forall|i: int, k: int|
            0 <= i < tris.len() && 0 <= k < 3 ==> (#[trigger] tris[i]@[k]) < keys.len(),
    ensures
        ({
            let all = with_keys(known, keys);
            let left = welded_triangles(all, keys, tris, turned);
            forall|i: int, k: int|
                0 <= i < left.len() && 0 <= k < 3 ==> (#[trigger] left[i][k]) < all.len()
        }),
    decreases tris.len(),
{
    if tris.len() > 0 {
        let all = with_keys(known, keys);
        let most = tris.drop_last();
        assert forall|i: int, k: int| 0 <= i < most.len() && 0 <= k < 3 implies (
        #[trigger] most[i]@[k]) < keys.len() by {
            assert(tris[i]@[k] < keys.len());
        }
        lemma_corners_are_vertices(known, keys, most, turned);
        let before = welded_triangles(all, keys, most, turned);
        let left = welded_triangles(all, keys, tris, turned);
        let t = tris.last();
        assert forall|k: int| 0 <= k < 3 implies (#[trigger] welded_triangle(
            all,
            keys,
            t,
            turned,
        )[k]) < all.len() by {
            let n = tris.len() - 1;
            assert(tris[n]@[0] < keys.len() && tris[n]@[1] < keys.len() && tris[n]@[2]
                < keys.len());
            lemma_welded_keys_are_known(known, keys, t@[0] as int);
            lemma_welded_keys_are_known(known, keys, t@[1] as int);
            lemma_welded_keys_are_known(known, keys, t@[2] as int);
        }
        assert forall|i: int, k: int| 0 <= i < left.len() && 0 <= k < 3 implies (
        #[trigger] left[i][k]) < all.len() by {
            if i < before.len() {
                assert(before[i][k] < all.len());
            } else {
                assert(left[i] == welded_triangle(all, keys, t, turned));
                assert(welded_triangle(all, keys, t, turned)[k] < all.len());
            }
        }
    }
}

/// More triangles whose corners are vertices keep the corners of a mesh
/// vertices; more triangles without a repeated corner leave it without any.
proof fn lemma_face_added(after: Mesh, before: Mesh, more: Seq<Seq<u32>>, count: nat)
    requires
        corner_views(after.triangles@) == corner_views(before.triangles@) + more,
        after.face_ids@.len() == before.face_ids@.len() + more.len(),
        before.vertices@.len() <= after.vertices@.len(),
    ensures
        before.indexed() && count <= after.vertices@.len() && (forall|i: int, k: int|
            0 <= i < more.len() && 0 <= k < 3 ==> (#[trigger] more[i][k]) < count)
            ==> after.indexed(),
        before.upright() && (forall|i: int|
            0 <= i < more.len() ==> upright(#[trigger] more[i])) ==> after.upright(),
{
    let n = before.triangles@.len() as int;
    assert(corner_views(after.triangles@).len() == after.triangles@.len());
    assert forall|i: int| 0 <= i < after.triangles@.len() implies (
    #[trigger] after.triangles@[i])@ == if i < n {
        before.triangles@[i]@
    } else {
        more[i - n]
    } by {
        assert(corner_views(after.triangles@)[i] == after.triangles@[i]@);
        if i < n {
            assert(corner_views(before.triangles@)[i] == before.triangles@[i]@);
        }
    }
    if before.indexed() && count <= after.vertices@.len() && (forall|i: int, k: int|
        0 <= i < more.len() && 0 <= k < 3 ==> (#[trigger] more[i][k]) < count) {
        assert forall|i: int, k: int| 0 <= i < after.triangles@.len() && 0 <= k < 3 implies (
        #[trigger] after.triangles@[i]@[k]) < after.vertices@.len() by {
            if i < n {
                assert(before.triangles@[i]@[k] < before.vertices@.len());
            } else {
                assert(more[i - n][k] < count);
            }
        }
    }
    if before.upright() && (forall|i: int|
        0 <= i < more.len() ==> upright(#[trigger] more[i])) {
        assert forall|i: int| 0 <= i < after.triangles@.len() implies !degenerate(
            #[trigger] after.triangles@[i],
        ) by {
            if i < n {
                assert(!degenerate(before.triangles@[i]));
            } else {
                assert(upright(more[i - n]));
            }
        }
    }
}

/// A face as it was triangulated on its own.
pub struct Patch {
    pub face: NodeId,
    pub color: Option<[u64; 3]>,
    pub points: Vec<[u64; 3]>,
    /// What each point is welded by.
    pub keys: Vec<Key>,
    pub tris: Vec<[usize; 3]>,
}

impl Patch {
    /// Every point has a key, and every corner is one of the points.
    pub open spec fn well_formed(self) -> bool {
        &&& self.points@.len() == self.keys@.len()
        &&& forall|i: int, k: int|
            0 <= i < self.tris@.len() && 0 <= k < 3 ==> (#[trigger] self.tris@[i]@[k])
                < self.keys@.len()
    }
}

/// How many points the patches have.
pub open spec fn point_count(patches: Seq<Patch>) -> nat
    decreases patches.len(),
{
    if patches.len() == 0 {
        0
    } else {
        point_count(patches.drop_last()) + patches.last().keys@.len()
    }
}

/// Patches welded into one body.
#[verifier::ext_equal]
pub struct Body {
    pub known: Seq<Seq<u64>>,
    pub vertices: Seq<[u64; 3]>,
    pub triangles: Seq<Seq<u32>>,
    pub face_ids: Seq<NodeId>,
    pub colors: Map<NodeId, [u64; 3]>,
}

impl Body {
    /// One more patch is welded in.
    pub open spec fn with(self, p: Patch) -> Body {
        let keys = key_views(p.keys@);
        let known = with_keys(self.known, keys);
        let more = welded_triangles(known, keys, p.tris@, false);
        Body {
            known,
            vertices: self.vertices + fresh(self.known, keys, p.points@),
            triangles: self.triangles + more,
            face_ids: self.face_ids + Seq::new(more.len(), |i: int| p.face),
            colors: match p.color {
                Some(c) => self.colors.insert(p.face, c),
                None => self.colors,
            },
        }
    }
}

/// The body that patches are welded into, in order.
pub open spec fn body_of(patches: Seq<Patch>) -> Body
    decreases patches.len(),
{
    if patches.len() == 0 {
        Body {
            known: Seq::empty(),
            vertices: Seq::empty(),
            triangles: Seq::empty(),
            face_ids: Seq::empty(),
            colors: Map::empty(),
        }
    } else {
        body_of(patches.drop_last()).with(patches.last())
    }
}

/// One of the patches is of that face.
pub open spec fn of_some_patch(patches: Seq<Patch>, face: NodeId) -> bool {
    exists|j: int| 0 <= j < patches.len() && (#[trigger] patches[j]).face == face
}

/// Fewer patches have no more points.
proof fn lemma_points_grow(patches: Seq<Patch>, n: int)
    requires
        0 <= n <= patches.len(),
    ensures
        point_count(patches.take(n)) <= point_count(patches),
    decreases patches.len(),
{
    if n < patches.len() {
        lemma_points_grow(patches.drop_last(), n);
        assert(patches.drop_last().take(n) =~= patches.take(n));
    } else {
        assert(patches.take(n) =~= patches);
    }
}

/// Every triangle of a body is of the face of one of its patches.
pub proof fn lemma_face_ids_are_of_patches(patches: Seq<Patch>)
    ensures
        forall|i: int|
            0 <= i < body_of(patches).face_ids.len() ==> of_some_patch(
                patches,
                #[trigger] body_of(patches).face_ids[i],
            ),
    decreases patches.len(),
{
    if patches.len() > 0 {
        let few = patches.drop_last();
        lemma_face_ids_are_of_patches(few);
        let before = body_of(few).face_ids;
        let all = body_of(patches).face_ids;
        assert forall|i: int| 0 <= i < all.len() implies of_some_patch(
            patches,
            #[trigger] all[i],
        ) by {
            if i < before.len() {
                assert(of_some_patch(few, before[i]));
                let j = choose|j: int| 0 <= j < few.len() && (#[trigger] few[j]).face == before[i];
                assert(patches[j].face == all[i]);
            } else {
                assert(patches[patches.len() - 1].face == all[i]);
            }
        }
    }
}

/// Weld the faces of a body into one mesh. Every index of it is a vertex, no
/// triangle has a repeated one, and every triangle has the face that it is of.
pub fn weld_faces(patches: &[Patch]) -> (r: Mesh)
    requires
        forall|i: int| 0 <= i < patches@.len() ==> (#[trigger] patches@[i]).well_formed(),
        point_count(patches@) <= u32::MAX,
    ensures
        r.vertices@ == body_of(patches@).vertices,
        corner_views(r.triangles@) == body_of(patches@).triangles,
        r.face_ids@ == body_of(patches@).face_ids,
        r.colors@ == body_of(patches@).colors,
        r.warnings@ == Seq::<String>::empty(),
        r.indexed(),
        r.upright(),
        forall|i: int|
            0 <= i < r.face_ids@.len() ==> of_some_patch(patches@, #[trigger] r.face_ids@[i]),
{
    let mut mesh = Mesh::default();
    let mut welder = Welder::new();
    let mut i: usize = 0;
    proof {
        assert(patches@.take(0) =~= Seq::<Patch>::empty());
        assert(corner_views(mesh.triangles@) =~= Seq::<Seq<u32>>::empty());
    }
    while i < patches.len()
        invariant
            i <= patches@.len(),
            forall|j: int| 0 <= j < patches@.len() ==> (#[trigger] patches@[j]).well_formed(),
            point_count(patches@) <= u32::MAX,
            welder.well_formed(),
            welder.known() == body_of(patches@.take(i as int)).known,
            welder.known().len() <= point_count(patches@.take(i as int)),
            mesh.vertices@ == body_of(patches@.take(i as int)).vertices,
            corner_views(mesh.triangles@) == body_of(patches@.take(i as int)).triangles,
            mesh.face_ids@ == body_of(patches@.take(i as int)).face_ids,
            mesh.colors@ == body_of(patches@.take(i as int)).colors,
            mesh.warnings@ == Seq::<String>::empty(),
            mesh.vertices@.len() == welder.known().len(),
            mesh.indexed(),
            mesh.upright(),
        decreases patches@.len() - i,
    {
        let p: &Patch = &patches[i];
        proof {
            assert(patches@.take(i + 1).drop_last() =~= patches@.take(i as int));
            assert(patches@.take(i + 1).last() == *p);
            lemma_points_grow(patches@, i + 1);
            lemma_one_vertex_for_each_key(welder.known(), key_views(p.keys@), p.points@);
            lemma_no_more_than_keys(welder.known(), key_views(p.keys@));
            assert(p.well_formed());
        }
        if let Some(c) = p.color {
            mesh.colors.insert(p.face, c);
        }
        add_face(
            &mut mesh,
            &mut welder,
            p.face,
            p.points.as_slice(),
            p.keys.as_slice(),
            p.tris.as_slice(),
            false,
        );
        i += 1;
    }
    proof {
        assert(patches@.take(i as int) =~= patches@);
        lemma_face_ids_are_of_patches(patches@);
    }
    mesh
}

/// Welding makes no more keys known than it welds in.
proof fn lemma_no_more_than_keys(known: Seq<Seq<u64>>, keys: Seq<Seq<u64>>)
    ensures
        with_keys(known, keys).len() <= known.len() + keys.len(),
    decreases keys.len(),
{
    if keys.len() > 0 {
        lemma_no_more_than_keys(known, keys.drop_last());
    }
}

/// No triangle that welding leaves has a repeated corner.
pub proof fn lemma_welded_triangles_are_upright(
    all: Seq<Seq<u64>>,
    keys: Seq<Seq<u64>>,
    tris: Seq<[usize; 3]>,
    turned: bool,
)
    ensures
        forall|i: int|
            0 <= i < welded_triangles(all, keys, tris, turned).len() ==> upright(
                #[trigger] welded_triangles(all, keys, tris, turned)[i],
            ),
    decreases tris.len(),
{
    if tris.len() > 0 {
        lemma_welded_triangles_are_upright(all, keys, tris.drop_last(), turned);
        let before = welded_triangles(all, keys, tris.drop_last(), turned);
        let after = welded_triangles(all, keys, tris, turned);
        assert forall|i: int| 0 <= i < after.len() implies upright(#[trigger] after[i]) by {
            if i < before.len() {
                assert(upright(before[i]));
            }
        }
    }
}

/// The face nearest to a point, by the distances of those that it can lie on;
/// of equally near ones the first, and `fallback` where there is none.
pub fn nearest_face(dists: &[(NodeId, Option<u64>)], fallback: NodeId) -> (r: NodeId)
    ensures
        r == nearest_of(dists@, fallback).1,
{
    let mut best: u64 = INFINITY_BITS;
    let mut id: NodeId = fallback;
    let mut i: usize = 0;
    while i < dists.len()
        invariant
            i <= dists@.len(),
            (best, id) == nearest_of(dists@.take(i as int), fallback),
        decreases dists@.len() - i,
    {
        assert(dists@.take(i + 1).drop_last() =~= dists@.take(i as int));
        assert(dists@.take(i + 1).last() == dists@[i as int]);
        if let Some(d) = dists[i].1 {
            if is_less(d, best) {
                best = d;
                id = dists[i].0;
            }
        }
        i += 1;
    }
    assert(dists@.take(i as int) =~= dists@);
    id
}

/// The least distance and the face that has it first.
pub open spec fn nearest_of(dists: Seq<(NodeId, Option<u64>)>, fallback: NodeId) -> (u64, NodeId)
    decreases dists.len(),
{
    if dists.len() == 0 {
        (INFINITY_BITS, fallback)
    } else {
        let best = nearest_of(dists.drop_last(), fallback);
        match dists.last().1 {
            Some(d) => if below(d, best.0) {
                (d, dists.last().0)
            } else {
                best
            },
            None => best,
        }
    }
}

} // verus!
