//! Triangle mesh produced by tessellation: edge accounting, winding, merging.
//!
//! Coordinates and colours are held as the bits of their numbers.

use std::collections::HashMap;

use vstd::prelude::*;

use crate::edges::{
    count_class, edge_table, edges_of, is_table, lemma_packed, lemma_users_among, packed,
    table_keys, unpacked, users, EdgeClass, EdgeUse, Tri,
};
use crate::orient::{flood, flooded, walk_of};
use crate::text::{push_decimal, push_signed};
use crate::value::NodeId;

verus! {

broadcast use vstd::std_specs::hash::group_hash_axioms;

pub struct Mesh {
    pub vertices: Vec<[u64; 3]>,
    pub triangles: Vec<[u32; 3]>,
    /// Source FACE node id per triangle.
    pub face_ids: Vec<NodeId>,
    /// Face colour by FACE node id, when the file carries one.
    pub colors: HashMap<NodeId, [u64; 3]>,
    pub warnings: Vec<String>,
}

/// Edge accounting for a rendered mesh, by the directed-edge rule.
///
/// This is a rendering tool, so the report exists to answer one question:
/// where will the picture be wrong? An open edge is a place you can see
/// through the part. The other counts are kept because they explain *why*
/// gaps appear and make regressions attributable, not as goals in
/// themselves.
#[derive(Debug, Clone, Copy, PartialEq, Eq, Structural)]
pub struct EdgeReport {
    pub triangles: usize,
    /// Directed edges with no opposite: a visible gap starts here.
    pub open: usize,
    /// Directed edges traversed the same way by two triangles: the
    /// neighbours disagree on winding. Invisible under two-sided shading.
    pub reversed: usize,
    /// Undirected edges shared by more than two triangles: overlapping
    /// surface, which renders the same as one copy.
    pub overshared: usize,
    /// Triangles with a repeated vertex.
    pub degenerate: usize,
}

impl Default for EdgeReport {
    fn default() -> (r: Self)
        ensures
            r == (EdgeReport { triangles: 0, open: 0, reversed: 0, overshared: 0, degenerate: 0 }),
    {
        EdgeReport { triangles: 0, open: 0, reversed: 0, overshared: 0, degenerate: 0 }
    }
}

impl EdgeReport {
    /// What `message` says of the report.
    pub open spec fn text(self) -> Seq<char> {
        "edges: "@ + crate::text::decimal(self.open as nat) + " open, "@ + crate::text::decimal(
            self.reversed as nat,
        ) + " reversed, "@ + crate::text::decimal(self.overshared as nat) + " shared>2, "@
            + crate::text::decimal(self.degenerate as nat) + " degenerate (of "@
            + crate::text::decimal(self.triangles as nat) + " triangles)"@
    }

    /// The report in words.
    pub fn message(&self) -> (r: String)
        ensures
            r@ == self.text(),
    {
        let mut s = "edges: ".to_owned();
        push_decimal(&mut s, self.open as u64);
        s.append(" open, ");
        push_decimal(&mut s, self.reversed as u64);
        s.append(" reversed, ");
        push_decimal(&mut s, self.overshared as u64);
        s.append(" shared>2, ");
        push_decimal(&mut s, self.degenerate as u64);
        s.append(" degenerate (of ");
        push_decimal(&mut s, self.triangles as u64);
        s.append(" triangles)");
        s
    }
}

/// A triangle with a repeated vertex.
pub open spec fn degenerate(t: Tri) -> bool {
    t@[0] == t@[1] || t@[1] == t@[2] || t@[0] == t@[2]
}

impl Mesh {
    /// Every corner of a triangle is one of the vertices, and every triangle has
    /// a face.
    pub open spec fn indexed(self) -> bool {
        &&& self.triangles@.len() == self.face_ids@.len()
        &&& forall|i: int, k: int|
            0 <= i < self.triangles@.len() && 0 <= k < 3 ==> (#[trigger] self.triangles@[i]@[k])
                < self.vertices@.len()
    }

    /// No triangle has a repeated vertex.
    pub open spec fn upright(self) -> bool {
        forall|i: int|
            0 <= i < self.triangles@.len() ==> !degenerate(#[trigger] self.triangles@[i])
    }
}

/// The triangles without a repeated vertex.
pub open spec fn proper(tris: Seq<Tri>) -> Seq<Tri>
    decreases tris.len(),
{
    if tris.len() == 0 {
        Seq::empty()
    } else if degenerate(tris.last()) {
        proper(tris.drop_last())
    } else {
        proper(tris.drop_last()).push(tris.last())
    }
}

/// A triangle turned over: the same first vertex, the other two swapped.
pub open spec fn turned(t: Tri) -> Seq<u32> {
    seq![t@[0], t@[2], t@[1]]
}

/// The triangles are those of `before`, with those marked in `flip` turned
/// over.
pub open spec fn turned_by(before: Seq<Tri>, after: Seq<Tri>, flip: spec_fn(int) -> bool) -> bool {
    &&& after.len() == before.len()
    &&& forall|i: int|
        0 <= i < before.len() ==> (#[trigger] after[i])@ == if flip(i) {
            turned(before[i])
        } else {
            before[i]@
        }
}

/// The connected pieces of a mesh.
pub struct Pieces {
    /// The piece of each triangle.
    pub piece: Vec<usize>,
    /// Whether each triangle was turned over to agree with its neighbours.
    pub flipped: Vec<bool>,
    /// The number of triangles in each piece.
    pub size: Vec<usize>,
    /// The number of open edges in each piece.
    pub open: Vec<usize>,
}

/// The number of triangles in piece `k`.
pub open spec fn piece_size(piece: Seq<usize>, k: int) -> nat
    decreases piece.len(),
{
    if piece.len() == 0 {
        0
    } else {
        piece_size(piece.drop_last(), k) + if piece.last() == k {
            1nat
        } else {
            0nat
        }
    }
}

/// The edges that a single corner uses, whose triangle lies in piece `k`.
pub open spec fn open_edges_in(tris: Seq<Tri>, piece: Seq<usize>, k: int) -> Set<(u32, u32)> {
    Set::new(
        |e: (u32, u32)| users(tris, e).len() == 1 && piece[users(tris, e)[0] / 3] == k,
    )
}

/// `p` tells of the pieces of `tris`: they are flooded, in the order of the
/// flood, which decides where neighbours cannot be made to agree.
pub open spec fn pieces_of(tris: Seq<Tri>, p: Pieces) -> bool {
    &&& flooded(tris, p.piece@, p.flipped@, p.size@.len())
    &&& p.piece@ == walk_of(tris).0.piece
    &&& p.flipped@ == walk_of(tris).0.flip
    &&& p.size@.len() == walk_of(tris).1
    &&& p.open@.len() == p.size@.len()
    &&& forall|k: int|
        0 <= k < p.size@.len() ==> #[trigger] p.size@[k] == piece_size(p.piece@, k)
    &&& forall|k: int|
        0 <= k < p.open@.len() ==> #[trigger] p.open@[k] == open_edges_in(tris, p.piece@, k).len()
}

/// What the shape of a piece says about its inside and its outside.
#[derive(Clone, Copy, PartialEq, Eq, Structural)]
pub enum Enclosure {
    /// It encloses no volume to speak of.
    Flat,
    /// It encloses a volume, positive as wound or not, and lies inside an odd
    /// number of other pieces or not.
    Solid { positive: bool, nested: bool },
}

/// The piece has its inside out. Substantially open pieces and those that
/// enclose no volume make no claim; an outer boundary must enclose positive
/// volume, and the wall of a cavity negative volume.
pub open spec fn inside_out(size: nat, open_edges: nat, claim: Enclosure) -> bool {
    if open_edges * 10 >= (if size < 1 {
        1
    } else {
        size
    }) {
        false
    } else {
        match claim {
            Enclosure::Flat => false,
            Enclosure::Solid { positive, nested } => positive == nested,
        }
    }
}

/// True when the piece has its inside out.
fn is_inside_out(size: usize, open_edges: usize, claim: Enclosure) -> (r: bool)
    ensures
        r == inside_out(size as nat, open_edges as nat, claim),
{
    let least: u128 = if size < 1 {
        1
    } else {
        size as u128
    };
    if open_edges as u128 * 10 >= least {
        return false;
    }
    match claim {
        Enclosure::Flat => false,
        Enclosure::Solid { positive, nested } => positive == nested,
    }
}

/// Turn a triangle over.
fn turn(t: &Tri) -> (r: Tri)
    ensures
        r@ == turned(*t),
{
    let r: Tri = [t[0], t[2], t[1]];
    assert(r@ =~= turned(*t));
    r
}

/// The numbers of triangles in `count` pieces.
fn piece_sizes(piece: &Vec<usize>, count: usize) -> (r: Vec<usize>)
    requires
        forall|i: int| 0 <= i < piece@.len() ==> #[trigger] piece@[i] < count,
    ensures
        r@.len() == count,
        forall|k: int| 0 <= k < count ==> #[trigger] r@[k] == piece_size(piece@, k),
{
    let mut sizes: Vec<usize> = vec![0usize; count];
    let mut i: usize = 0;
    assert(piece@.take(0) =~= Seq::<usize>::empty());
    while i < piece.len()
        invariant
            i <= piece@.len(),
            sizes@.len() == count,
            forall|j: int| 0 <= j < piece@.len() ==> #[trigger] piece@[j] < count,
            forall|k: int|
                0 <= k < count ==> #[trigger] sizes@[k] == piece_size(piece@.take(i as int), k)
                    && sizes@[k] <= i,
        decreases piece@.len() - i,
    {
        assert(piece@.take(i + 1).drop_last() =~= piece@.take(i as int));
        let k: usize = piece[i];
        let n: usize = sizes[k];
        sizes.set(k, n + 1);
        i += 1;
    }
    assert(piece@.take(i as int) =~= piece@);
    sizes
}

/// The open edges in piece `k` among those with the first `n` of the numbers.
spec fn open_among(
    tris: Seq<Tri>,
    piece: Seq<usize>,
    keys: Seq<u64>,
    n: int,
    k: int,
) -> Set<(u32, u32)> {
    Set::new(
        |e: (u32, u32)|
            keys.take(n).contains(packed(e)) && users(tris, e).len() == 1 && piece[users(
                tris,
                e,
            )[0] / 3] == k,
    )
}

/// One more number adds its edge, if that is an open one of the piece.
proof fn lemma_open_among(
    tris: Seq<Tri>,
    piece: Seq<usize>,
    keys: Seq<u64>,
    i: int,
    k: int,
)
    requires
        0 <= i < keys.len(),
        keys.no_duplicates(),
    ensures
        ({
            let e = unpacked(keys[i]);
            let before = open_among(tris, piece, keys, i, k);
            let after = open_among(tris, piece, keys, i + 1, k);
            let is_open = users(tris, e).len() == 1 && piece[users(tris, e)[0] / 3] == k;
            &&& !before.contains(e)
            &&& is_open ==> after == before.insert(e)
            &&& !is_open ==> after == before
        }),
{
    let e = unpacked(keys[i]);
    let before = open_among(tris, piece, keys, i, k);
    let after = open_among(tris, piece, keys, i + 1, k);
    let is_open = users(tris, e).len() == 1 && piece[users(tris, e)[0] / 3] == k;
    lemma_packed();
    assert(packed(e) == keys[i]);
    let few = keys.take(i);
    let more = keys.take(i + 1);
    assert(!few.contains(keys[i])) by {
        if few.contains(keys[i]) {
            let j = choose|j: int| 0 <= j < few.len() && few[j] == keys[i];
            assert(keys[j] == keys[i]);
        }
    }
    assert forall|f: (u32, u32)| after.contains(f) <==> before.contains(f) || (f == e
        && is_open) by {
        assert(unpacked(packed(f)) == f);
        if few.contains(packed(f)) {
            let j = choose|j: int| 0 <= j < few.len() && few[j] == packed(f);
            assert(more[j] == packed(f));
        }
        assert(more[i] == keys[i]);
        if more.contains(packed(f)) && f != e {
            let j = choose|j: int| 0 <= j < more.len() && more[j] == packed(f);
            assert(j != i);
            assert(few[j] == packed(f));
        }
    }
    if is_open {
        assert(after =~= before.insert(e));
    } else {
        assert(after =~= before);
    }
}

/// The numbers of open edges in `count` pieces.
fn piece_opens(
    tris: &Vec<Tri>,
    table: &HashMap<u64, EdgeUse>,
    piece: &Vec<usize>,
    count: usize,
) -> (r: Vec<usize>)
    requires
        is_table(table@, tris@, (3 * tris@.len()) as nat),
        piece@.len() == tris@.len(),
        forall|i: int| 0 <= i < piece@.len() ==> #[trigger] piece@[i] < count,
    ensures
        r@.len() == count,
        forall|k: int|
            0 <= k < count ==> #[trigger] r@[k] == open_edges_in(tris@, piece@, k).len(),
{
    let keys = table_keys(table);
    let mut opens: Vec<usize> = vec![0usize; count];
    let mut i: usize = 0;
    proof {
        assert forall|k: int| 0 <= k < count implies #[trigger] opens@[k] == open_among(
            tris@,
            piece@,
            keys@,
            0,
            k,
        ).len() && open_among(tris@, piece@, keys@, 0, k).finite() && opens@[k] <= i by {
            assert(open_among(tris@, piece@, keys@, 0, k) =~= Set::<(u32, u32)>::empty());
        }
    }
    while i < keys.len()
        invariant
            i <= keys@.len(),
            keys@.no_duplicates(),
            keys@.to_set() == table@.dom(),
            is_table(table@, tris@, (3 * tris@.len()) as nat),
            piece@.len() == tris@.len(),
            forall|j: int| 0 <= j < piece@.len() ==> #[trigger] piece@[j] < count,
            opens@.len() == count,
            forall|k: int|
                0 <= k < count ==> #[trigger] opens@[k] == open_among(
                    tris@,
                    piece@,
                    keys@,
                    i as int,
                    k,
                ).len() && open_among(tris@, piece@, keys@, i as int, k).finite() && opens@[k]
                    <= i,
        decreases keys@.len() - i,
    {
        let ghost e = unpacked(keys@[i as int]);
        let ghost list = users(tris@, e);
        let ghost before = opens@;
        proof {
            lemma_packed();
            assert(keys@.to_set().contains(keys@[i as int]));
            assert(table@.contains_key(packed(e)));
            lemma_users_among(tris@, (3 * tris@.len()) as nat, e);
        }
        let u: EdgeUse = *table.get(&keys[i]).unwrap();
        if u.count == 1 {
            assert(list.len() == 1);
            assert(0 <= list[0] < 3 * tris@.len());
            assert(list[0] / 3 == u.t0);
            let k: usize = piece[u.t0];
            let n: usize = opens[k];
            opens.set(k, n + 1);
        }
        proof {
            assert forall|k: int| 0 <= k < count implies #[trigger] opens@[k] == open_among(
                tris@,
                piece@,
                keys@,
                i + 1,
                k,
            ).len() && open_among(tris@, piece@, keys@, i + 1, k).finite() && opens@[k] <= i
                + 1 by {
                lemma_open_among(tris@, piece@, keys@, i as int, k);
                assert(before[k] == open_among(tris@, piece@, keys@, i as int, k).len());
            }
        }
        i += 1;
    }
    proof {
        lemma_packed();
        assert(keys@.take(i as int) =~= keys@);
        assert forall|k: int| 0 <= k < count implies #[trigger] opens@[k] == open_edges_in(
            tris@,
            piece@,
            k,
        ).len() by {
            let a = open_edges_in(tris@, piece@, k);
            let b = open_among(tris@, piece@, keys@, i as int, k);
            assert forall|e: (u32, u32)| a.contains(e) <==> b.contains(e) by {
                assert(table@.contains_key(packed(e)) <==> users(tris@, e).len() > 0);
                assert(keys@.to_set().contains(packed(e)) <==> keys@.contains(packed(e)));
            }
            assert(a =~= b);
        }
    }
    opens
}

/// The mesh differs in its triangles at most.
pub open spec fn only_triangles_changed(a: Mesh, b: Mesh) -> bool {
    a.vertices == b.vertices && a.face_ids == b.face_ids && a.colors == b.colors && a.warnings
        == b.warnings
}

impl Default for Mesh {
    fn default() -> (r: Self)
        ensures
            r.vertices@ == Seq::<[u64; 3]>::empty(),
            r.triangles@ == Seq::<Tri>::empty(),
            r.face_ids@ == Seq::<NodeId>::empty(),
            r.colors@ == Map::<NodeId, [u64; 3]>::empty(),
            r.warnings@ == Seq::<String>::empty(),
    {
        Mesh {
            vertices: Vec::new(),
            triangles: Vec::new(),
            face_ids: Vec::new(),
            colors: HashMap::new(),
            warnings: Vec::new(),
        }
    }
}

impl Mesh {
    /// Make neighbouring triangles agree on winding, piece by piece.
    ///
    /// Winding is decided per face during tessellation, from the parametric
    /// normal times the surface and face senses. That rule is right for the
    /// analytic surfaces but depends on the handedness of the parameterisation,
    /// and for a NURBS surface the handedness is whatever the control net
    /// happens to give -- so neighbouring faces disagree.
    ///
    /// Consistency does not need any of that. Flood filling the relation of
    /// agreement over shared edges orients each connected piece up to one
    /// global sign per piece, which [`Mesh::orient`] then settles.
    pub fn make_consistent(&mut self) -> (r: Pieces)
        ensures
            pieces_of(old(self).triangles@, r),
            turned_by(
                old(self).triangles@,
                final(self).triangles@,
                |i: int| r.flipped@[i],
            ),
            only_triangles_changed(*final(self), *old(self)),
    {
        let table = edge_table(&self.triangles);
        let (piece, flipped, count) = flood(&self.triangles, &table);
        let size = piece_sizes(&piece, count);
        let open = piece_opens(&self.triangles, &table, &piece, count);
        let ghost before = self.triangles@;
        let mut i: usize = 0;
        while i < self.triangles.len()
            invariant
                i <= before.len(),
                self.triangles@.len() == before.len(),
                flipped@.len() == before.len(),
                before == old(self).triangles@,
                only_triangles_changed(*self, *old(self)),
                forall|j: int|
                    0 <= j < i ==> (#[trigger] self.triangles@[j])@ == if flipped@[j] {
                        turned(before[j])
                    } else {
                        before[j]@
                    },
                forall|j: int|
                    i <= j < before.len() ==> #[trigger] self.triangles@[j] == before[j],
            decreases before.len() - i,
        {
            if flipped[i] {
                let t = turn(&self.triangles[i]);
                self.triangles.set(i, t);
            }
            i += 1;
        }
        Pieces { piece, flipped, size, open }
    }

    /// Point each closed piece outwards.
    ///
    /// The sign of a piece follows a convention, not a vote: the embedding
    /// decides. A piece at even nesting depth is an outer boundary and must
    /// enclose positive volume; one at odd depth is the wall of a cavity and
    /// must enclose negative volume. Pieces that are substantially open, or
    /// enclose no volume to speak of, make no claim and keep the orientation
    /// that consistency gave them.
    pub fn orient(&mut self, pieces: &Pieces, claims: &[Enclosure])
        requires
            pieces.piece@.len() == old(self).triangles@.len(),
            pieces.open@.len() == pieces.size@.len(),
            claims@.len() == pieces.size@.len(),
            forall|i: int|
                0 <= i < pieces.piece@.len() ==> #[trigger] pieces.piece@[i] < pieces.size@.len(),
        ensures
            turned_by(
                old(self).triangles@,
                final(self).triangles@,
                |i: int|
                    inside_out(
                        pieces.size@[pieces.piece@[i] as int] as nat,
                        pieces.open@[pieces.piece@[i] as int] as nat,
                        claims@[pieces.piece@[i] as int],
                    ),
            ),
            only_triangles_changed(*final(self), *old(self)),
    {
        let ghost before = self.triangles@;
        let mut i: usize = 0;
        while i < self.triangles.len()
            invariant
                i <= before.len(),
                self.triangles@.len() == before.len(),
                before == old(self).triangles@,
                pieces.piece@.len() == before.len(),
                pieces.open@.len() == pieces.size@.len(),
                claims@.len() == pieces.size@.len(),
                forall|j: int|
                    0 <= j < pieces.piece@.len() ==> #[trigger] pieces.piece@[j]
                        < pieces.size@.len(),
                only_triangles_changed(*self, *old(self)),
                forall|j: int|
                    0 <= j < i ==> (#[trigger] self.triangles@[j])@ == if inside_out(
                        pieces.size@[pieces.piece@[j] as int] as nat,
                        pieces.open@[pieces.piece@[j] as int] as nat,
                        claims@[pieces.piece@[j] as int],
                    ) {
                        turned(before[j])
                    } else {
                        before[j]@
                    },
                forall|j: int|
                    i <= j < before.len() ==> #[trigger] self.triangles@[j] == before[j],
            decreases before.len() - i,
        {
            let k: usize = pieces.piece[i];
            if is_inside_out(pieces.size[k], pieces.open[k], claims[k]) {
                let t = turn(&self.triangles[i]);
                self.triangles.set(i, t);
            }
            i += 1;
        }
    }

    pub fn is_empty(&self) -> (r: bool)
        ensures
            r == (self.triangles@.len() == 0),
    {
        self.triangles.len() == 0
    }

    /// Number of edges used by exactly one triangle (0 == closed surface).
    pub fn boundary_edge_count(&self) -> (r: usize)
        ensures
            r == edges_of(self.triangles@, EdgeClass::Open).len(),
    {
        let table = edge_table(&self.triangles);
        count_class(&self.triangles, &table, EdgeClass::Open)
    }

    /// Classify every edge once; see [`EdgeReport`].
    ///
    /// Each undirected edge is classified once, so the counts do not overlap:
    /// used by one triangle is open, by two triangles traversing it the same
    /// way is reversed, by more than two is overshared.
    pub fn edge_report(&self) -> (r: EdgeReport)
        ensures
            r.triangles == self.triangles@.len(),
            r.degenerate == self.triangles@.len() - proper(self.triangles@).len(),
            r.open == edges_of(proper(self.triangles@), EdgeClass::Open).len(),
            r.reversed == edges_of(proper(self.triangles@), EdgeClass::Reversed).len(),
            r.overshared == edges_of(proper(self.triangles@), EdgeClass::Overshared).len(),
    {
        let mut kept: Vec<Tri> = Vec::new();
        let mut i: usize = 0;
        while i < self.triangles.len()
            invariant
                i <= self.triangles@.len(),
                kept@ == proper(self.triangles@.take(i as int)),
                kept@.len() <= i,
            decreases self.triangles@.len() - i,
        {
            assert(self.triangles@.take(i + 1).drop_last() =~= self.triangles@.take(i as int));
            let t: Tri = self.triangles[i];
            if !(t[0] == t[1] || t[1] == t[2] || t[0] == t[2]) {
                kept.push(t);
            }
            i += 1;
        }
        assert(self.triangles@.take(i as int) =~= self.triangles@);
        let table = edge_table(&kept);
        EdgeReport {
            triangles: self.triangles.len(),
            open: count_class(&kept, &table, EdgeClass::Open),
            reversed: count_class(&kept, &table, EdgeClass::Reversed),
            overshared: count_class(&kept, &table, EdgeClass::Overshared),
            degenerate: self.triangles.len() - kept.len(),
        }
    }
}

/// Colours by face, those of `b` winning.
pub open spec fn both_colors(a: Map<NodeId, [u64; 3]>, b: Map<NodeId, [u64; 3]>) -> Map<
    NodeId,
    [u64; 3],
> {
    a.union_prefer_right(b)
}

/// The face ids of coloured faces, each once.
fn color_keys(colors: &HashMap<NodeId, [u64; 3]>) -> (r: Vec<NodeId>)
    ensures
        r@.to_set() == colors@.dom(),
{
    let mut out: Vec<NodeId> = Vec::new();
    for key in it: colors.keys()
        invariant
            it.seq().unref().to_set() == colors@.dom(),
            out@.len() == it.index(),
            forall|j: int| 0 <= j < out@.len() ==> #[trigger] out@[j] == *it.seq()[j],
            it.index() == it.seq().len() ==> out@ =~= it.seq().unref(),
    {
        out.push(*key);
    }
    out
}

impl Mesh {
    /// Overlay another body's mesh onto this one. FACE node ids are per-body
    /// and can collide across bodies; that only perturbs diff colouring, and
    /// each body arrives already oriented.
    pub fn merge(&mut self, other: Mesh)
        requires
            old(self).vertices@.len() <= u32::MAX,
            forall|i: int, k: int|
                0 <= i < other.triangles@.len() && 0 <= k < 3 ==> (
                #[trigger] other.triangles@[i]@[k]) + old(self).vertices@.len() <= u32::MAX,
        ensures
            final(self).vertices@ == old(self).vertices@ + other.vertices@,
            final(self).triangles@.len() == old(self).triangles@.len() + other.triangles@.len(),
            forall|i: int|
                0 <= i < old(self).triangles@.len() ==> #[trigger] final(self).triangles@[i]
                    == old(self).triangles@[i],
            forall|i: int, k: int|
                0 <= i < other.triangles@.len() && 0 <= k < 3
                    ==> final(self).triangles@[old(self).triangles@.len() + i]@[k] == (
                #[trigger] other.triangles@[i]@[k]) + old(self).vertices@.len(),
            final(self).face_ids@ == old(self).face_ids@ + other.face_ids@,
            final(self).colors@ == both_colors(old(self).colors@, other.colors@),
            final(self).warnings@ == old(self).warnings@ + other.warnings@,
    {
        let off: u32 = self.vertices.len() as u32;
        let mut more = other;
        let ghost given = more;
        self.vertices.append(&mut more.vertices);
        let ghost before = self.triangles@;
        let mut i: usize = 0;
        while i < more.triangles.len()
            invariant
                i <= given.triangles@.len(),
                off == old(self).vertices@.len(),
                before == old(self).triangles@,
                more.triangles == given.triangles,
                more.face_ids == given.face_ids,
                more.colors == given.colors,
                more.warnings == given.warnings,
                given == other,
                forall|i: int, k: int|
                    0 <= i < given.triangles@.len() && 0 <= k < 3 ==> (
                    #[trigger] given.triangles@[i]@[k]) + off <= u32::MAX,
                self.vertices@ == old(self).vertices@ + given.vertices@,
                self.face_ids == old(self).face_ids,
                self.colors == old(self).colors,
                self.warnings == old(self).warnings,
                self.triangles@.len() == before.len() + i,
                forall|j: int| 0 <= j < before.len() ==> #[trigger] self.triangles@[j] == before[j],
                forall|j: int, k: int|
                    0 <= j < i && 0 <= k < 3 ==> self.triangles@[before.len() + j]@[k] == (
                    #[trigger] given.triangles@[j]@[k]) + off,
            decreases given.triangles@.len() - i,
        {
            let t: Tri = more.triangles[i];
            assert(given.triangles@[i as int]@[0] + off <= u32::MAX);
            assert(given.triangles@[i as int]@[1] + off <= u32::MAX);
            assert(given.triangles@[i as int]@[2] + off <= u32::MAX);
            self.triangles.push([t[0] + off, t[1] + off, t[2] + off]);
            i += 1;
        }
        self.face_ids.append(&mut more.face_ids);
        self.warnings.append(&mut more.warnings);
        let keys = color_keys(&more.colors);
        let mut n: usize = 0;
        let ghost old_colors = self.colors@;
        let ghost m = *self;
        while n < keys.len()
            invariant
                n <= keys@.len(),
                keys@.to_set() == more.colors@.dom(),
                self.vertices == m.vertices,
                self.triangles == m.triangles,
                self.face_ids == m.face_ids,
                self.warnings == m.warnings,
                forall|k: NodeId| #[trigger]
                    self.colors@.contains_key(k) <==> old_colors.contains_key(k) || keys@.take(
                        n as int,
                    ).contains(k),
                forall|k: NodeId|
                    keys@.take(n as int).contains(k) ==> #[trigger] self.colors@[k]
                        == more.colors@[k],
                forall|k: NodeId|
                    old_colors.contains_key(k) && !keys@.take(n as int).contains(k)
                        ==> #[trigger] self.colors@[k] == old_colors[k],
            decreases keys@.len() - n,
        {
            let ghost was = self.colors@;
            let key: NodeId = keys[n];
            assert(keys@.to_set().contains(key));
            let c: [u64; 3] = *more.colors.get(&key).unwrap();
            self.colors.insert(key, c);
            proof {
                assert(keys@.take(n + 1) =~= keys@.take(n as int).push(key));
                assert forall|k: NodeId| keys@.take(n + 1).contains(k) <==> keys@.take(
                    n as int,
                ).contains(k) || k == key by {
                    lemma_push_contains(keys@.take(n as int), key, k);
                }
            }
            n += 1;
        }
        proof {
            assert(keys@.take(n as int) =~= keys@);
            assert forall|k: NodeId| keys@.contains(k) <==> more.colors@.contains_key(k) by {
                assert(keys@.to_set().contains(k) <==> keys@.contains(k));
            }
            assert(self.colors@ =~= both_colors(old_colors, more.colors@));
        }
    }
}

/// A list with one more item holds that item and those it held.
proof fn lemma_push_contains(s: Seq<NodeId>, a: NodeId, k: NodeId)
    ensures
        s.push(a).contains(k) <==> s.contains(k) || k == a,
{
    let t = s.push(a);
    if s.contains(k) {
        let i = choose|i: int| 0 <= i < s.len() && s[i] == k;
        assert(t[i] == k);
    }
    if k == a {
        assert(t[s.len() as int] == k);
    }
    if t.contains(k) && k != a {
        let i = choose|i: int| 0 <= i < t.len() && t[i] == k;
        assert(s[i] == k);
    }
}

/// One line for a triangle of an OBJ file, counting vertices from 1, behind a
/// group line where its face is not that of the triangle before it.
pub open spec fn obj_line(t: Tri, id: NodeId, last: Option<NodeId>) -> Seq<char> {
    (if last == Some(id) {
        Seq::empty()
    } else {
        "g face_"@ + crate::text::signed_decimal(id as int) + "\n"@
    }) + "f "@ + crate::text::decimal((t@[0] + 1) as nat) + " "@ + crate::text::decimal(
        (t@[1] + 1) as nat,
    ) + " "@ + crate::text::decimal((t@[2] + 1) as nat) + "\n"@
}

/// The lines of the first `n` triangles of an OBJ file.
pub open spec fn obj_lines(tris: Seq<Tri>, ids: Seq<NodeId>, n: nat) -> Seq<char>
    decreases n,
{
    if n == 0 {
        Seq::empty()
    } else {
        obj_lines(tris, ids, (n - 1) as nat) + obj_line(
            tris[n - 1],
            ids[n - 1],
            if n >= 2 {
                Some(ids[n - 2])
            } else {
                None
            },
        )
    }
}

impl Mesh {
    /// The face part of the mesh as an OBJ file.
    pub fn obj_faces(&self) -> (r: String)
        ensures
            r@ == obj_lines(
                self.triangles@,
                self.face_ids@,
                if self.triangles@.len() < self.face_ids@.len() {
                    self.triangles@.len()
                } else {
                    self.face_ids@.len()
                },
            ),
    {
        let n: usize = if self.triangles.len() < self.face_ids.len() {
            self.triangles.len()
        } else {
            self.face_ids.len()
        };
        let mut s = String::new();
        let mut last: Option<NodeId> = None;
        let mut i: usize = 0;
        while i < n
            invariant
                i <= n,
                n <= self.triangles@.len(),
                n <= self.face_ids@.len(),
                last == (if i >= 1 {
                    Some(self.face_ids@[i - 1])
                } else {
                    None
                }),
                s@ == obj_lines(self.triangles@, self.face_ids@, i as nat),
            decreases n - i,
        {
            let ghost before = s@;
            let id: NodeId = self.face_ids[i];
            let same = match last {
                Some(l) => l == id,
                None => false,
            };
            if !same {
                s.append("g face_");
                push_signed(&mut s, id as i64);
                s.append("\n");
                last = Some(id);
            }
            let t: Tri = self.triangles[i];
            s.append("f ");
            push_decimal(&mut s, t[0] as u64 + 1);
            s.append(" ");
            push_decimal(&mut s, t[1] as u64 + 1);
            s.append(" ");
            push_decimal(&mut s, t[2] as u64 + 1);
            s.append("\n");
            assert(s@ =~= before + obj_line(
                self.triangles@[i as int],
                id,
                if i >= 1 {
                    Some(self.face_ids@[i - 1])
                } else {
                    None
                },
            ));
            i += 1;
        }
        s
    }
}

} // verus!
