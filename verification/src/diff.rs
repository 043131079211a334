//! Compare two revisions of a part, face by face.
//!
//! Matching is geometric. SolidWorks does store per-face ids, but they are a
//! feature-provenance chain rather than an identity, and across real vault
//! revisions not one face id survives an edit. So faces are matched by what
//! they are and where they are, which is what every other CAD diff has to do.
//!
//! A face's signature is its surface type, that surface's own parameters, and
//! the extent of its boundary. The first two say "a cylinder of radius 3 about
//! this axis"; the third distinguishes the several faces that can share one
//! infinite surface. Quantising all of it to a fraction of part size makes the
//! comparison tolerant of the last-bit differences that a rebuild introduces
//! without merging things that genuinely moved.

use std::collections::HashMap;

use vstd::prelude::*;

use crate::mesh::Mesh;
use crate::text::{push_decimal, same_text};
use crate::value::{Node, NodeId, Value, ValueView};

verus! {

broadcast use vstd::std_specs::hash::group_hash_axioms;

/// What happened to a face between two revisions.
#[derive(Debug, Clone, Copy, PartialEq, Eq, Structural)]
pub enum Change {
    /// Same surface, same parameters, same place.
    Unchanged,
    /// Same surface type and size, but it sits somewhere else.
    Moved,
    /// Present only in the newer revision.
    Added,
    /// Present only in the older revision.
    Removed,
}

/// The bits of the colour that stands for a change.
pub open spec fn color_bits(c: Change) -> Seq<u64> {
    match c {
        // 0.62, 0.66, 0.76
        Change::Unchanged => seq![0x3fe3d70a3d70a3d7, 0x3fe51eb851eb851f, 0x3fe851eb851eb852],
        // 0.88, 0.69, 0.41
        Change::Moved => seq![0x3fec28f5c28f5c29, 0x3fe6147ae147ae14, 0x3fda3d70a3d70a3d],
        // 0.62, 0.81, 0.42
        Change::Added => seq![0x3fe3d70a3d70a3d7, 0x3fe9eb851eb851ec, 0x3fdae147ae147ae1],
        // 0.97, 0.46, 0.56
        Change::Removed => seq![0x3fef0a3d70a3d70a, 0x3fdd70a3d70a3d71, 0x3fe1eb851eb851ec],
    }
}

/// The word for a change.
pub open spec fn label_text(c: Change) -> Seq<char> {
    match c {
        Change::Unchanged => "unchanged"@,
        Change::Moved => "moved"@,
        Change::Added => "added"@,
        Change::Removed => "removed"@,
    }
}

impl Change {
    /// Colour used by the renderers, as bits. Deliberately the familiar diff
    /// palette, with unchanged material muted so changes carry the eye.
    pub fn color(self) -> (r: [u64; 3])
        ensures
            r@ == color_bits(self),
    {
        let c: [u64; 3] = match self {
            Change::Unchanged => [0x3fe3d70a3d70a3d7, 0x3fe51eb851eb851f, 0x3fe851eb851eb852],
            Change::Moved => [0x3fec28f5c28f5c29, 0x3fe6147ae147ae14, 0x3fda3d70a3d70a3d],
            Change::Added => [0x3fe3d70a3d70a3d7, 0x3fe9eb851eb851ec, 0x3fdae147ae147ae1],
            Change::Removed => [0x3fef0a3d70a3d70a, 0x3fdd70a3d70a3d71, 0x3fe1eb851eb851ec],
        };
        assert(c@ =~= color_bits(self));
        c
    }

    pub fn label(self) -> (r: &'static str)
        ensures
            r@ == label_text(self),
    {
        match self {
            Change::Unchanged => "unchanged",
            Change::Moved => "moved",
            Change::Added => "added",
            Change::Removed => "removed",
        }
    }
}

/// Per-face verdicts for both sides of a comparison.
pub struct Diff {
    /// Faces of the older revision. Only ever `Unchanged`, `Moved`, `Removed`.
    pub old: HashMap<NodeId, Change>,
    /// Faces of the newer revision. Only ever `Unchanged`, `Moved`, `Added`.
    pub new: HashMap<NodeId, Change>,
}

/// The faces with one verdict.
pub open spec fn with_verdict(side: Map<NodeId, Change>, c: Change) -> Set<NodeId> {
    Set::new(|k: NodeId| side.contains_key(k) && side[k] == c)
}

/// Every face of a side is unchanged.
pub open spec fn all_unchanged(side: Map<NodeId, Change>) -> bool {
    forall|k: NodeId| #[trigger] side.contains_key(k) ==> side[k] == Change::Unchanged
}

/// The faces of a side, each once.
fn faces_of(side: &HashMap<NodeId, Change>) -> (r: Vec<NodeId>)
    ensures
        r@.no_duplicates(),
        r@.to_set() == side@.dom(),
{
    let mut out: Vec<NodeId> = Vec::new();
    for key in it: side.keys()
        invariant
            it.seq().no_duplicates(),
            it.seq().unref().to_set() == side@.dom(),
            out@.len() == it.index(),
            forall|j: int| 0 <= j < out@.len() ==> #[trigger] out@[j] == *it.seq()[j],
            it.index() == it.seq().len() ==> out@ =~= it.seq().unref(),
    {
        out.push(*key);
    }
    assert(out@.no_duplicates());
    out
}

/// The faces with one verdict among the first `n` of a list.
spec fn verdict_among(side: Map<NodeId, Change>, keys: Seq<NodeId>, n: int, c: Change) -> Set<
    NodeId,
> {
    Set::new(|k: NodeId| keys.take(n).contains(k) && side[k] == c)
}

/// One more face of the list counts if it has the verdict.
proof fn lemma_verdict_among(
    side: Map<NodeId, Change>,
    keys: Seq<NodeId>,
    i: int,
    c: Change,
)
    requires
        0 <= i < keys.len(),
        keys.no_duplicates(),
    ensures
        !verdict_among(side, keys, i, c).contains(keys[i]),
        side[keys[i]] == c ==> verdict_among(side, keys, i + 1, c) == verdict_among(
            side,
            keys,
            i,
            c,
        ).insert(keys[i]),
        side[keys[i]] != c ==> verdict_among(side, keys, i + 1, c) == verdict_among(
            side,
            keys,
            i,
            c,
        ),
{
    let few = keys.take(i);
    let more = keys.take(i + 1);
    let before = verdict_among(side, keys, i, c);
    let after = verdict_among(side, keys, i + 1, c);
    assert(!few.contains(keys[i])) by {
        if few.contains(keys[i]) {
            let j = choose|j: int| 0 <= j < few.len() && few[j] == keys[i];
            assert(keys[j] == keys[i]);
        }
    }
    assert forall|k: NodeId| more.contains(k) <==> few.contains(k) || k == keys[i] by {
        if few.contains(k) {
            let j = choose|j: int| 0 <= j < few.len() && few[j] == k;
            assert(more[j] == k);
        }
        assert(more[i] == keys[i]);
        if more.contains(k) && k != keys[i] {
            let j = choose|j: int| 0 <= j < more.len() && more[j] == k;
            assert(few[j] == k);
        }
    }
    if side[keys[i]] == c {
        assert(after =~= before.insert(keys[i]));
    } else {
        assert(after =~= before);
    }
}

impl Diff {
    pub fn count(&self, side: &HashMap<NodeId, Change>, c: Change) -> (n: usize)
        ensures
            with_verdict(side@, c).finite(),
            n == with_verdict(side@, c).len(),
    {
        let keys = faces_of(side);
        let mut n: usize = 0;
        let mut i: usize = 0;
        assert(verdict_among(side@, keys@, 0, c) =~= Set::<NodeId>::empty());
        while i < keys.len()
            invariant
                i <= keys@.len(),
                n <= i,
                keys@.no_duplicates(),
                keys@.to_set() == side@.dom(),
                verdict_among(side@, keys@, i as int, c).finite(),
                n == verdict_among(side@, keys@, i as int, c).len(),
            decreases keys@.len() - i,
        {
            proof {
                assert(keys@.to_set().contains(keys@[i as int]));
                lemma_verdict_among(side@, keys@, i as int, c);
            }
            let v: Change = *side.get(&keys[i]).unwrap();
            if v == c {
                n += 1;
            }
            i += 1;
        }
        proof {
            assert(keys@.take(i as int) =~= keys@);
            assert forall|k: NodeId| with_verdict(side@, c).contains(k) <==> verdict_among(
                side@,
                keys@,
                i as int,
                c,
            ).contains(k) by {
                assert(keys@.to_set().contains(k) <==> keys@.contains(k));
            }
            assert(with_verdict(side@, c) =~= verdict_among(side@, keys@, i as int, c));
        }
        n
    }

    /// True when nothing at all differs.
    pub fn is_identical(&self) -> (r: bool)
        ensures
            r == (all_unchanged(self.old@) && all_unchanged(self.new@)),
    {
        is_unchanged(&self.old) && is_unchanged(&self.new)
    }

    /// What `summary` says.
    pub open spec fn text(self) -> Seq<char> {
        crate::text::decimal(with_verdict(self.new@, Change::Unchanged).len()) + " unchanged, "@
            + crate::text::decimal(with_verdict(self.new@, Change::Moved).len()) + " moved, "@
            + crate::text::decimal(with_verdict(self.new@, Change::Added).len()) + " added, "@
            + crate::text::decimal(with_verdict(self.old@, Change::Removed).len()) + " removed"@
    }

    /// One-line summary, as a reader of the comparison would want it.
    pub fn summary(&self) -> (r: String)
        ensures
            r@ == self.text(),
    {
        let mut s = String::new();
        push_decimal(&mut s, self.count(&self.new, Change::Unchanged) as u64);
        assert(s@ =~= crate::text::decimal(with_verdict(self.new@, Change::Unchanged).len()));
        s.append(" unchanged, ");
        push_decimal(&mut s, self.count(&self.new, Change::Moved) as u64);
        s.append(" moved, ");
        push_decimal(&mut s, self.count(&self.new, Change::Added) as u64);
        s.append(" added, ");
        push_decimal(&mut s, self.count(&self.old, Change::Removed) as u64);
        s.append(" removed");
        s
    }
}

/// True when every face of a side is unchanged.
fn is_unchanged(side: &HashMap<NodeId, Change>) -> (r: bool)
    ensures
        r == all_unchanged(side@),
{
    let keys = faces_of(side);
    let mut i: usize = 0;
    while i < keys.len()
        invariant
            i <= keys@.len(),
            keys@.to_set() == side@.dom(),
            forall|j: int| 0 <= j < i ==> side@[#[trigger] keys@[j]] == Change::Unchanged,
        decreases keys@.len() - i,
    {
        assert(keys@.to_set().contains(keys@[i as int]));
        let v: Change = *side.get(&keys[i]).unwrap();
        if v != Change::Unchanged {
            assert(side@.contains_key(keys@[i as int]));
            return false;
        }
        i += 1;
    }
    assert forall|k: NodeId| #[trigger] side@.contains_key(k) implies side@[k]
        == Change::Unchanged by {
        assert(keys@.to_set().contains(k));
        let j = choose|j: int| 0 <= j < keys@.len() && keys@[j] == k;
        assert(side@[keys@[j]] == Change::Unchanged);
    }
    true
}

/// Everything about a face that should survive a rebuild if nothing changed.
pub struct Sig {
    pub surface: String,
    /// Surface parameters, quantised.
    pub params: Vec<i64>,
    /// Boundary extent, quantised: lo then hi.
    pub extent: [i64; 6],
}

/// The contents of a signature.
#[verifier::ext_equal]
pub struct SigView {
    pub surface: Seq<char>,
    pub params: Seq<i64>,
    pub extent: Seq<i64>,
}

impl View for Sig {
    type V = SigView;

    open spec fn view(&self) -> SigView {
        SigView { surface: self.surface@, params: self.params@, extent: self.extent@ }
    }
}

/// A face and its signature.
pub struct FaceSig {
    pub id: NodeId,
    pub sig: Sig,
}

/// The signatures of faces.
pub open spec fn sigs(faces: Seq<FaceSig>) -> Seq<SigView> {
    faces.map_values(|f: FaceSig| f.sig@)
}

/// The ids of faces.
pub open spec fn ids(faces: Seq<FaceSig>) -> Seq<NodeId> {
    faces.map_values(|f: FaceSig| f.id)
}

/// True when both lists hold the same numbers.
fn same_numbers(a: &[i64], b: &[i64]) -> (r: bool)
    ensures
        r == (a@ == b@),
{
    if a.len() != b.len() {
        return false;
    }
    let mut i: usize = 0;
    while i < a.len()
        invariant
            i <= a@.len(),
            a@.len() == b@.len(),
            forall|j: int| 0 <= j < i ==> a@[j] == b@[j],
        decreases a@.len() - i,
    {
        if a[i] != b[i] {
            return false;
        }
        i += 1;
    }
    assert(a@ =~= b@);
    true
}

/// True when both signatures are the same.
fn same_sig(a: &Sig, b: &Sig) -> (r: bool)
    ensures
        r == (a@ == b@),
{
    same_text(a.surface.as_str(), b.surface.as_str()) && same_numbers(
        a.params.as_slice(),
        b.params.as_slice(),
    ) && same_numbers(a.extent.as_slice(), b.extent.as_slice())
}

/// A number that a surface is described by: a real one, as bits, or an
/// integer.
#[derive(Debug, Clone, Copy, PartialEq, Eq, Structural)]
pub enum Param {
    Real(u64),
    Int(i64),
}

/// Fields that hold no geometry: node ids and links renumber on every rebuild
/// and would make every face look different.
pub open spec fn bookkeeping(name: Seq<char>) -> bool {
    name == "node_id"@ || name == "owner"@ || name == "next"@ || name == "previous"@ || name
        == "attributes_features"@ || name == "geometric_owner"@
}

/// The numbers in a value.
pub open spec fn params_in(v: ValueView) -> Seq<Param> {
    match v {
        ValueView::F64(x) => seq![Param::Real(x)],
        ValueView::Vec3(a) => a.map_values(|x: u64| Param::Real(x)),
        ValueView::I32(x) => seq![Param::Int(x as i64)],
        ValueView::Char(c) => seq![
            Param::Int(
                if vstd::utf8::encode_utf8(c).len() > 0 {
                    vstd::utf8::encode_utf8(c)[0] as i64
                } else {
                    0
                },
            ),
        ],
        ValueView::Bool(b) => seq![
            Param::Int(
                if b {
                    1
                } else {
                    0
                },
            ),
        ],
        _ => Seq::empty(),
    }
}

/// The numbers in fields, those of bookkeeping fields left out.
pub open spec fn params_of(fields: Seq<(Seq<char>, ValueView)>) -> Seq<Param>
    decreases fields.len(),
{
    if fields.len() == 0 {
        Seq::empty()
    } else {
        let before = params_of(fields.drop_last());
        if bookkeeping(fields.last().0) {
            before
        } else {
            before + params_in(fields.last().1)
        }
    }
}

/// True for the name of a bookkeeping field.
fn is_bookkeeping(name: &str) -> (r: bool)
    ensures
        r == bookkeeping(name@),
{
    same_text(name, "node_id") || same_text(name, "owner") || same_text(name, "next") || same_text(
        name,
        "previous",
    ) || same_text(name, "attributes_features") || same_text(name, "geometric_owner")
}

/// Numeric fields of a surface node, in schema order.
///
/// Read generically rather than per surface type: every evaluator already
/// agrees on the field names, and a signature only has to be consistent
/// between the two revisions, not meaningful on its own.
pub fn surface_params(node: &Node) -> (r: Vec<Param>)
    ensures
        r@ == params_of(node@.fields),
{
    let ghost views = node@.fields;
    let mut out: Vec<Param> = Vec::new();
    let mut i: usize = 0;
    while i < node.fields.len()
        invariant
            i <= node.fields@.len(),
            views == node@.fields,
            out@ == params_of(views.take(i as int)),
        decreases node.fields@.len() - i,
    {
        assert(views.take(i + 1).drop_last() =~= views.take(i as int));
        assert(views.take(i + 1).last() == (
            node.fields@[i as int].0@,
            node.fields@[i as int].1@,
        ));
        if !is_bookkeeping(node.fields[i].0.as_str()) {
            let ghost before = out@;
            match &node.fields[i].1 {
                Value::F64(x) => {
                    out.push(Param::Real(*x));
                },
                Value::Vec3(a) => {
                    out.push(Param::Real(a[0]));
                    out.push(Param::Real(a[1]));
                    out.push(Param::Real(a[2]));
                },
                Value::I32(x) => {
                    out.push(Param::Int(*x as i64));
                },
                Value::Char(c) => {
                    let b = c.as_str().as_bytes();
                    out.push(
                        Param::Int(
                            if b.len() > 0 {
                                b[0] as i64
                            } else {
                                0
                            },
                        ),
                    );
                },
                Value::Bool(b) => {
                    out.push(
                        Param::Int(
                            if *b {
                                1
                            } else {
                                0
                            },
                        ),
                    );
                },
                _ => {},
            }
            assert(out@ =~= before + params_in(node.fields@[i as int].1@));
        }
        i += 1;
    }
    assert(views.take(i as int) =~= views);
    out
}

/// The last face of the first `n` new ones that has the signature and is no
/// partner of an earlier old face yet.
pub open spec fn last_free(
    new: Seq<SigView>,
    sig: SigView,
    partners: Seq<Option<int>>,
    n: int,
) -> Option<int>
    decreases n,
{
    if n <= 0 {
        None
    } else if new[n - 1] == sig && !partners.contains(Some(n - 1)) {
        Some(n - 1)
    } else {
        last_free(new, sig, partners, n - 1)
    }
}

/// The partner of each of the first `n` old faces among the new ones: a face
/// with the same signature. A part can hold several identical faces (a bolt
/// circle), so each new face is the partner of one old face at most.
pub open spec fn paired(old: Seq<SigView>, new: Seq<SigView>, n: int) -> Seq<Option<int>>
    decreases n,
{
    if n <= 0 {
        Seq::empty()
    } else {
        let partners = paired(old, new, n - 1);
        partners.push(last_free(new, old[n - 1], partners, new.len() as int))
    }
}

/// How far apart an old and a new face are, where they compare in size and lie
/// within reach of each other.
pub open spec fn gap(gaps: Seq<Vec<Option<u64>>>, i: int, j: int) -> Option<u64> {
    if 0 <= i < gaps.len() && 0 <= j < gaps[i]@.len() {
        gaps[i]@[j]
    } else {
        None
    }
}

/// The new face nearest to the old face `i` among the first `n`: it has the
/// same type of surface, lies within reach, and is neither an unchanged face
/// nor one that moved from an earlier old face. Of two equally near, the first.
pub open spec fn nearest(
    old: Seq<SigView>,
    new: Seq<SigView>,
    gaps: Seq<Vec<Option<u64>>>,
    same: Seq<Option<int>>,
    moved: Seq<Option<int>>,
    i: int,
    n: int,
) -> Option<int>
    decreases n,
{
    if n <= 0 {
        None
    } else {
        let j = n - 1;
        let best = nearest(old, new, gaps, same, moved, i, j);
        if same.contains(Some(j)) || moved.contains(Some(j)) || new[j].surface != old[i].surface
            || gap(gaps, i, j) is None {
            best
        } else if best is None || gap(gaps, i, j)->0 < gap(gaps, i, best->0)->0 {
            Some(j)
        } else {
            best
        }
    }
}

/// Where each of the first `n` old faces moved to, if it did.
pub open spec fn moves(
    old: Seq<SigView>,
    new: Seq<SigView>,
    gaps: Seq<Vec<Option<u64>>>,
    same: Seq<Option<int>>,
    n: int,
) -> Seq<Option<int>>
    decreases n,
{
    if n <= 0 {
        Seq::empty()
    } else {
        let moved = moves(old, new, gaps, same, n - 1);
        if same[n - 1] is Some {
            moved.push(None)
        } else {
            moved.push(nearest(old, new, gaps, same, moved, n - 1, new.len() as int))
        }
    }
}

/// The pairs of unchanged faces of two revisions.
pub open spec fn all_paired(old: Seq<SigView>, new: Seq<SigView>) -> Seq<Option<int>> {
    paired(old, new, old.len() as int)
}

/// The moves between two revisions.
pub open spec fn all_moves(
    old: Seq<SigView>,
    new: Seq<SigView>,
    gaps: Seq<Vec<Option<u64>>>,
) -> Seq<Option<int>> {
    moves(old, new, gaps, all_paired(old, new), old.len() as int)
}

/// The verdict on an old face.
pub open spec fn old_verdict(same: Seq<Option<int>>, moved: Seq<Option<int>>, i: int) -> Change {
    if same[i] is Some {
        Change::Unchanged
    } else if moved[i] is Some {
        Change::Moved
    } else {
        Change::Removed
    }
}

/// The verdict on a new face.
pub open spec fn new_verdict(same: Seq<Option<int>>, moved: Seq<Option<int>>, j: int) -> Change {
    if same.contains(Some(j)) {
        Change::Unchanged
    } else if moved.contains(Some(j)) {
        Change::Moved
    } else {
        Change::Added
    }
}

/// Both sides of a comparison hold the verdicts on their faces, and no others.
pub open spec fn judged(
    old: Seq<FaceSig>,
    new: Seq<FaceSig>,
    gaps: Seq<Vec<Option<u64>>>,
    old_side: Map<NodeId, Change>,
    new_side: Map<NodeId, Change>,
) -> bool {
    let same = all_paired(sigs(old), sigs(new));
    let moved = all_moves(sigs(old), sigs(new), gaps);
    &&& old_side.dom() == ids(old).to_set()
    &&& new_side.dom() == ids(new).to_set()
    &&& forall|i: int|
        0 <= i < old.len() ==> old_side[(#[trigger] old[i]).id] == old_verdict(same, moved, i)
    &&& forall|j: int|
        0 <= j < new.len() ==> new_side[(#[trigger] new[j]).id] == new_verdict(same, moved, j)
}

/// A list with one more entry holds what it held and that entry.
pub proof fn lemma_push_contains(s: Seq<Option<int>>, x: Option<int>, y: Option<int>)
    ensures
        s.push(x).contains(y) <==> s.contains(y) || x == y,
{
    if s.contains(y) {
        let k = choose|k: int| 0 <= k < s.len() && s[k] == y;
        assert(s.push(x)[k] == y);
    }
    assert(s.push(x)[s.len() as int] == x);
    if s.push(x).contains(y) && x != y {
        let k = choose|k: int| 0 <= k < s.push(x).len() && s.push(x)[k] == y;
        assert(s[k] == y);
    }
}

/// A free face with the signature is one.
pub proof fn lemma_last_free(new: Seq<SigView>, sig: SigView, partners: Seq<Option<int>>, n: int)
    requires
        0 <= n <= new.len(),
    ensures
        last_free(new, sig, partners, n) matches Some(j) ==> 0 <= j < n && new[j] == sig
            && !partners.contains(Some(j)),
        last_free(new, sig, partners, n) is None ==> forall|j: int|
            0 <= j < n && new[j] == sig ==> #[trigger] partners.contains(Some(j)),
    decreases n,
{
    if n > 0 {
        lemma_last_free(new, sig, partners, n - 1);
    }
}

/// The nearest face is one that could be taken.
pub proof fn lemma_nearest(
    old: Seq<SigView>,
    new: Seq<SigView>,
    gaps: Seq<Vec<Option<u64>>>,
    same: Seq<Option<int>>,
    moved: Seq<Option<int>>,
    i: int,
    n: int,
)
    requires
        0 <= n <= new.len(),
    ensures
        nearest(old, new, gaps, same, moved, i, n) matches Some(j) ==> 0 <= j < n
            && !same.contains(Some(j)) && !moved.contains(Some(j)) && new[j].surface
            == old[i].surface && gap(gaps, i, j) is Some,
    decreases n,
{
    if n > 0 {
        lemma_nearest(old, new, gaps, same, moved, i, n - 1);
    }
}

/// Which faces of either revision are unchanged.
pub struct Pairs {
    pub old: Vec<bool>,
    pub new: Vec<bool>,
}

/// The last free face with a signature, by flags that say which are taken.
fn find_free(
    new: &[FaceSig],
    sig: &Sig,
    taken: &Vec<bool>,
    Ghost(partners): Ghost<Seq<Option<int>>>,
) -> (r: Option<usize>)
    requires
        taken@.len() == new@.len(),
        forall|j: int|
            0 <= j < new@.len() ==> taken@[j] == (#[trigger] partners.contains(Some(j))),
    ensures
        r is Some <==> last_free(sigs(new@), sig@, partners, new@.len() as int) is Some,
        r matches Some(j) ==> last_free(sigs(new@), sig@, partners, new@.len() as int) == Some(
            j as int,
        ),
{
    let mut n: usize = new.len();
    while n > 0
        invariant
            n <= new@.len(),
            taken@.len() == new@.len(),
            forall|j: int|
                0 <= j < new@.len() ==> taken@[j] == (#[trigger] partners.contains(Some(j))),
            last_free(sigs(new@), sig@, partners, new@.len() as int) == last_free(
                sigs(new@),
                sig@,
                partners,
                n as int,
            ),
        decreases n,
    {
        n -= 1;
        assert(taken@[n as int] == partners.contains(Some(n as int)));
        if !taken[n] && same_sig(&new[n].sig, sig) {
            return Some(n);
        }
    }
    None
}

/// Pair off the faces whose signatures are the same in both revisions.
pub fn pair_unchanged(old: &[FaceSig], new: &[FaceSig]) -> (r: Pairs)
    ensures
        r.old@.len() == old@.len(),
        r.new@.len() == new@.len(),
        forall|i: int|
            0 <= i < old@.len() ==> #[trigger] r.old@[i] == (all_paired(
                sigs(old@),
                sigs(new@),
            )[i] is Some),
        forall|j: int|
            0 <= j < new@.len() ==> r.new@[j] == (#[trigger] all_paired(
                sigs(old@),
                sigs(new@),
            ).contains(Some(j))),
{
    let ghost a = sigs(old@);
    let ghost b = sigs(new@);
    let mut taken: Vec<bool> = Vec::new();
    let mut k: usize = 0;
    while k < new.len()
        invariant
            k <= new@.len(),
            taken@.len() == k,
            forall|j: int| 0 <= j < k ==> !taken@[j],
        decreases new@.len() - k,
    {
        taken.push(false);
        k += 1;
    }
    let mut kept: Vec<bool> = Vec::new();
    let ghost mut partners: Seq<Option<int>> = Seq::empty();
    let mut i: usize = 0;
    while i < old.len()
        invariant
            i <= old@.len(),
            a == sigs(old@),
            b == sigs(new@),
            taken@.len() == new@.len(),
            kept@.len() == i,
            partners == paired(a, b, i as int),
            partners.len() == i,
            forall|k: int| 0 <= k < i ==> #[trigger] kept@[k] == (partners[k] is Some),
            forall|j: int|
                0 <= j < new@.len() ==> taken@[j] == (#[trigger] partners.contains(Some(j))),
        decreases old@.len() - i,
    {
        let found = find_free(new, &old[i].sig, &taken, Ghost(partners));
        let ghost choice = last_free(b, a[i as int], partners, b.len() as int);
        let ghost before = partners;
        proof {
            lemma_last_free(b, a[i as int], partners, b.len() as int);
            partners = partners.push(choice);
            assert forall|j: int| 0 <= j < new@.len() implies partners.contains(Some(j)) == (
            before.contains(Some(j)) || choice == Some(j)) by {
                lemma_push_contains(before, choice, Some(j));
            }
            assert(paired(a, b, i + 1) == before.push(choice));
        }
        match found {
            Some(j) => {
                taken.set(j, true);
                kept.push(true);
            },
            None => {
                kept.push(false);
            },
        }
        i += 1;
    }
    Pairs { old: kept, new: taken }
}

/// The nearest face that an old face can have moved to.
fn find_nearest(
    old: &[FaceSig],
    new: &[FaceSig],
    gaps: &[Vec<Option<u64>>],
    pairs: &Pairs,
    taken: &Vec<bool>,
    i: usize,
    Ghost(same): Ghost<Seq<Option<int>>>,
    Ghost(moved): Ghost<Seq<Option<int>>>,
) -> (r: Option<usize>)
    requires
        i < old@.len(),
        pairs.new@.len() == new@.len(),
        taken@.len() == new@.len(),
        forall|j: int|
            0 <= j < new@.len() ==> pairs.new@[j] == (#[trigger] same.contains(Some(j))),
        forall|j: int| 0 <= j < new@.len() ==> taken@[j] == (#[trigger] moved.contains(Some(j))),
    ensures
        r is Some <==> nearest(
            sigs(old@),
            sigs(new@),
            gaps@,
            same,
            moved,
            i as int,
            new@.len() as int,
        ) is Some,
        r matches Some(j) ==> nearest(
            sigs(old@),
            sigs(new@),
            gaps@,
            same,
            moved,
            i as int,
            new@.len() as int,
        ) == Some(j as int),
{
    let ghost a = sigs(old@);
    let ghost b = sigs(new@);
    let mut best: Option<usize> = None;
    let mut least: u64 = 0;
    let mut j: usize = 0;
    while j < new.len()
        invariant
            j <= new@.len(),
            i < old@.len(),
            a == sigs(old@),
            b == sigs(new@),
            pairs.new@.len() == new@.len(),
            taken@.len() == new@.len(),
            forall|j: int|
                0 <= j < new@.len() ==> pairs.new@[j] == (#[trigger] same.contains(Some(j))),
            forall|j: int|
                0 <= j < new@.len() ==> taken@[j] == (#[trigger] moved.contains(Some(j))),
            best is Some <==> nearest(a, b, gaps@, same, moved, i as int, j as int) is Some,
            best matches Some(k) ==> nearest(a, b, gaps@, same, moved, i as int, j as int) == Some(
                k as int,
            ) && gap(gaps@, i as int, k as int) == Some(least),
        decreases new@.len() - j,
    {
        assert(pairs.new@[j as int] == same.contains(Some(j as int)));
        assert(taken@[j as int] == moved.contains(Some(j as int)));
        let here: Option<u64> = if i < gaps.len() && j < gaps[i].len() {
            gaps[i][j]
        } else {
            None
        };
        assert(here == gap(gaps@, i as int, j as int));
        if !pairs.new[j] && !taken[j] && same_text(
            new[j].sig.surface.as_str(),
            old[i].sig.surface.as_str(),
        ) {
            if let Some(d) = here {
                if best.is_none() || d < least {
                    best = Some(j);
                    least = d;
                }
            }
        }
        j += 1;
    }
    best
}

/// Compare two revisions.
///
/// First the faces whose signatures are the same are paired off; they are
/// unchanged. Then every other old face looks for the nearest new face of the
/// same type of surface that is still free: a hole that shifted 2 mm is far
/// more useful to a reader as "moved" than as an unrelated removal plus
/// addition. `gaps` says how far an old face is from a new one, as a number
/// that orders as the distance does, where the two compare in size and lie
/// within reach of each other.
pub fn diff(old: &[FaceSig], new: &[FaceSig], gaps: &[Vec<Option<u64>>]) -> (r: Diff)
    requires
        ids(old@).no_duplicates(),
        ids(new@).no_duplicates(),
    ensures
        judged(old@, new@, gaps@, r.old@, r.new@),
{
    let ghost a = sigs(old@);
    let ghost b = sigs(new@);
    let ghost same = all_paired(a, b);
    let pairs = pair_unchanged(old, new);
    let mut old_status: HashMap<NodeId, Change> = HashMap::new();
    let mut new_status: HashMap<NodeId, Change> = HashMap::new();
    let mut taken: Vec<bool> = Vec::new();
    let mut k: usize = 0;
    while k < new.len()
        invariant
            k <= new@.len(),
            taken@.len() == k,
            forall|j: int| 0 <= j < k ==> !taken@[j],
        decreases new@.len() - k,
    {
        taken.push(false);
        k += 1;
    }
    let ghost mut moved: Seq<Option<int>> = Seq::empty();
    let ghost whole = all_moves(a, b, gaps@);
    let mut i: usize = 0;
    proof {
        lemma_moves_grow(a, b, gaps@, same, 0, old@.len() as int);
        assert(ids(old@).take(0).to_set() =~= Set::<NodeId>::empty());
    }
    while i < old.len()
        invariant
            i <= old@.len(),
            a == sigs(old@),
            b == sigs(new@),
            same == all_paired(a, b),
            whole == all_moves(a, b, gaps@),
            ids(old@).no_duplicates(),
            pairs.old@.len() == old@.len(),
            pairs.new@.len() == new@.len(),
            forall|i: int|
                0 <= i < old@.len() ==> #[trigger] pairs.old@[i] == (same[i] is Some),
            forall|j: int|
                0 <= j < new@.len() ==> pairs.new@[j] == (#[trigger] same.contains(Some(j))),
            taken@.len() == new@.len(),
            moved == moves(a, b, gaps@, same, i as int),
            moved.len() == i,
            moved == whole.take(i as int),
            forall|j: int|
                0 <= j < new@.len() ==> taken@[j] == (#[trigger] moved.contains(Some(j))),
            old_status@.dom() == ids(old@).take(i as int).to_set(),
            forall|k: int|
                0 <= k < i ==> old_status@[(#[trigger] old@[k]).id] == old_verdict(same, whole, k),
        decreases old@.len() - i,
    {
        let ghost before = moved;
        let ghost earlier = old_status@;
        let found: Option<usize> = if pairs.old[i] {
            None
        } else {
            find_nearest(old, new, gaps, &pairs, &taken, i, Ghost(same), Ghost(moved))
        };
        let ghost choice: Option<int> = match found {
            Some(j) => Some(j as int),
            None => None,
        };
        proof {
            lemma_nearest(a, b, gaps@, same, before, i as int, b.len() as int);
            moved = moved.push(choice);
            assert(moves(a, b, gaps@, same, i + 1) == moved);
            lemma_moves_grow(a, b, gaps@, same, i + 1, old@.len() as int);
            assert(whole[i as int] == whole.take(i + 1)[i as int]);
            assert forall|j: int| 0 <= j < new@.len() implies moved.contains(Some(j)) == (
            before.contains(Some(j)) || choice == Some(j)) by {
                lemma_push_contains(before, choice, Some(j));
            }
            lemma_more_ids(ids(old@), i as int);
        }
        match found {
            Some(j) => {
                taken.set(j, true);
                old_status.insert(old[i].id, Change::Moved);
            },
            None => {
                old_status.insert(
                    old[i].id,
                    if pairs.old[i] {
                        Change::Unchanged
                    } else {
                        Change::Removed
                    },
                );
            },
        }
        assert forall|k: int| 0 <= k < i + 1 implies old_status@[(#[trigger] old@[k]).id]
            == old_verdict(same, whole, k) by {
            if k < i {
                assert(ids(old@)[k] != ids(old@)[i as int]);
                assert(earlier[old@[k].id] == old_verdict(same, whole, k));
            }
        }
        i += 1;
    }
    proof {
        assert(whole.take(i as int) =~= whole);
        assert(ids(old@).take(i as int) =~= ids(old@));
        assert(ids(new@).take(0).to_set() =~= Set::<NodeId>::empty());
    }
    let mut j: usize = 0;
    while j < new.len()
        invariant
            j <= new@.len(),
            ids(new@).no_duplicates(),
            pairs.new@.len() == new@.len(),
            taken@.len() == new@.len(),
            forall|j: int|
                0 <= j < new@.len() ==> pairs.new@[j] == (#[trigger] same.contains(Some(j))),
            forall|j: int|
                0 <= j < new@.len() ==> taken@[j] == (#[trigger] whole.contains(Some(j))),
            new_status@.dom() == ids(new@).take(j as int).to_set(),
            forall|k: int|
                0 <= k < j ==> new_status@[(#[trigger] new@[k]).id] == new_verdict(same, whole, k),
        decreases new@.len() - j,
    {
        assert(pairs.new@[j as int] == same.contains(Some(j as int)));
        assert(taken@[j as int] == whole.contains(Some(j as int)));
        proof {
            lemma_more_ids(ids(new@), j as int);
        }
        let ghost earlier = new_status@;
        new_status.insert(
            new[j].id,
            if pairs.new[j] {
                Change::Unchanged
            } else if taken[j] {
                Change::Moved
            } else {
                Change::Added
            },
        );
        assert forall|k: int| 0 <= k < j + 1 implies new_status@[(#[trigger] new@[k]).id]
            == new_verdict(same, whole, k) by {
            if k < j {
                assert(ids(new@)[k] != ids(new@)[j as int]);
                assert(earlier[new@[k].id] == new_verdict(same, whole, k));
            }
        }
        j += 1;
    }
    assert(ids(new@).take(j as int) =~= ids(new@));
    Diff { old: old_status, new: new_status }
}

/// Later faces leave the moves of earlier ones as they are.
pub proof fn lemma_moves_grow(
    old: Seq<SigView>,
    new: Seq<SigView>,
    gaps: Seq<Vec<Option<u64>>>,
    same: Seq<Option<int>>,
    n: int,
    m: int,
)
    requires
        0 <= n <= m,
    ensures
        moves(old, new, gaps, same, n).len() == n,
        moves(old, new, gaps, same, m).len() == m,
        moves(old, new, gaps, same, n) == moves(old, new, gaps, same, m).take(n),
    decreases m,
{
    if n < m {
        lemma_moves_grow(old, new, gaps, same, n, m - 1);
        assert(moves(old, new, gaps, same, n) =~= moves(old, new, gaps, same, m).take(n));
    } else {
        if n > 0 {
            lemma_moves_grow(old, new, gaps, same, n - 1, m - 1);
        }
        assert(moves(old, new, gaps, same, n) =~= moves(old, new, gaps, same, m).take(n));
    }
}

/// The colours that verdicts give to the faces of a mesh: a face that was not
/// judged (no surface, or no boundary) still has to render as something, and
/// neutral is the honest choice.
pub open spec fn painted(status: Map<NodeId, Change>, k: NodeId) -> Seq<u64> {
    if status.contains_key(k) {
        color_bits(status[k])
    } else {
        color_bits(Change::Unchanged)
    }
}

/// Recolour a mesh so each face carries its verdict.
pub fn paint(mesh: &mut Mesh, status: &HashMap<NodeId, Change>)
    ensures
        final(mesh).vertices == old(mesh).vertices,
        final(mesh).triangles == old(mesh).triangles,
        final(mesh).face_ids == old(mesh).face_ids,
        final(mesh).warnings == old(mesh).warnings,
        final(mesh).colors@.dom() == status@.dom().union(old(mesh).face_ids@.to_set()),
        forall|k: NodeId| #[trigger]
            final(mesh).colors@.contains_key(k) ==> final(mesh).colors@[k]@ == painted(status@, k),
{
    let ghost faces = mesh.face_ids@;
    let ghost start = *mesh;
    mesh.colors = HashMap::new();
    let keys = faces_of(status);
    let mut i: usize = 0;
    assert(keys@.take(0).to_set() =~= Set::<NodeId>::empty());
    while i < keys.len()
        invariant
            i <= keys@.len(),
            keys@.to_set() == status@.dom(),
            mesh.vertices == start.vertices,
            mesh.triangles == start.triangles,
            mesh.face_ids == start.face_ids,
            mesh.warnings == start.warnings,
            mesh.colors@.dom() == keys@.take(i as int).to_set(),
            forall|k: NodeId| #[trigger]
                mesh.colors@.contains_key(k) ==> status@.contains_key(k) && mesh.colors@[k]@
                    == color_bits(status@[k]),
        decreases keys@.len() - i,
    {
        assert(keys@.to_set().contains(keys@[i as int]));
        let c: Change = *status.get(&keys[i]).unwrap();
        proof {
            lemma_more_ids(keys@, i as int);
        }
        mesh.colors.insert(keys[i], c.color());
        i += 1;
    }
    let mut f: usize = 0;
    proof {
        assert(keys@.take(i as int) =~= keys@);
        assert(status@.dom() =~= status@.dom().union(faces.take(0).to_set()));
    }
    while f < mesh.face_ids.len()
        invariant
            f <= faces.len(),
            mesh.vertices == start.vertices,
            mesh.triangles == start.triangles,
            mesh.face_ids == start.face_ids,
            mesh.warnings == start.warnings,
            faces == start.face_ids@,
            mesh.colors@.dom() == status@.dom().union(faces.take(f as int).to_set()),
            forall|k: NodeId| #[trigger]
                mesh.colors@.contains_key(k) ==> mesh.colors@[k]@ == painted(status@, k),
        decreases faces.len() - f,
    {
        let fid: NodeId = mesh.face_ids[f];
        proof {
            lemma_more_ids(faces, f as int);
            assert(status@.dom().union(faces.take(f as int).to_set()).insert(fid)
                =~= status@.dom().union(faces.take(f + 1).to_set()));
        }
        if !mesh.colors.contains_key(&fid) {
            mesh.colors.insert(fid, Change::Unchanged.color());
        } else {
            assert(mesh.colors@.dom() =~= mesh.colors@.dom().insert(fid));
        }
        f += 1;
    }
    assert(faces.take(f as int) =~= faces);
}

/// One more id.
proof fn lemma_more_ids(s: Seq<NodeId>, i: int)
    requires
        0 <= i < s.len(),
    ensures
        s.take(i + 1).to_set() == s.take(i).to_set().insert(s[i]),
{
    let few = s.take(i);
    let more = s.take(i + 1);
    assert forall|k: NodeId| more.contains(k) <==> few.contains(k) || k == s[i] by {
        if few.contains(k) {
            let x = choose|x: int| 0 <= x < few.len() && few[x] == k;
            assert(more[x] == k);
        }
        assert(more[i] == s[i]);
        if more.contains(k) && k != s[i] {
            let x = choose|x: int| 0 <= x < more.len() && more[x] == k;
            assert(few[x] == k);
        }
    }
    assert(more.to_set() =~= few.to_set().insert(s[i]));
}

} // verus!
