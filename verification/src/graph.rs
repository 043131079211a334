//! Node graph: id lookup, topology traversal, attributes.
//!
//! Two conventions are load-bearing:
//!   * loops chain through the `backward` halfedge link, not `forward`;
//!   * outward normal = param normal x surface sense x face sense.

use std::collections::{HashMap, HashSet};

use vstd::prelude::*;

use crate::text::{begins_with, same_text};
use crate::value::{node_views, value_views, Node, NodeId, NodeView, Value, ValueView};

verus! {

broadcast use vstd::std_specs::hash::group_hash_axioms;

pub struct Graph {
    pub nodes: HashMap<NodeId, Node>,
    /// Insertion order, so iteration is deterministic across runs.
    pub order: Vec<NodeId>,
}

/// The nodes of a graph by their ids, and the order they came in.
#[verifier::ext_equal]
pub struct GraphView {
    pub nodes: Map<NodeId, NodeView>,
    pub order: Seq<NodeId>,
}

impl View for Graph {
    type V = GraphView;

    open spec fn view(&self) -> GraphView {
        GraphView { nodes: self.nodes@.map_values(|n: Node| n@), order: self.order@ }
    }
}

pub struct Attribute {
    pub name: String,
    pub values: Vec<Value>,
}

/// The contents of an attribute.
#[verifier::ext_equal]
pub struct AttributeView {
    pub name: Seq<char>,
    pub values: Seq<ValueView>,
}

impl View for Attribute {
    type V = AttributeView;

    open spec fn view(&self) -> AttributeView {
        AttributeView { name: self.name@, values: value_views(self.values@) }
    }
}

/// The contents of each attribute.
pub open spec fn attribute_views(attributes: Seq<Attribute>) -> Seq<AttributeView> {
    attributes.map_values(|a: Attribute| a@)
}

/// The contents of each node.
pub open spec fn found_views(found: Seq<&Node>) -> Seq<NodeView> {
    found.map_values(|n: &Node| n@)
}

/// Nodes by their ids, the last of each id winning.
pub open spec fn nodes_by_id(nodes: Seq<NodeView>) -> Map<NodeId, NodeView>
    decreases nodes.len(),
{
    if nodes.len() == 0 {
        Map::empty()
    } else {
        nodes_by_id(nodes.drop_last()).insert(nodes.last().id, nodes.last())
    }
}

/// The graph of a list of nodes.
pub open spec fn graph_of(nodes: Seq<NodeView>) -> GraphView {
    GraphView { nodes: nodes_by_id(nodes), order: nodes.map_values(|n: NodeView| n.id) }
}

/// The nodes among `order` that are called `name`.
pub open spec fn of_type(
    nodes: Map<NodeId, NodeView>,
    order: Seq<NodeId>,
    name: Seq<char>,
) -> Seq<NodeView>
    decreases order.len(),
{
    if order.len() == 0 {
        Seq::empty()
    } else {
        let before = of_type(nodes, order.drop_last(), name);
        let id = order.last();
        if nodes.contains_key(id) && nodes[id].name == name {
            before.push(nodes[id])
        } else {
            before
        }
    }
}

/// The nodes met when the pointers in `link` are followed from `cur`, up to
/// one in `seen`, one already met, or an id without a node.
pub open spec fn chain_from(
    nodes: Map<NodeId, NodeView>,
    cur: Option<NodeId>,
    link: Seq<char>,
    seen: Set<NodeId>,
) -> Seq<NodeView>
    decreases nodes.dom().difference(seen).len(),
    when nodes.dom().finite()
    via chain_from_decreases
{
    match cur {
        None => Seq::empty(),
        Some(id) => if seen.contains(id) || !nodes.contains_key(id) {
            Seq::empty()
        } else {
            seq![nodes[id]] + chain_from(nodes, nodes[id].pointer(link), link, seen.insert(id))
        },
    }
}

#[via_fn]
proof fn chain_from_decreases(
    nodes: Map<NodeId, NodeView>,
    cur: Option<NodeId>,
    link: Seq<char>,
    seen: Set<NodeId>,
) {
    if let Some(id) = cur {
        lemma_one_less(nodes.dom(), seen, id);
    }
}

/// Meeting one more node leaves one node fewer to meet.
proof fn lemma_one_less(all: Set<NodeId>, seen: Set<NodeId>, id: NodeId)
    requires
        all.finite(),
    ensures
        all.contains(id) && !seen.contains(id) ==> all.difference(seen.insert(id)).len()
            < all.difference(seen).len(),
{
    if all.contains(id) && !seen.contains(id) {
        assert(all.difference(seen.insert(id)) =~= all.difference(seen).remove(id));
    }
}

impl GraphView {
    /// The node that a pointer field of `node` leads to.
    pub open spec fn follow(self, node: NodeView, field: Seq<char>) -> Option<NodeView> {
        match node.pointer(field) {
            Some(id) => if self.nodes.contains_key(id) {
                Some(self.nodes[id])
            } else {
                None
            },
            None => None,
        }
    }

    /// The linked list that begins at `start`.
    pub open spec fn chain(self, start: Option<NodeId>, link: Seq<char>) -> Seq<NodeView> {
        chain_from(self.nodes, start, link, Set::empty())
    }

    /// The values that the nodes with those ids hold.
    pub open spec fn values_of(self, ids: Seq<NodeId>) -> Seq<ValueView>
        decreases ids.len(),
    {
        if ids.len() == 0 {
            Seq::empty()
        } else {
            let before = self.values_of(ids.drop_last());
            let id = ids.last();
            if self.nodes.contains_key(id) {
                match self.nodes[id].field("values"@) {
                    Some(v) => before.push(v),
                    None => before,
                }
            } else {
                before
            }
        }
    }

    /// What an ATTRIBUTE node says: the name that its definition's identifier
    /// holds, and the values of the nodes that its fields lead to.
    pub open spec fn attribute(self, att: NodeView) -> Option<AttributeView> {
        if att.name != "ATTRIBUTE"@ {
            None
        } else {
            match self.follow(att, "definition"@) {
                None => None,
                Some(def) => match self.follow(def, "identifier"@) {
                    None => None,
                    Some(ident) => match ident.text("string"@) {
                        None => None,
                        Some(name) => Some(
                            AttributeView { name, values: self.values_of(att.pointers("fields"@)) },
                        ),
                    },
                },
            }
        }
    }

    /// What the attributes among `nodes` say.
    pub open spec fn attributes_among(self, nodes: Seq<NodeView>) -> Seq<AttributeView>
        decreases nodes.len(),
    {
        if nodes.len() == 0 {
            Seq::empty()
        } else {
            let before = self.attributes_among(nodes.drop_last());
            match self.attribute(nodes.last()) {
                Some(a) => before.push(a),
                None => before,
            }
        }
    }

    /// The attributes of a node, in the order of its attribute list.
    pub open spec fn attributes(self, node: NodeView) -> Seq<AttributeView> {
        self.attributes_among(self.chain(node.pointer("attributes_features"@), "next"@))
    }
}

/// What a search through values comes to.
pub enum Search<T> {
    /// Found, or given up.
    Done(Option<T>),
    /// Nothing yet.
    More,
}

/// The first three of the numbers in the first value that has as many. A value
/// that holds no numbers ends the search.
pub open spec fn color_in_values(values: Seq<ValueView>) -> Search<Seq<u64>>
    decreases values.len(),
{
    if values.len() == 0 {
        Search::More
    } else {
        match values[0].reals() {
            None => Search::Done(None),
            Some(nums) => if nums.len() >= 3 {
                Search::Done(Some(nums.take(3)))
            } else {
                color_in_values(values.drop_first())
            },
        }
    }
}

/// The colour that a node's attributes give it.
pub open spec fn color_in(attributes: Seq<AttributeView>) -> Option<Seq<u64>>
    decreases attributes.len(),
{
    if attributes.len() == 0 {
        None
    } else if attributes[0].name == "SDL/TYSA_COLOUR"@ {
        match color_in_values(attributes[0].values) {
            Search::Done(c) => c,
            Search::More => color_in(attributes.drop_first()),
        }
    } else {
        color_in(attributes.drop_first())
    }
}

/// The integers of all values in a row, those that hold none passed over.
pub open spec fn id_tuple(values: Seq<ValueView>) -> Seq<i64>
    decreases values.len(),
{
    if values.len() == 0 {
        Seq::empty()
    } else {
        match values.last().integers() {
            Some(more) => id_tuple(values.drop_last()) + more,
            None => id_tuple(values.drop_last()),
        }
    }
}

/// The factor by which an identity is folded.
pub const ID_FACTOR: u64 = 0x100000001b3;

/// A tuple of integers folded into one number. A tuple of one is that number.
/// Which tuples are told apart by it is proved in [`crate::topology`]: all that
/// differ in a single place (`lemma_one_difference_tells`), and all that differ
/// in their last two places by small entries (`lemma_last_two_tell`).
pub open spec fn folded(tuple: Seq<i64>) -> u64
    decreases tuple.len(),
{
    if tuple.len() == 0 {
        0
    } else {
        ((folded(tuple.drop_last()) * ID_FACTOR + tuple.last() as u64) % 0x10000000000000000) as u64
    }
}

/// The identity that a node's attributes give it: the whole tuple of the first
/// `FACE_ID` attribute that has one.
pub open spec fn identity_in(attributes: Seq<AttributeView>) -> Option<u64>
    decreases attributes.len(),
{
    if attributes.len() == 0 {
        None
    } else {
        let tuple = id_tuple(attributes[0].values);
        if crate::text::has_head(attributes[0].name, "FACE_ID"@) && tuple.len() > 0 {
            Some(folded(tuple))
        } else {
            identity_in(attributes.drop_first())
        }
    }
}

/// Add one more integer to a folded tuple.
fn fold_in(h: u64, v: i64) -> (r: u64)
    ensures
        r == ((h * ID_FACTOR + v as u64) % 0x10000000000000000) as u64,
{
    let p: u128 = h as u128 * ID_FACTOR as u128 + (v as u64) as u128;
    assert(h as u128 * ID_FACTOR as u128 <= 0xffffffffffffffff * ID_FACTOR) by (nonlinear_arith)
        requires
            h <= 0xffffffffffffffff,
    ;
    (p % 0x10000000000000000) as u64
}

/// The points that the model is made of: what the nodes hold under `pvec` and
/// `centre`, in the order of the nodes.
pub open spec fn points_among(nodes: Map<NodeId, NodeView>, order: Seq<NodeId>) -> Seq<Seq<u64>>
    decreases order.len(),
{
    if order.len() == 0 {
        Seq::empty()
    } else {
        let before = points_among(nodes, order.drop_last());
        let id = order.last();
        if nodes.contains_key(id) {
            before + point_in(nodes[id], "pvec"@) + point_in(nodes[id], "centre"@)
        } else {
            before
        }
    }
}

/// The coordinates in a field, if it holds any.
pub open spec fn point_in(node: NodeView, field: Seq<char>) -> Seq<Seq<u64>> {
    match node.field(field) {
        Some(v) => match v.coordinates() {
            Some(c) => seq![c],
            None => Seq::empty(),
        },
        None => Seq::empty(),
    }
}

/// The contents of each triple.
pub open spec fn triple_views(points: Seq<[u64; 3]>) -> Seq<Seq<u64>> {
    points.map_values(|p: [u64; 3]| p@)
}

impl Graph {
    pub fn new(nodes: Vec<Node>) -> (r: Self)
        ensures
            r@ == graph_of(node_views(nodes@)),
    {
        let ghost all = nodes@;
        let ghost views = node_views(all);
        let mut map: HashMap<NodeId, Node> = HashMap::new();
        let mut order: Vec<NodeId> = Vec::with_capacity(nodes.len());
        assert(map@.map_values(|n: Node| n@) =~= nodes_by_id(views.take(0)));
        for n in it: nodes.into_iter()
            invariant
                it.seq() == all,
                views == node_views(all),
                order@ == views.take(it.index() as int).map_values(|n: NodeView| n.id),
                map@.map_values(|n: Node| n@) == nodes_by_id(views.take(it.index() as int)),
        {
            let ghost i = it.index() as int;
            let ghost before = map@;
            let ghost node = n;
            let id: NodeId = n.id;
            order.push(id);
            map.insert(id, n);
            proof {
                assert(all[i] == node);
                assert(views.take(i + 1).drop_last() =~= views.take(i));
                assert(views.take(i + 1).last() == node@);
                assert(order@ =~= views.take(i + 1).map_values(|n: NodeView| n.id));
                assert(map@.map_values(|n: Node| n@) =~= before.map_values(
                    |n: Node| n@,
                ).insert(id, node@));
            }
        }
        assert(views.take(views.len() as int) =~= views);
        Graph { nodes: map, order }
    }

    pub fn get(&self, id: NodeId) -> (r: Option<&Node>)
        ensures
            match r {
                Some(n) => self@.nodes.contains_key(id) && n@ == self@.nodes[id],
                None => !self@.nodes.contains_key(id),
            },
    {
        self.nodes.get(&id)
    }

    /// Follow a pointer field of `node` to the node it references.
    pub fn deref(&self, node: &Node, field: &str) -> (r: Option<&Node>)
        ensures
            match r {
                Some(n) => self@.follow(node@, field@) == Some(n@),
                None => self@.follow(node@, field@) is None,
            },
    {
        match node.ptr(field) {
            Some(id) => self.get(id),
            None => None,
        }
    }

    pub fn by_type(&self, name: &str) -> (r: Vec<&Node>)
        ensures
            found_views(r@) == of_type(self@.nodes, self@.order, name@),
    {
        let mut out: Vec<&Node> = Vec::new();
        let mut i: usize = 0;
        assert(found_views(out@) =~= Seq::<NodeView>::empty());
        while i < self.order.len()
            invariant
                i <= self.order@.len(),
                found_views(out@) == of_type(self@.nodes, self.order@.take(i as int), name@),
            decreases self.order@.len() - i,
        {
            assert(self.order@.take(i + 1).drop_last() =~= self.order@.take(i as int));
            if let Some(n) = self.get(self.order[i]) {
                if same_text(n.name.as_str(), name) {
                    let ghost before = out@;
                    out.push(n);
                    assert(found_views(out@) =~= found_views(before).push(n@));
                }
            }
            i += 1;
        }
        assert(self.order@.take(i as int) =~= self.order@);
        out
    }

    /// Walk a linked list from `start`, following `link`, stopping on cycles.
    pub fn chain(&self, start: Option<NodeId>, link: &str) -> (r: Vec<&Node>)
        ensures
            found_views(r@) == self@.chain(start, link@),
    {
        let ghost nodes = self@.nodes;
        let mut out: Vec<&Node> = Vec::new();
        let mut seen: HashSet<NodeId> = HashSet::new();
        let mut cur: Option<NodeId> = start;
        assert(found_views(out@) + chain_from(nodes, cur, link@, seen@) =~= self@.chain(
            start,
            link@,
        ));
        assert(nodes.dom() =~= self.nodes@.dom());
        loop
            invariant
                nodes == self@.nodes,
                nodes.dom().finite(),
                found_views(out@) + chain_from(nodes, cur, link@, seen@) == self@.chain(
                    start,
                    link@,
                ),
            decreases nodes.dom().difference(seen@).len(),
        {
            let id: NodeId = match cur {
                Some(id) => id,
                None => {
                    assert(found_views(out@) + Seq::<NodeView>::empty() =~= found_views(out@));
                    return out;
                },
            };
            let ghost seen_before = seen@;
            let fresh = seen.insert(id);
            if !fresh {
                assert(found_views(out@) + Seq::<NodeView>::empty() =~= found_views(out@));
                return out;
            }
            let node = match self.get(id) {
                Some(n) => n,
                None => {
                    assert(found_views(out@) + Seq::<NodeView>::empty() =~= found_views(out@));
                    return out;
                },
            };
            let ghost before = out@;
            out.push(node);
            cur = node.ptr(link);
            proof {
                lemma_one_less(nodes.dom(), seen_before, id);
                let rest = chain_from(nodes, cur, link@, seen@);
                assert(found_views(out@) =~= found_views(before).push(node@));
                assert(found_views(before) + (seq![node@] + rest) =~= found_views(out@) + rest);
            }
        }
    }

    pub fn face_loops(&self, face: &Node) -> (r: Vec<&Node>)
        ensures
            found_views(r@) == self@.chain(face@.pointer("loop"@), "next"@),
    {
        self.chain(face.ptr("loop"), "next")
    }

    /// Halfedges of a loop in chaining order (see module docs: `backward`).
    pub fn loop_halfedges(&self, lp: &Node) -> (r: Vec<&Node>)
        ensures
            found_views(r@) == self@.chain(lp@.pointer("halfedge"@), "backward"@),
    {
        self.chain(lp.ptr("halfedge"), "backward")
    }

    /// The values that the nodes with those ids hold.
    fn values_at(&self, ids: &Vec<NodeId>) -> (r: Vec<Value>)
        ensures
            value_views(r@) == self@.values_of(ids@),
    {
        let mut out: Vec<Value> = Vec::new();
        let mut i: usize = 0;
        assert(value_views(out@) =~= Seq::<ValueView>::empty());
        while i < ids.len()
            invariant
                i <= ids@.len(),
                value_views(out@) == self@.values_of(ids@.take(i as int)),
            decreases ids@.len() - i,
        {
            assert(ids@.take(i + 1).drop_last() =~= ids@.take(i as int));
            if let Some(n) = self.get(ids[i]) {
                if let Some(v) = n.field("values") {
                    let copy = v.clone();
                    let ghost before = out@;
                    out.push(copy);
                    assert(value_views(out@) =~= value_views(before).push(copy@));
                }
            }
            i += 1;
        }
        assert(ids@.take(i as int) =~= ids@);
        out
    }

    /// What an ATTRIBUTE node says.
    fn attribute(&self, att: &Node) -> (r: Option<Attribute>)
        ensures
            match r {
                Some(a) => self@.attribute(att@) == Some(a@),
                None => self@.attribute(att@) is None,
            },
    {
        if !same_text(att.name.as_str(), "ATTRIBUTE") {
            return None;
        }
        let def = match self.deref(att, "definition") {
            Some(n) => n,
            None => {
                return None;
            },
        };
        let ident = match self.deref(def, "identifier") {
            Some(n) => n,
            None => {
                return None;
            },
        };
        match ident.str("string") {
            Some(name) => {
                let ids = att.ptrs("fields");
                Some(Attribute { name: name.to_owned(), values: self.values_at(&ids) })
            },
            None => None,
        }
    }

    pub fn attributes(&self, node: &Node) -> (r: Vec<Attribute>)
        ensures
            attribute_views(r@) == self@.attributes(node@),
    {
        let list = self.chain(node.ptr("attributes_features"), "next");
        let ghost views = found_views(list@);
        let mut out: Vec<Attribute> = Vec::new();
        let mut i: usize = 0;
        assert(attribute_views(out@) =~= Seq::<AttributeView>::empty());
        while i < list.len()
            invariant
                i <= list@.len(),
                views == found_views(list@),
                attribute_views(out@) == self@.attributes_among(views.take(i as int)),
            decreases list@.len() - i,
        {
            assert(views.take(i + 1).drop_last() =~= views.take(i as int));
            assert(views.take(i + 1).last() == list@[i as int]@);
            if let Some(a) = self.attribute(list[i]) {
                let ghost before = out@;
                out.push(a);
                assert(attribute_views(out@) =~= attribute_views(before).push(a@));
            }
            i += 1;
        }
        assert(views.take(i as int) =~= views);
        out
    }

    /// Face colour from the `SDL/TYSA_COLOUR` attribute, if present.
    pub fn face_color(&self, face: &Node) -> (r: Option<[u64; 3]>)
        ensures
            crate::value::same_triple(r, color_in(self@.attributes(face@))),
    {
        let atts = self.attributes(face);
        let ghost views = attribute_views(atts@);
        let mut i: usize = 0;
        assert(views.skip(0) =~= views);
        while i < atts.len()
            invariant
                i <= atts@.len(),
                views == attribute_views(atts@),
                color_in(views) == color_in(views.skip(i as int)),
                views == self@.attributes(face@),
            decreases atts@.len() - i,
        {
            assert(views.skip(i as int)[0] == atts@[i as int]@);
            assert(views.skip(i as int).drop_first() =~= views.skip(i + 1));
            if same_text(atts[i].name.as_str(), "SDL/TYSA_COLOUR") {
                let ghost vals = value_views(atts@[i as int].values@);
                let mut k: usize = 0;
                assert(vals.skip(0) =~= vals);
                while k < atts[i].values.len()
                    invariant
                        i < atts@.len(),
                        k <= atts@[i as int].values@.len(),
                        vals == value_views(atts@[i as int].values@),
                        views == attribute_views(atts@),
                        views == self@.attributes(face@),
                        color_in(views) == color_in(views.skip(i as int)),
                        views.skip(i as int)[0] == atts@[i as int]@,
                        atts@[i as int]@.name == "SDL/TYSA_COLOUR"@,
                        color_in_values(vals) == color_in_values(vals.skip(k as int)),
                    decreases atts@[i as int].values@.len() - k,
                {
                    assert(vals.skip(k as int)[0] == atts@[i as int].values@[k as int]@);
                    assert(vals.skip(k as int).drop_first() =~= vals.skip(k + 1));
                    match atts[i].values[k].as_f64_vec() {
                        None => {
                            return None;
                        },
                        Some(nums) => {
                            if nums.len() >= 3 {
                                let c: [u64; 3] = [nums[0], nums[1], nums[2]];
                                assert(c@ =~= nums@.take(3));
                                return Some(c);
                            }
                        },
                    }
                    k += 1;
                }
            }
            i += 1;
        }
        None
    }

    /// Stable per-face identifier (`FACE_ID_2001`) used to match faces across
    /// revisions when diffing: the attribute's whole tuple, whose leading
    /// entries are shared by every face of a feature, folded into one number.
    /// Faces are told apart by it (`crate::topology::lemma_faces_are_told_apart`).
    pub fn face_stable_id(&self, face: &Node) -> (r: Option<u64>)
        ensures
            r == identity_in(self@.attributes(face@)),
    {
        let atts = self.attributes(face);
        let ghost views = attribute_views(atts@);
        let mut i: usize = 0;
        assert(views.skip(0) =~= views);
        while i < atts.len()
            invariant
                i <= atts@.len(),
                views == attribute_views(atts@),
                identity_in(views) == identity_in(views.skip(i as int)),
                views == self@.attributes(face@),
            decreases atts@.len() - i,
        {
            assert(views.skip(i as int)[0] == atts@[i as int]@);
            assert(views.skip(i as int).drop_first() =~= views.skip(i + 1));
            if begins_with(atts[i].name.as_str(), "FACE_ID") {
                if let Some(id) = fold_values(&atts[i].values) {
                    return Some(id);
                }
            }
            i += 1;
        }
        None
    }

    /// The points that the model is made of, from which its extent is taken.
    pub fn model_points(&self) -> (r: Vec<[u64; 3]>)
        ensures
            triple_views(r@) == points_among(self@.nodes, self@.order),
    {
        let mut out: Vec<[u64; 3]> = Vec::new();
        let mut i: usize = 0;
        assert(triple_views(out@) =~= Seq::<Seq<u64>>::empty());
        while i < self.order.len()
            invariant
                i <= self.order@.len(),
                triple_views(out@) == points_among(self@.nodes, self.order@.take(i as int)),
            decreases self.order@.len() - i,
        {
            assert(self.order@.take(i + 1).drop_last() =~= self.order@.take(i as int));
            if let Some(n) = self.get(self.order[i]) {
                let ghost before = triple_views(out@);
                if let Some(p) = n.vec3("pvec") {
                    let ghost o = out@;
                    out.push(p);
                    assert(triple_views(out@) =~= triple_views(o).push(p@));
                }
                assert(triple_views(out@) =~= before + point_in(n@, "pvec"@));
                let ghost middle = triple_views(out@);
                if let Some(p) = n.vec3("centre") {
                    let ghost o = out@;
                    out.push(p);
                    assert(triple_views(out@) =~= triple_views(o).push(p@));
                }
                assert(triple_views(out@) =~= middle + point_in(n@, "centre"@));
            }
            i += 1;
        }
        assert(self.order@.take(i as int) =~= self.order@);
        out
    }
}

/// Fold the integers of all values; `None` where there are none.
fn fold_values(values: &Vec<Value>) -> (r: Option<u64>)
    ensures
        r == if id_tuple(value_views(values@)).len() > 0 {
            Some(folded(id_tuple(value_views(values@))))
        } else {
            None
        },
{
    let ghost views = value_views(values@);
    let mut h: u64 = 0;
    let mut any = false;
    let mut i: usize = 0;
    while i < values.len()
        invariant
            i <= values@.len(),
            views == value_views(values@),
            h == folded(id_tuple(views.take(i as int))),
            any == (id_tuple(views.take(i as int)).len() > 0),
        decreases values@.len() - i,
    {
        assert(views.take(i + 1).drop_last() =~= views.take(i as int));
        assert(views.take(i + 1).last() == values@[i as int]@);
        let ghost tuple = id_tuple(views.take(i as int));
        if let Some(ids) = values[i].as_i64_vec() {
            let mut k: usize = 0;
            assert(tuple + ids@.take(0) =~= tuple);
            while k < ids.len()
                invariant
                    k <= ids@.len(),
                    h == folded(tuple + ids@.take(k as int)),
                    any == ((tuple + ids@.take(k as int)).len() > 0),
                decreases ids@.len() - k,
            {
                assert((tuple + ids@.take(k + 1)).drop_last() =~= tuple + ids@.take(k as int));
                h = fold_in(h, ids[k]);
                any = true;
                k += 1;
            }
            assert(ids@.take(k as int) =~= ids@);
        }
        i += 1;
    }
    assert(views.take(i as int) =~= views);
    if any {
        Some(h)
    } else {
        None
    }
}

} // verus!
