//! Every node of a transmit is of a type that is described: by the base schema,
//! or by the transmit itself.

use vstd::prelude::*;

use super::reader::{read_i16_raw, read_u8};
use super::schema::TypeDefView;
use super::{
    document, lemma_header_end, lemma_layout_end, lemma_record_advances, nodes_from,
    read_first_use, read_header, read_record, Progress, Record,
};
use crate::value::NodeView;

verus! {

/// The types that are known once the nodes from `st.pos` on are read.
pub open spec fn types_after(d: Seq<u8>, st: Progress, max_type: i16) -> Map<i16, TypeDefView>
    decreases d.len() - st.pos,
    when 0 <= st.pos <= d.len()
    via types_after_decreases
{
    match read_record(d, st, max_type) {
        Ok(Record::Node { next, .. }) => types_after(d, next, max_type),
        _ => st.types,
    }
}

#[via_fn]
proof fn types_after_decreases(d: Seq<u8>, st: Progress, max_type: i16) {
    lemma_record_advances(d, st, max_type);
}

/// The types that are known once a whole transmit is read with these.
pub open spec fn types_in(d: Seq<u8>, base_types: Map<i16, TypeDefView>) -> Map<i16, TypeDefView> {
    match read_header(d, 0) {
        (Ok((_, _, _, max)), p) => types_after(
            d,
            Progress { pos: p, types: base_types, layouts: Map::empty() },
            max,
        ),
        _ => base_types,
    }
}

/// A node of a known type that is not the terminator and not above the highest
/// type. It bears the name of its type, and a repeat count exactly where the
/// type is of variable length.
pub open spec fn described(
    node: NodeView,
    types: Map<i16, TypeDefView>,
    max_type: i16,
) -> bool {
    &&& node.node_type != 1
    &&& node.node_type <= max_type
    &&& types.contains_key(node.node_type)
    &&& node.name == types[node.node_type].node_name
    &&& node.count is Some <==> types[node.node_type].variable
}

/// Only known types have a layout.
spec fn grounded(st: Progress) -> bool {
    forall|t: i16| #[trigger] st.layouts.contains_key(t) ==> st.types.contains_key(t)
}

/// A record's node is of a type that is known behind it, and a type that was
/// known stays as it was.
proof fn lemma_record(d: Seq<u8>, st: Progress, max_type: i16)
    requires
        0 <= st.pos <= d.len(),
        grounded(st),
    ensures
        read_record(d, st, max_type) matches Ok(Record::Node { node, next }) ==> {
            &&& grounded(next)
            &&& st.types.submap_of(next.types)
            &&& described(node, next.types, max_type)
        },
{
    if let (Ok(node_type), p1) = read_i16_raw(d, st.pos) {
        if let (Ok(count), p2) = read_u8(d, p1) {
            lemma_layout_end(d, p2, node_type, count as nat, st.types);
        }
        if let Ok(known) = read_first_use(d, st, p1, node_type) {
            assert(grounded(known));
            assert(st.types.submap_of(known.types));
            assert(known.types.contains_key(node_type));
        }
    }
}

/// `nodes` goes on from `before` with nodes that are described.
spec fn goes_on(
    nodes: Seq<NodeView>,
    before: Seq<NodeView>,
    types: Map<i16, TypeDefView>,
    max_type: i16,
) -> bool {
    &&& before.len() <= nodes.len()
    &&& nodes.take(before.len() as int) == before
    &&& forall|i: int|
        before.len() <= i < nodes.len() ==> described(#[trigger] nodes[i], types, max_type)
}

/// Nodes that go on from one more node go on from those before it.
proof fn lemma_one_before(
    nodes: Seq<NodeView>,
    before: Seq<NodeView>,
    node: NodeView,
    next: Map<i16, TypeDefView>,
    types: Map<i16, TypeDefView>,
    max_type: i16,
)
    requires
        goes_on(nodes, before.push(node), types, max_type),
        described(node, next, max_type),
        next.submap_of(types),
    ensures
        goes_on(nodes, before, types, max_type),
{
    let more = before.push(node);
    assert forall|i: int| 0 <= i < more.len() implies nodes[i] == more[i] by {
        assert(nodes.take(more.len() as int)[i] == more[i]);
    }
    assert(nodes.take(before.len() as int) =~= before);
    assert(next.dom().contains(node.node_type));
    assert(described(node, types, max_type));
    assert forall|i: int| before.len() <= i < nodes.len() implies described(
        #[trigger] nodes[i],
        types,
        max_type,
    ) by {
        if i == before.len() {
            assert(nodes[i] == more[i]);
        }
    }
}

proof fn lemma_submap(
    a: Map<i16, TypeDefView>,
    b: Map<i16, TypeDefView>,
    c: Map<i16, TypeDefView>,
)
    requires
        a.submap_of(b),
        b.submap_of(c),
    ensures
        a.submap_of(c),
{
    assert forall|t: i16| #[trigger] a.dom().contains(t) implies c.dom().contains(t) && a[t]
        == c[t] by {
        assert(b.dom().contains(t));
    }
}

proof fn lemma_nodes(d: Seq<u8>, st: Progress, max_type: i16, before: Seq<NodeView>)
    requires
        0 <= st.pos <= d.len(),
        grounded(st),
        nodes_from(d, st, max_type, before) is Ok,
    ensures
        st.types.submap_of(types_after(d, st, max_type)),
        goes_on(
            nodes_from(d, st, max_type, before)->Ok_0,
            before,
            types_after(d, st, max_type),
            max_type,
        ),
    decreases d.len() - st.pos,
{
    lemma_record(d, st, max_type);
    lemma_record_advances(d, st, max_type);
    let nodes = nodes_from(d, st, max_type, before)->Ok_0;
    let all = types_after(d, st, max_type);
    match read_record(d, st, max_type) {
        Ok(Record::Node { node, next }) => {
            lemma_nodes(d, next, max_type, before.push(node));
            lemma_submap(st.types, next.types, all);
            lemma_one_before(nodes, before, node, next.types, all, max_type);
        },
        _ => {
            assert(nodes.take(before.len() as int) =~= before);
        },
    }
}

/// A transmit that is read names a schema that ends in the name of the base
/// schema, and each of its nodes is described: it is no terminator, its type is
/// not above the highest one, and it has a repeat count exactly where its type
/// is of variable length. What the base schema says of a type stands.
pub proof fn lemma_nodes_are_described(
    d: Seq<u8>,
    base_name: Seq<char>,
    base_types: Map<i16, TypeDefView>,
)
    requires
        document(d, base_name, base_types) is Ok,
    ensures
        base_types.submap_of(types_in(d, base_types)),
        ({
            let doc = document(d, base_name, base_types)->Ok_0;
            &&& crate::text::has_tail(doc.schema_name, base_name)
            &&& forall|i: int|
                0 <= i < doc.nodes.len() ==> described(
                    #[trigger] doc.nodes[i],
                    types_in(d, base_types),
                    doc.schema_max_type,
                )
        }),
{
    lemma_header_end(d);
    if let (Ok((_, _, _, max)), p) = read_header(d, 0) {
        let start = Progress { pos: p, types: base_types, layouts: Map::empty() };
        lemma_nodes(d, start, max, Seq::empty());
    }
}

} // verus!
