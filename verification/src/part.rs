//! From the bytes of a part file to the node graphs of the bodies in it.

use vstd::prelude::*;

use crate::container::{parse, stream_views, streams_of, Stream, StreamView};
use crate::graph::{graph_of, of_type, Graph, GraphView};
use crate::sample::{exact_surface, is_exact_surface};
use crate::sections::{blocks_from, carve_zlib, kind_of_blob, transmit_kind, TransmitKind};
use crate::text::{ends_in, has_tail, same_text};
use crate::xt::schema::{type_views, BaseSchema, TypeDefView};
use crate::xt::{document, parse_transmit};
use crate::Error;

verus! {

/// A Parasolid transmit found inside a part file.
pub struct BodyGraph {
    /// Container stream the transmit was carved from.
    pub stream: String,
    pub graph: Graph,
}

/// The contents of a body graph.
#[verifier::ext_equal]
pub struct BodyView {
    pub stream: Seq<char>,
    pub graph: GraphView,
}

impl View for BodyGraph {
    type V = BodyView;

    open spec fn view(&self) -> BodyView {
        BodyView { stream: self.stream@, graph: self.graph@ }
    }
}

/// The contents of each body graph.
pub open spec fn body_views(bodies: Seq<BodyGraph>) -> Seq<BodyView> {
    bodies.map_values(|b: BodyGraph| b@)
}

/// The name and the types of a base schema.
pub struct SchemaView {
    pub name: Seq<char>,
    pub types: Map<i16, TypeDefView>,
}

/// The name and the types of a base schema.
pub open spec fn schema_view(base: BaseSchema) -> SchemaView {
    SchemaView { name: base.name@, types: type_views(base.types@) }
}

/// Curves, by the names of their nodes.
pub open spec fn curve_name(name: Seq<char>) -> bool {
    name == "LINE"@ || name == "CIRCLE"@ || name == "ELLIPSE"@ || name == "B_CURVE"@ || name
        == "TRIMMED_CURVE"@ || name == "INTERSECTION"@ || name == "SP_CURVE"@ || name
        == "PE_CURVE"@
}

/// Surfaces, by the names of their nodes.
pub open spec fn surface_name(name: Seq<char>) -> bool {
    exact_surface(name) || name == "BLENDED_EDGE"@ || name == "BLEND_BOUND"@
}

/// What has a shape: faces, edges and vertices, and the surfaces, curves and
/// points that these lie on.
pub open spec fn shape_name(name: Seq<char>) -> bool {
    name == "FACE"@ || name == "EDGE"@ || name == "VERTEX"@ || name == "POINT"@ || curve_name(name)
        || surface_name(name)
}

/// True for the name of a node that has a shape.
fn is_shape_name(name: &str) -> (r: bool)
    ensures
        r == shape_name(name@),
{
    let topology = same_text(name, "FACE") || same_text(name, "EDGE") || same_text(name, "VERTEX")
        || same_text(name, "POINT");
    let curve = same_text(name, "LINE") || same_text(name, "CIRCLE") || same_text(name, "ELLIPSE")
        || same_text(name, "B_CURVE") || same_text(name, "TRIMMED_CURVE") || same_text(
        name,
        "INTERSECTION",
    ) || same_text(name, "SP_CURVE") || same_text(name, "PE_CURVE");
    let surface = is_exact_surface(name) || same_text(name, "BLENDED_EDGE") || same_text(
        name,
        "BLEND_BOUND",
    );
    topology || curve || surface
}

/// The graph carries geometry: one of its nodes has a shape.
pub open spec fn carries_geometry(g: GraphView) -> bool {
    exists|i: int|
        0 <= i < g.order.len() && g.nodes.contains_key(#[trigger] g.order[i]) && shape_name(
            g.nodes[g.order[i]].name,
        )
}

/// True when the graph carries geometry.
fn has_geometry(graph: &Graph) -> (r: bool)
    ensures
        r == carries_geometry(graph@),
{
    let mut i: usize = 0;
    while i < graph.order.len()
        invariant
            i <= graph.order@.len(),
            graph@.order == graph.order@,
            forall|k: int|
                0 <= k < i && graph@.nodes.contains_key(#[trigger] graph@.order[k])
                    ==> !shape_name(graph@.nodes[graph@.order[k]].name),
        decreases graph.order@.len() - i,
    {
        if let Some(n) = graph.get(graph.order[i]) {
            if is_shape_name(n.name.as_str()) {
                assert(graph@.nodes.contains_key(graph@.order[i as int]));
                return true;
            }
        }
        i += 1;
    }
    false
}

/// The body that a carved block holds: one that is a transmit, but not a delta
/// transmit, can be read, and carries geometry.
pub open spec fn body_in(stream: Seq<char>, blob: Seq<u8>, base: SchemaView) -> Option<BodyView> {
    match kind_of_blob(blob) {
        None => None,
        Some(TransmitKind::Deltas) => None,
        Some(_) => match document(blob, base.name, base.types) {
            Ok(doc) => if carries_geometry(graph_of(doc.nodes)) {
                Some(BodyView { stream, graph: graph_of(doc.nodes) })
            } else {
                None
            },
            Err(_) => None,
        },
    }
}

/// The bodies in carved blocks.
pub open spec fn bodies_in_blobs(
    stream: Seq<char>,
    blobs: Seq<Seq<u8>>,
    base: SchemaView,
) -> Seq<BodyView>
    decreases blobs.len(),
{
    if blobs.len() == 0 {
        Seq::empty()
    } else {
        let before = bodies_in_blobs(stream, blobs.drop_last(), base);
        match body_in(stream, blobs.last(), base) {
            Some(b) => before.push(b),
            None => before,
        }
    }
}

/// The blocks carved from a stream.
pub open spec fn carved(data: Seq<u8>) -> Seq<Seq<u8>> {
    blocks_from(data, 0).map_values(|b: (int, Seq<u8>)| b.1)
}

/// The bodies in streams, those of reference wire bodies passed over.
pub open spec fn bodies_in_streams(streams: Seq<StreamView>, base: SchemaView) -> Seq<BodyView>
    decreases streams.len(),
{
    if streams.len() == 0 {
        Seq::empty()
    } else {
        let before = bodies_in_streams(streams.drop_last(), base);
        let s = streams.last();
        if has_tail(s.name, "-GhostPartition"@) {
            before
        } else {
            before + bodies_in_blobs(s.name, carved(s.data), base)
        }
    }
}

/// The number of faces in a body.
pub open spec fn faces(b: BodyView) -> nat {
    of_type(b.graph.nodes, b.graph.order, "FACE"@).len()
}

/// Where a body with `n` faces goes among ranked ones: behind all that have as
/// many or more, looking from `from` on.
pub open spec fn rank_of(ranked: Seq<BodyView>, n: nat, from: int) -> int
    decreases ranked.len() - from,
{
    if 0 <= from < ranked.len() && faces(ranked[from]) >= n {
        rank_of(ranked, n, from + 1)
    } else {
        from
    }
}

/// Bodies with the most faces first, those with equally many in their order.
pub open spec fn by_faces(bodies: Seq<BodyView>) -> Seq<BodyView>
    decreases bodies.len(),
{
    if bodies.len() == 0 {
        Seq::empty()
    } else {
        let before = by_faces(bodies.drop_last());
        let b = bodies.last();
        before.insert(rank_of(before, faces(b), 0), b)
    }
}

/// The bodies of a part file, best first.
pub open spec fn bodies_of(data: Seq<u8>, base: SchemaView) -> Seq<BodyView> {
    by_faces(
        bodies_in_streams(
            streams_of(crate::container::chunks_from(data, data[7], 0)),
            base,
        ),
    )
}

/// The number of face nodes in a graph.
fn face_count(graph: &Graph) -> (r: usize)
    ensures
        r == of_type(graph@.nodes, graph@.order, "FACE"@).len(),
{
    let found = graph.by_type("FACE");
    found.len()
}

/// A rank lies among the ranked bodies or right behind them.
proof fn lemma_rank_of(ranked: Seq<BodyView>, n: nat, from: int)
    requires
        0 <= from <= ranked.len(),
    ensures
        from <= rank_of(ranked, n, from) <= ranked.len(),
        forall|i: int| from <= i < rank_of(ranked, n, from) ==> faces(#[trigger] ranked[i]) >= n,
        rank_of(ranked, n, from) < ranked.len() ==> faces(ranked[rank_of(ranked, n, from)]) < n,
    decreases ranked.len() - from,
{
    if from < ranked.len() && faces(ranked[from]) >= n {
        lemma_rank_of(ranked, n, from + 1);
    }
}

/// Ranking keeps every body and puts none before one with more faces.
pub proof fn lemma_best_body_first(bodies: Seq<BodyView>)
    ensures
        by_faces(bodies).to_multiset() == bodies.to_multiset(),
        by_faces(bodies).len() == bodies.len(),
        forall|i: int, j: int|
            0 <= i < j < by_faces(bodies).len() ==> faces(#[trigger] by_faces(bodies)[i]) >= faces(
                #[trigger] by_faces(bodies)[j],
            ),
    decreases bodies.len(),
{
    if bodies.len() == 0 {
        assert(by_faces(bodies) =~= bodies);
    } else {
        let before = by_faces(bodies.drop_last());
        let b = bodies.last();
        let k = rank_of(before, faces(b), 0);
        lemma_best_body_first(bodies.drop_last());
        lemma_rank_of(before, faces(b), 0);
        before.insert_ensures(k, b);
        broadcast use vstd::seq_lib::group_to_multiset_ensures;

        assert(bodies =~= bodies.drop_last().push(b));
        assert(bodies.to_multiset() =~= bodies.drop_last().to_multiset().insert(b));
        lemma_insert_multiset(before, k, b);
        let all = by_faces(bodies);
        assert forall|i: int, j: int| 0 <= i < j < all.len() implies faces(#[trigger] all[i])
            >= faces(#[trigger] all[j]) by {
            if i < k {
                assert(all[i] == before[i]);
                assert(faces(before[i]) >= faces(b));
            }
            if j < k {
                assert(all[j] == before[j]);
            } else if j > k {
                assert(all[j] == before[j - 1]);
                if i > k {
                    assert(all[i] == before[i - 1]);
                } else if i == k {
                    if j - 1 > k {
                        assert(faces(before[k]) >= faces(before[j - 1]));
                    }
                }
            }
        }
    }
}

/// An item put anywhere into a list is one more item of it.
proof fn lemma_insert_multiset(s: Seq<BodyView>, k: int, b: BodyView)
    requires
        0 <= k <= s.len(),
    ensures
        s.insert(k, b).to_multiset() == s.to_multiset().insert(b),
{
    broadcast use vstd::seq_lib::group_to_multiset_ensures;

    let left = s.take(k);
    let right = s.skip(k);
    assert(s =~= left + right);
    assert(s.insert(k, b) =~= left.push(b) + right);
    vstd::seq_lib::lemma_multiset_commutative(left, right);
    vstd::seq_lib::lemma_multiset_commutative(left.push(b), right);
    assert(s.insert(k, b).to_multiset() =~= s.to_multiset().insert(b));
}

/// Rank bodies by their number of faces.
fn rank(bodies: Vec<BodyGraph>) -> (r: Vec<BodyGraph>)
    ensures
        body_views(r@) == by_faces(body_views(bodies@)),
{
    let ghost all = bodies@;
    let ghost views = body_views(all);
    let mut out: Vec<BodyGraph> = Vec::new();
    let mut counts: Vec<usize> = Vec::new();
    assert(body_views(out@) =~= Seq::<BodyView>::empty());
    for b in it: bodies.into_iter()
        invariant
            it.seq() == all,
            views == body_views(all),
            body_views(out@) == by_faces(views.take(it.index() as int)),
            counts@.len() == out@.len(),
            forall|i: int| 0 <= i < out@.len() ==> counts@[i] == faces(#[trigger] out@[i]@),
    {
        let ghost i = it.index() as int;
        let ghost bv = b@;
        let n: usize = face_count(&b.graph);
        let mut k: usize = 0;
        while k < out.len() && counts[k] >= n
            invariant
                k <= out@.len(),
                counts@.len() == out@.len(),
                n == faces(bv),
                forall|i: int| 0 <= i < out@.len() ==> counts@[i] == faces(#[trigger] out@[i]@),
                rank_of(body_views(out@), n as nat, 0) == rank_of(
                    body_views(out@),
                    n as nat,
                    k as int,
                ),
            decreases out@.len() - k,
        {
            assert(body_views(out@)[k as int] == out@[k as int]@);
            k += 1;
        }
        proof {
            if k < out@.len() {
                assert(body_views(out@)[k as int] == out@[k as int]@);
            }
            assert(rank_of(body_views(out@), n as nat, 0) == k);
            assert(views.take(i + 1).drop_last() =~= views.take(i));
            assert(views.take(i + 1).last() == bv);
        }
        let ghost before = out@;
        out.insert(k, b);
        counts.insert(k, n);
        proof {
            assert(body_views(out@) =~= body_views(before).insert(k as int, bv));
        }
    }
    assert(views.take(views.len() as int) =~= views);
    out
}

/// All bodies carry geometry.
spec fn all_carry(bodies: Seq<BodyView>) -> bool {
    forall|i: int| 0 <= i < bodies.len() ==> carries_geometry((#[trigger] bodies[i]).graph)
}

proof fn lemma_blobs_carry(stream: Seq<char>, blobs: Seq<Seq<u8>>, base: SchemaView)
    ensures
        all_carry(bodies_in_blobs(stream, blobs, base)),
    decreases blobs.len(),
{
    if blobs.len() > 0 {
        lemma_blobs_carry(stream, blobs.drop_last(), base);
    }
}

proof fn lemma_streams_carry(streams: Seq<StreamView>, base: SchemaView)
    ensures
        all_carry(bodies_in_streams(streams, base)),
    decreases streams.len(),
{
    if streams.len() > 0 {
        lemma_streams_carry(streams.drop_last(), base);
        let s = streams.last();
        lemma_blobs_carry(s.name, carved(s.data), base);
    }
}

proof fn lemma_ranked_carry(bodies: Seq<BodyView>)
    requires
        all_carry(bodies),
    ensures
        all_carry(by_faces(bodies)),
    decreases bodies.len(),
{
    if bodies.len() > 0 {
        let few = bodies.drop_last();
        assert(all_carry(few)) by {
            assert forall|i: int| 0 <= i < few.len() implies carries_geometry(
                (#[trigger] few[i]).graph,
            ) by {
                assert(few[i] == bodies[i]);
            }
        }
        lemma_ranked_carry(few);
        let before = by_faces(few);
        let b = bodies.last();
        assert(bodies[bodies.len() - 1] == b);
        let k = rank_of(before, faces(b), 0);
        lemma_rank_of(before, faces(b), 0);
        let all = before.insert(k, b);
        assert forall|i: int| 0 <= i < all.len() implies carries_geometry(
            (#[trigger] all[i]).graph,
        ) by {
            if i < k {
                assert(all[i] == before[i]);
            } else if i > k {
                assert(all[i] == before[i - 1]);
            }
        }
    }
}

/// Every body of a part carries geometry: a transmit without any is no body.
pub proof fn lemma_bodies_carry_geometry(data: Seq<u8>, base: SchemaView)
    ensures
        forall|i: int|
            0 <= i < bodies_of(data, base).len() ==> carries_geometry(
                (#[trigger] bodies_of(data, base)[i]).graph,
            ),
{
    let streams = streams_of(crate::container::chunks_from(data, data[7], 0));
    lemma_streams_carry(streams, base);
    lemma_ranked_carry(bodies_in_streams(streams, base));
}

/// Add the bodies of one stream.
fn add_bodies(stream: &Stream, base: &BaseSchema, out: &mut Vec<BodyGraph>)
    ensures
        body_views(final(out)@) == body_views(old(out)@) + bodies_in_blobs(
            stream@.name,
            carved(stream@.data),
            schema_view(*base),
        ),
{
    let blobs = carve_zlib(stream.data.as_slice());
    let ghost views = blobs@.map_values(|b: Vec<u8>| b@);
    let ghost first = body_views(out@);
    let ghost sv = schema_view(*base);
    let mut i: usize = 0;
    assert(first + Seq::<BodyView>::empty() =~= first);
    while i < blobs.len()
        invariant
            i <= blobs@.len(),
            views == blobs@.map_values(|b: Vec<u8>| b@),
            sv == schema_view(*base),
            first == body_views(old(out)@),
            body_views(out@) == first + bodies_in_blobs(stream@.name, views.take(i as int), sv),
        decreases blobs@.len() - i,
    {
        assert(views.take(i + 1).drop_last() =~= views.take(i as int));
        assert(views.take(i + 1).last() == blobs@[i as int]@);
        let ghost so_far = bodies_in_blobs(stream@.name, views.take(i as int), sv);
        match transmit_kind(blobs[i].as_slice()) {
            None => {},
            Some(TransmitKind::Deltas) => {},
            Some(_) => {
                if let Ok(nodes) = parse_transmit(blobs[i].as_slice(), base) {
                    let graph = Graph::new(nodes);
                    if has_geometry(&graph) {
                        let b = BodyGraph { stream: stream.name.clone(), graph };
                        let ghost before = out@;
                        out.push(b);
                        assert(body_views(out@) =~= body_views(before).push(b@));
                        assert((first + so_far).push(b@) =~= first + so_far.push(b@));
                    }
                }
            },
        }
        i += 1;
    }
    assert(views.take(i as int) =~= views);
    assert(views =~= carved(stream@.data));
}

/// Every parseable transmit in a part file that carries geometry, best first.
///
/// Where the solid lives varies by SolidWorks era (`Contents/Config-N-Partition`
/// in older files, `Config-N-FeatureBodies/LocalBodies` in ~2024 ones), so this
/// carves every stream and ranks by face count rather than trusting names.
/// Ghost partitions (reference wire bodies) are skipped.
pub fn body_graphs(data: &[u8], base: &BaseSchema) -> (r: Result<Vec<BodyGraph>, Error>)
    ensures
        match r {
            Ok(bodies) => {
                &&& crate::container::modern(data@)
                &&& bodies@.len() > 0
                &&& body_views(bodies@) == bodies_of(data@, schema_view(*base))
                &&& forall|i: int|
                    0 <= i < bodies@.len() ==> carries_geometry((#[trigger] bodies@[i])@.graph)
            },
            Err(Error::NotModernSldprt) => !crate::container::modern(data@),
            Err(Error::NoGeometry) => crate::container::modern(data@) && bodies_of(
                data@,
                schema_view(*base),
            ).len() == 0,
            Err(_) => false,
        },
{
    let file = match parse(data) {
        Ok(f) => f,
        Err(e) => {
            return Err(e);
        },
    };
    let streams = file.streams();
    let ghost views = stream_views(streams@);
    let ghost sv = schema_view(*base);
    let mut out: Vec<BodyGraph> = Vec::new();
    let mut i: usize = 0;
    assert(body_views(out@) =~= Seq::<BodyView>::empty());
    while i < streams.len()
        invariant
            i <= streams@.len(),
            views == stream_views(streams@),
            sv == schema_view(*base),
            body_views(out@) == bodies_in_streams(views.take(i as int), sv),
        decreases streams@.len() - i,
    {
        assert(views.take(i + 1).drop_last() =~= views.take(i as int));
        assert(views.take(i + 1).last() == streams@[i as int]@);
        if !ends_in(streams[i].name.as_str(), "-GhostPartition") {
            add_bodies(&streams[i], base, &mut out);
        }
        i += 1;
    }
    assert(views.take(i as int) =~= views);
    proof {
        lemma_best_body_first(body_views(out@));
    }
    let ranked = rank(out);
    if ranked.len() == 0 {
        return Err(Error::NoGeometry);
    }
    proof {
        lemma_bodies_carry_geometry(data@, sv);
        assert forall|i: int| 0 <= i < ranked@.len() implies carries_geometry(
            (#[trigger] ranked@[i])@.graph,
        ) by {
            assert(body_views(ranked@)[i] == ranked@[i]@);
        }
    }
    Ok(ranked)
}

/// The node graph of a bare transmit (an `.x_b` file).
pub fn transmit_graph(data: &[u8], base: &BaseSchema) -> (r: Result<Graph, Error>)
    ensures
        match (r, document(data@, base.name@, type_views(base.types@))) {
            (Ok(g), Ok(doc)) => g@ == graph_of(doc.nodes),
            (Err(Error::Parse(m)), Err(f)) => m@ == f.text(),
            _ => false,
        },
{
    match parse_transmit(data, base) {
        Ok(nodes) => Ok(Graph::new(nodes)),
        Err(e) => Err(Error::Parse(e.0)),
    }
}

/// A letter in lower case where it is an ASCII capital.
pub open spec fn ascii_lower(c: char) -> char {
    if 'A' <= c && c <= 'Z' {
        ((c as int) + 32) as char
    } else {
        c
    }
}

/// An extension, in any case, is `lower`.
pub open spec fn is_extension(ext: Seq<char>, lower: Seq<char>) -> bool {
    ext.map_values(|c: char| ascii_lower(c)) == lower
}

/// A file with this extension is a bare transmit.
pub open spec fn bare(ext: Seq<char>) -> bool {
    is_extension(ext, "x_b"@) || is_extension(ext, "xb"@)
}

/// Is an extension, in any case, `lower`?
pub fn has_extension(ext: &str, lower: &str) -> (r: bool)
    ensures
        r == is_extension(ext@, lower@),
{
    let chars = crate::text::chars_of(ext);
    let ghost low = ext@.map_values(|c: char| ascii_lower(c));
    let mut out: Vec<char> = Vec::new();
    let mut i: usize = 0;
    while i < chars.len()
        invariant
            i <= chars@.len(),
            chars@ == ext@,
            low == ext@.map_values(|c: char| ascii_lower(c)),
            out@ == low.take(i as int),
        decreases chars@.len() - i,
    {
        let c: char = chars[i];
        if 'A' <= c && c <= 'Z' {
            let small: u8 = c as u8 + 32;
            out.push(small as char);
        } else {
            out.push(c);
        }
        assert(out@ =~= low.take(i + 1));
        i += 1;
    }
    assert(low.take(i as int) =~= low);
    same_text(crate::text::string_of(out.as_slice()).as_str(), lower)
}

/// A file with this extension is a bare transmit, not a part file.
pub fn is_bare_transmit(ext: &str) -> (r: bool)
    ensures
        r == bare(ext@),
{
    has_extension(ext, "x_b") || has_extension(ext, "xb")
}

/// The graph to mesh of a file with this extension: that of a bare transmit, or
/// else the best body of a part file.
pub fn file_graph(ext: &str, data: &[u8], base: &BaseSchema) -> (r: Result<Graph, Error>)
    ensures
        bare(ext@) ==> match (r, document(data@, base.name@, type_views(base.types@))) {
            (Ok(g), Ok(doc)) => g@ == graph_of(doc.nodes),
            (Err(Error::Parse(m)), Err(f)) => m@ == f.text(),
            _ => false,
        },
        !bare(ext@) ==> match r {
            Ok(g) => crate::container::modern(data@) && bodies_of(data@, schema_view(*base)).len()
                > 0 && g@ == bodies_of(data@, schema_view(*base))[0].graph,
            Err(Error::NotModernSldprt) => !crate::container::modern(data@),
            Err(Error::NoGeometry) => crate::container::modern(data@) && bodies_of(
                data@,
                schema_view(*base),
            ).len() == 0,
            Err(_) => false,
        },
{
    if is_bare_transmit(ext) {
        return transmit_graph(data, base);
    }
    match body_graphs(data, base) {
        Ok(bodies) => {
            let mut bodies = bodies;
            assert(body_views(bodies@)[0] == bodies@[0]@);
            let best = bodies.remove(0);
            Ok(best.graph)
        },
        Err(e) => Err(e),
    }
}

} // verus!
