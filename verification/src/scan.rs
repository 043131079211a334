//! What a part file holds, for a report of it, and the names under which the
//! transmits in it are written out.

use vstd::prelude::*;

use crate::container::{stream_views, Stream, StreamView, SwxFile};
use crate::graph::{graph_of, of_type, Graph};
use crate::part::{carved, schema_view, SchemaView};
use crate::sections::{carve_zlib, kind_of_blob, transmit_kind, TransmitKind};
use crate::text::{begins_with, decimal, has_head, push_decimal};
use crate::xt::schema::BaseSchema;
use crate::xt::{document, parse_transmit};

verus! {

/// A transmit found in a stream.
pub struct Found {
    pub stream: String,
    pub kind: TransmitKind,
    pub bytes: usize,
    /// Nodes and faces in it, none where it cannot be read.
    pub nodes: usize,
    pub faces: usize,
}

/// The contents of a find.
#[verifier::ext_equal]
pub struct FoundView {
    pub stream: Seq<char>,
    pub kind: TransmitKind,
    pub bytes: nat,
    pub nodes: nat,
    pub faces: nat,
}

impl View for Found {
    type V = FoundView;

    open spec fn view(&self) -> FoundView {
        FoundView {
            stream: self.stream@,
            kind: self.kind,
            bytes: self.bytes as nat,
            nodes: self.nodes as nat,
            faces: self.faces as nat,
        }
    }
}

/// The contents of each find.
pub open spec fn found_all(found: Seq<Found>) -> Seq<FoundView> {
    found.map_values(|f: Found| f@)
}

/// What a carved block is, where it is a transmit.
pub open spec fn found_in(stream: Seq<char>, blob: Seq<u8>, base: SchemaView) -> Option<FoundView> {
    match kind_of_blob(blob) {
        None => None,
        Some(kind) => match document(blob, base.name, base.types) {
            Ok(doc) => Some(
                FoundView {
                    stream,
                    kind,
                    bytes: blob.len(),
                    nodes: doc.nodes.len(),
                    faces: of_type(
                        graph_of(doc.nodes).nodes,
                        graph_of(doc.nodes).order,
                        "FACE"@,
                    ).len(),
                },
            ),
            Err(_) => Some(
                FoundView { stream, kind, bytes: blob.len(), nodes: 0, faces: 0 },
            ),
        },
    }
}

/// The transmits among carved blocks.
pub open spec fn found_in_blobs(
    stream: Seq<char>,
    blobs: Seq<Seq<u8>>,
    base: SchemaView,
) -> Seq<FoundView>
    decreases blobs.len(),
{
    if blobs.len() == 0 {
        Seq::empty()
    } else {
        let before = found_in_blobs(stream, blobs.drop_last(), base);
        match found_in(stream, blobs.last(), base) {
            Some(f) => before.push(f),
            None => before,
        }
    }
}

/// The transmits in streams, in order.
pub open spec fn found_in_streams(streams: Seq<StreamView>, base: SchemaView) -> Seq<FoundView>
    decreases streams.len(),
{
    if streams.len() == 0 {
        Seq::empty()
    } else {
        found_in_streams(streams.drop_last(), base) + found_in_blobs(
            streams.last().name,
            carved(streams.last().data),
            base,
        )
    }
}

/// What a carved block is, where it is a transmit.
fn look_at(stream: &Stream, blob: &Vec<u8>, base: &BaseSchema) -> (r: Option<Found>)
    ensures
        match (r, found_in(stream@.name, blob@, schema_view(*base))) {
            (Some(f), Some(v)) => f@ == v,
            (None, None) => true,
            _ => false,
        },
{
    match transmit_kind(blob.as_slice()) {
        None => None,
        Some(kind) => {
            let stream = stream.name.clone();
            let bytes: usize = blob.len();
            match parse_transmit(blob.as_slice(), base) {
                Ok(list) => {
                    let nodes: usize = list.len();
                    let graph = Graph::new(list);
                    let faces: usize = graph.by_type("FACE").len();
                    Some(Found { stream, kind, bytes, nodes, faces })
                },
                Err(_) => Some(Found { stream, kind, bytes, nodes: 0, faces: 0 }),
            }
        },
    }
}

/// Add the transmits of one stream.
fn add_found(stream: &Stream, base: &BaseSchema, out: &mut Vec<Found>)
    ensures
        found_all(final(out)@) == found_all(old(out)@) + found_in_blobs(
            stream@.name,
            carved(stream@.data),
            schema_view(*base),
        ),
{
    let blobs = carve_zlib(stream.data.as_slice());
    let ghost views = blobs@.map_values(|b: Vec<u8>| b@);
    let ghost first = found_all(out@);
    let ghost sv = schema_view(*base);
    let mut i: usize = 0;
    assert(first + Seq::<FoundView>::empty() =~= first);
    while i < blobs.len()
        invariant
            i <= blobs@.len(),
            views == blobs@.map_values(|b: Vec<u8>| b@),
            sv == schema_view(*base),
            first == found_all(old(out)@),
            found_all(out@) == first + found_in_blobs(stream@.name, views.take(i as int), sv),
        decreases blobs@.len() - i,
    {
        assert(views.take(i + 1).drop_last() =~= views.take(i as int));
        assert(views.take(i + 1).last() == blobs@[i as int]@);
        let ghost so_far = found_in_blobs(stream@.name, views.take(i as int), sv);
        if let Some(f) = look_at(stream, &blobs[i], base) {
            let ghost before = out@;
            out.push(f);
            assert(found_all(out@) =~= found_all(before).push(f@));
            assert((first + so_far).push(f@) =~= first + so_far.push(f@));
        }
        i += 1;
    }
    assert(views.take(i as int) =~= views);
    assert(views =~= carved(stream@.data));
}

/// Every transmit in the streams of a part file.
pub fn transmits(streams: &[Stream], base: &BaseSchema) -> (r: Vec<Found>)
    ensures
        found_all(r@) == found_in_streams(stream_views(streams@), schema_view(*base)),
{
    let ghost views = stream_views(streams@);
    let ghost sv = schema_view(*base);
    let mut out: Vec<Found> = Vec::new();
    let mut i: usize = 0;
    assert(found_all(out@) =~= Seq::<FoundView>::empty());
    while i < streams.len()
        invariant
            i <= streams@.len(),
            views == stream_views(streams@),
            sv == schema_view(*base),
            found_all(out@) == found_in_streams(views.take(i as int), sv),
        decreases streams@.len() - i,
    {
        assert(views.take(i + 1).drop_last() =~= views.take(i as int));
        assert(views.take(i + 1).last() == streams@[i as int]@);
        add_found(&streams[i], base, &mut out);
        i += 1;
    }
    assert(views.take(i as int) =~= views);
    out
}

// ---- streams ----

/// The first of the streams, from `from` on, that tells the version.
pub open spec fn version_at(streams: Seq<StreamView>, from: int) -> Option<int>
    decreases streams.len() - from,
{
    if from < 0 || from >= streams.len() {
        None
    } else if has_head(streams[from].name, "_MO_VERSION_"@) {
        Some(from)
    } else {
        version_at(streams, from + 1)
    }
}

/// The place of the stream that tells the version.
pub fn version_stream(streams: &[Stream]) -> (r: Option<usize>)
    ensures
        match (r, version_at(stream_views(streams@), 0)) {
            (Some(k), Some(i)) => k == i && i < streams@.len(),
            (None, None) => true,
            _ => false,
        },
{
    let ghost views = stream_views(streams@);
    let mut i: usize = 0;
    while i < streams.len()
        invariant
            i <= streams@.len(),
            views == stream_views(streams@),
            version_at(views, 0) == version_at(views, i as int),
        decreases streams@.len() - i,
    {
        assert(views[i as int] == streams@[i as int]@);
        if begins_with(streams[i].name.as_str(), "_MO_VERSION_") {
            return Some(i);
        }
        i += 1;
    }
    None
}

/// Where a stream of `n` bytes goes among places ordered by size: behind all
/// that are as large or larger, looking from `from` on.
pub open spec fn size_place(streams: Seq<StreamView>, sorted: Seq<int>, n: nat, from: int) -> int
    decreases sorted.len() - from,
{
    if 0 <= from < sorted.len() && streams[sorted[from]].data.len() >= n {
        size_place(streams, sorted, n, from + 1)
    } else {
        from
    }
}

/// The places of the first `n` streams, the largest first and equally large
/// ones in their order.
pub open spec fn by_size(streams: Seq<StreamView>, n: int) -> Seq<int>
    decreases n,
{
    if n <= 0 {
        Seq::empty()
    } else {
        let before = by_size(streams, n - 1);
        before.insert(size_place(streams, before, streams[n - 1].data.len(), 0), n - 1)
    }
}

/// The contents of places.
pub open spec fn places(at: Seq<usize>) -> Seq<int> {
    at.map_values(|k: usize| k as int)
}

/// The places of the streams, the largest first.
pub fn largest_streams(streams: &[Stream]) -> (r: Vec<usize>)
    ensures
        places(r@) == by_size(stream_views(streams@), streams@.len() as int),
        forall|k: int| 0 <= k < r@.len() ==> #[trigger] r@[k] < streams@.len(),
{
    let ghost views = stream_views(streams@);
    let mut out: Vec<usize> = Vec::new();
    let mut i: usize = 0;
    assert(places(out@) =~= Seq::<int>::empty());
    while i < streams.len()
        invariant
            i <= streams@.len(),
            views == stream_views(streams@),
            places(out@) == by_size(views, i as int),
            forall|k: int| 0 <= k < out@.len() ==> #[trigger] out@[k] < i,
        decreases streams@.len() - i,
    {
        let n: usize = streams[i].data.len();
        assert(views[i as int] == streams@[i as int]@);
        let mut k: usize = 0;
        while k < out.len() && streams[out[k]].data.len() >= n
            invariant
                k <= out@.len(),
                i < streams@.len(),
                views == stream_views(streams@),
                forall|k: int| 0 <= k < out@.len() ==> #[trigger] out@[k] < i,
                size_place(views, places(out@), n as nat, 0) == size_place(
                    views,
                    places(out@),
                    n as nat,
                    k as int,
                ),
            decreases out@.len() - k,
        {
            assert(places(out@)[k as int] == out@[k as int]);
            assert(views[out@[k as int] as int] == streams@[out@[k as int] as int]@);
            k += 1;
        }
        proof {
            if k < out@.len() {
                assert(places(out@)[k as int] == out@[k as int]);
                assert(views[out@[k as int] as int] == streams@[out@[k as int] as int]@);
            }
        }
        let ghost before = out@;
        out.insert(k, i);
        assert(places(out@) =~= places(before).insert(k as int, i as int));
        i += 1;
    }
    out
}

// ---- text ----

/// The name of a kind.
pub open spec fn kind_text(kind: TransmitKind) -> Seq<char> {
    match kind {
        TransmitKind::Partition => "Partition"@,
        TransmitKind::Deltas => "Deltas"@,
        TransmitKind::Part => "Part"@,
    }
}

/// The name of a kind.
pub fn kind_name(kind: TransmitKind) -> (r: &'static str)
    ensures
        r@ == kind_text(kind),
{
    match kind {
        TransmitKind::Partition => "Partition",
        TransmitKind::Deltas => "Deltas",
        TransmitKind::Part => "Part",
    }
}

impl FoundView {
    /// One line on a find.
    pub open spec fn line(self) -> Seq<char> {
        "  parasolid "@ + kind_text(self.kind) + " in "@ + self.stream + ": "@ + decimal(self.bytes)
            + " bytes, "@ + decimal(self.nodes) + " nodes, "@ + decimal(self.faces) + " faces"@
    }
}

impl Found {
    /// One line on a find.
    pub fn line(&self) -> (r: String)
        ensures
            r@ == self@.line(),
    {
        let mut s = "  parasolid ".to_owned();
        s.append(kind_name(self.kind));
        s.append(" in ");
        s.append(self.stream.as_str());
        s.append(": ");
        push_decimal(&mut s, self.bytes as u64);
        s.append(" bytes, ");
        push_decimal(&mut s, self.nodes as u64);
        s.append(" nodes, ");
        push_decimal(&mut s, self.faces as u64);
        s.append(" faces");
        s
    }
}

/// The character of a hexadecimal digit.
pub open spec fn hex_digit(d: int) -> char {
    if d < 10 {
        (48 + d) as char
    } else {
        (87 + d) as char
    }
}

fn hex_char(d: u8) -> (r: char)
    requires
        d < 16,
    ensures
        r == hex_digit(d as int),
{
    if d < 10 {
        (48 + d) as char
    } else {
        (87 + d) as char
    }
}

/// One line on a whole file.
pub open spec fn file_line(key: u8, chunks: nat, streams: nat) -> Seq<char> {
    "ROL key: 0x"@.push(hex_digit((key / 16) as int)).push(hex_digit((key % 16) as int)) + "; "@
        + decimal(chunks) + " chunks, "@ + decimal(streams) + " named streams"@
}

/// One line on a whole file.
pub fn summary_line(file: &SwxFile, streams: usize) -> (r: String)
    ensures
        r@ == file_line(file.rol_key, file.chunks@.len(), streams as nat),
{
    let mut s = "ROL key: 0x".to_owned();
    s.push(hex_char(file.rol_key / 16));
    s.push(hex_char(file.rol_key % 16));
    s.append("; ");
    push_decimal(&mut s, file.chunks.len() as u64);
    s.append(" chunks, ");
    push_decimal(&mut s, streams as u64);
    s.append(" named streams");
    s
}

/// The lower-case form of a text, as Unicode gives it.
pub uninterp spec fn lowered(s: Seq<char>) -> Seq<char>;

/// `str::to_lowercase`: the lower-case equivalent of the text by the Unicode
/// derived core property `Lowercase`, which is named here and not spelt out.
#[verifier::external_body]
fn lower_case(s: &str) -> (r: String)
    ensures
        r@ == lowered(s@),
{
    s.to_lowercase()
}

/// A text with dots in place of slashes.
pub open spec fn dotted(s: Seq<char>) -> Seq<char> {
    s.map_values(
        |c: char|
            if c == '/' {
                '.'
            } else {
                c
            },
    )
}

/// The name of a transmit before it is put in lower case.
pub open spec fn mixed_name(stem: Seq<char>, stream: Seq<char>, kind: TransmitKind) -> Seq<char> {
    stem + "."@ + dotted(stream) + "."@ + kind_text(kind) + ".x_b"@
}

/// The name of a transmit before it is put in lower case.
pub fn transmit_label(stem: &str, stream: &str, kind: TransmitKind) -> (r: String)
    ensures
        r@ == mixed_name(stem@, stream@, kind),
{
    let mut s = stem.to_owned();
    s.append(".");
    let chars = crate::text::chars_of(stream);
    let ghost head = s@;
    let mut i: usize = 0;
    while i < chars.len()
        invariant
            i <= chars@.len(),
            chars@ == stream@,
            s@ == head + dotted(stream@).take(i as int),
        decreases chars@.len() - i,
    {
        if chars[i] == '/' {
            s.push('.');
        } else {
            s.push(chars[i]);
        }
        assert(s@ =~= head + dotted(stream@).take(i + 1));
        i += 1;
    }
    assert(dotted(stream@).take(i as int) =~= dotted(stream@));
    s.append(".");
    s.append(kind_name(kind));
    s.append(".x_b");
    s
}

/// The file name that a transmit is written out under.
pub fn transmit_name(stem: &str, stream: &str, kind: TransmitKind) -> (r: String)
    ensures
        r@ == lowered(mixed_name(stem@, stream@, kind)),
{
    lower_case(transmit_label(stem, stream, kind).as_str())
}

// ---- writing transmits out ----

/// A transmit to be written out: under which name, what it is, and its bytes.
pub struct Extract {
    pub name: String,
    pub kind: TransmitKind,
    pub data: Vec<u8>,
}

/// The contents of an extract.
#[verifier::ext_equal]
pub struct ExtractView {
    pub name: Seq<char>,
    pub kind: TransmitKind,
    pub data: Seq<u8>,
}

impl View for Extract {
    type V = ExtractView;

    open spec fn view(&self) -> ExtractView {
        ExtractView { name: self.name@, kind: self.kind, data: self.data@ }
    }
}

/// The contents of each extract.
pub open spec fn extract_views(all: Seq<Extract>) -> Seq<ExtractView> {
    all.map_values(|e: Extract| e@)
}

/// The extracts of carved blocks: those that are transmits.
pub open spec fn extracts_of_blobs(
    stem: Seq<char>,
    stream: Seq<char>,
    blobs: Seq<Seq<u8>>,
) -> Seq<ExtractView>
    decreases blobs.len(),
{
    if blobs.len() == 0 {
        Seq::empty()
    } else {
        let before = extracts_of_blobs(stem, stream, blobs.drop_last());
        match kind_of_blob(blobs.last()) {
            Some(kind) => before.push(
                ExtractView {
                    name: lowered(mixed_name(stem, stream, kind)),
                    kind,
                    data: blobs.last(),
                },
            ),
            None => before,
        }
    }
}

/// The extracts of streams, in order.
pub open spec fn extracts_of(stem: Seq<char>, streams: Seq<StreamView>) -> Seq<ExtractView>
    decreases streams.len(),
{
    if streams.len() == 0 {
        Seq::empty()
    } else {
        extracts_of(stem, streams.drop_last()) + extracts_of_blobs(
            stem,
            streams.last().name,
            carved(streams.last().data),
        )
    }
}

fn extract_stream(stem: &str, stream: &Stream) -> (r: Vec<Extract>)
    ensures
        extract_views(r@) == extracts_of_blobs(stem@, stream@.name, carved(stream@.data)),
{
    let blobs = carve_zlib(stream.data.as_slice());
    let ghost views = carved(stream@.data);
    assert(blobs@.map_values(|b: Vec<u8>| b@) =~= views);
    let mut out: Vec<Extract> = Vec::new();
    assert(extract_views(out@) =~= extracts_of_blobs(stem@, stream@.name, views.take(0)));
    for blob in it: blobs.into_iter()
        invariant
            views.len() == it.seq().len(),
            forall|i: int| 0 <= i < views.len() ==> #[trigger] it.seq()[i]@ == views[i],
            extract_views(out@) == extracts_of_blobs(
                stem@,
                stream@.name,
                views.take(it.index() as int),
            ),
    {
        let ghost k = it.index() as int;
        assert(views.take(k + 1).drop_last() =~= views.take(k));
        assert(views.take(k + 1).last() == views[k]);
        let ghost before = out@;
        if let Some(kind) = transmit_kind(blob.as_slice()) {
            let name = transmit_name(stem, stream.name.as_str(), kind);
            let one = Extract { name, kind, data: blob };
            out.push(one);
            assert(extract_views(out@) =~= extract_views(before).push(one@));
        }
    }
    assert(views.take(views.len() as int) =~= views);
    out
}

/// The transmits in the streams of a part file, as they are written out.
pub fn extracts(stem: &str, streams: &[Stream]) -> (r: Vec<Extract>)
    ensures
        extract_views(r@) == extracts_of(stem@, stream_views(streams@)),
{
    let ghost views = stream_views(streams@);
    let mut out: Vec<Extract> = Vec::new();
    let mut i: usize = 0;
    assert(extract_views(out@) =~= extracts_of(stem@, views.take(0)));
    while i < streams.len()
        invariant
            i <= streams@.len(),
            views == stream_views(streams@),
            extract_views(out@) == extracts_of(stem@, views.take(i as int)),
        decreases streams@.len() - i,
    {
        assert(views.take(i + 1).drop_last() =~= views.take(i as int));
        assert(views.take(i + 1).last() == streams@[i as int]@);
        let ghost before = out@;
        let mut more = extract_stream(stem, &streams[i]);
        let ghost added = more@;
        out.append(&mut more);
        assert(extract_views(out@) =~= extract_views(before) + extract_views(added));
        i += 1;
    }
    assert(views.take(i as int) =~= views);
    out
}

} // verus!
