//! SolidWorks 2015+ chunk container.
//!
//! Everything in this layer is little-endian. Chunks are found by scanning for
//! a 6-byte marker; each carries a ROL-encoded stream name and, for "inline"
//! chunks, a raw-deflate payload.

use vstd::prelude::*;

use crate::bytes::{find, starts_with_at};
use crate::inflate::inflate_raw;
use crate::text::same_text;
use crate::Error;

verus! {

pub const MARKER: [u8; 6] = [0x14, 0x00, 0x06, 0x00, 0x08, 0x00];
pub const OLE2_MAGIC: [u8; 4] = [0xD0, 0xCF, 0x11, 0xE0];
pub const ZIP_MAGIC: [u8; 4] = [0x50, 0x4B, 0x03, 0x04];

pub const CHUNK_HEADER_SIZE: usize = 0x1E;
pub const INLINE_F1_THRESHOLD: u32 = 65536;
pub const MAX_NAME_SIZE: u32 = 512;
pub const MAX_COMPRESSED_SIZE: u32 = 67108864;

pub struct Stream {
    pub name: String,
    pub data: Vec<u8>,
}

pub struct SwxFile {
    pub rol_key: u8,
    pub chunks: Vec<Chunk>,
}

pub struct Chunk {
    pub offset: usize,
    pub section_type: u8,
    pub f1: u32,
    pub compressed_size: u32,
    pub uncompressed_size: u32,
    pub name: String,
    pub data: Option<Vec<u8>>,
}

/// A stream's name and bytes.
#[verifier::ext_equal]
pub struct StreamView {
    pub name: Seq<char>,
    pub data: Seq<u8>,
}

/// The contents of a chunk.
#[verifier::ext_equal]
pub struct ChunkView {
    pub offset: int,
    pub section_type: u8,
    pub f1: u32,
    pub compressed_size: u32,
    pub uncompressed_size: u32,
    pub name: Seq<char>,
    pub data: Option<Seq<u8>>,
}

impl View for Stream {
    type V = StreamView;

    open spec fn view(&self) -> StreamView {
        StreamView { name: self.name@, data: self.data@ }
    }
}

impl View for Chunk {
    type V = ChunkView;

    open spec fn view(&self) -> ChunkView {
        ChunkView {
            offset: self.offset as int,
            section_type: self.section_type,
            f1: self.f1,
            compressed_size: self.compressed_size,
            uncompressed_size: self.uncompressed_size,
            name: self.name@,
            data: match self.data {
                Some(d) => Some(d@),
                None => None,
            },
        }
    }
}

/// The contents of each chunk.
pub open spec fn chunk_views(chunks: Seq<Chunk>) -> Seq<ChunkView> {
    chunks.map_values(|c: Chunk| c@)
}

/// The contents of each stream.
pub open spec fn stream_views(streams: Seq<Stream>) -> Seq<StreamView> {
    streams.map_values(|s: Stream| s@)
}

/// Some stream of `streams` is called `name`.
pub open spec fn named(streams: Seq<StreamView>, name: Seq<char>) -> bool {
    exists|i: int| 0 <= i < streams.len() && (#[trigger] streams[i]).name == name
}

/// The streams of `chunks`: every payload, the first of each name winning.
pub open spec fn streams_of(chunks: Seq<ChunkView>) -> Seq<StreamView>
    decreases chunks.len(),
{
    if chunks.len() == 0 {
        Seq::empty()
    } else {
        let before = streams_of(chunks.drop_last());
        let c = chunks.last();
        match c.data {
            Some(d) if !named(before, c.name) => before.push(StreamView { name: c.name, data: d }),
            _ => before,
        }
    }
}

impl Chunk {
    /// Inline chunks carry a deflate payload; the rest are references.
    pub fn inline(&self) -> (r: bool)
        ensures
            r == (self.f1 >= INLINE_F1_THRESHOLD),
    {
        self.f1 >= INLINE_F1_THRESHOLD
    }
}

/// True when some stream of `streams` is called `name`.
fn name_taken(streams: &Vec<Stream>, name: &str) -> (r: bool)
    ensures
        r == named(stream_views(streams@), name@),
{
    let mut i: usize = 0;
    while i < streams.len()
        invariant
            i <= streams.len(),
            forall|j: int| 0 <= j < i ==> (#[trigger] streams@[j])@.name != name@,
        decreases streams.len() - i,
    {
        if same_text(streams[i].name.as_str(), name) {
            assert(stream_views(streams@)[i as int].name == name@);
            return true;
        }
        i += 1;
    }
    assert forall|j: int| 0 <= j < streams@.len() implies (#[trigger] stream_views(
        streams@,
    )[j]).name != name@ by {
        assert(streams@[j]@.name != name@);
    }
    false
}

impl SwxFile {
    /// Decompressed streams, first occurrence of each name winning.
    pub fn streams(&self) -> (r: Vec<Stream>)
        ensures
            stream_views(r@) == streams_of(chunk_views(self.chunks@)),
    {
        let mut out: Vec<Stream> = Vec::new();
        let mut i: usize = 0;
        while i < self.chunks.len()
            invariant
                i <= self.chunks.len(),
                stream_views(out@) == streams_of(chunk_views(self.chunks@).take(i as int)),
            decreases self.chunks.len() - i,
        {
            let c = &self.chunks[i];
            let ghost views = chunk_views(self.chunks@);
            proof {
                assert(views.take(i + 1).drop_last() =~= views.take(i as int));
                assert(views.take(i + 1).last() == c@);
            }
            if let Some(d) = &c.data {
                if !name_taken(&out, c.name.as_str()) {
                    let data: Vec<u8> = d.clone();
                    assert(data@ =~= d@);
                    let s = Stream { name: c.name.clone(), data };
                    let ghost before = out@;
                    out.push(s);
                    assert(stream_views(out@) =~= stream_views(before).push(s@));
                }
            }
            i += 1;
        }
        assert(chunk_views(self.chunks@).take(i as int) =~= chunk_views(self.chunks@));
        out
    }
}

/// A byte rotated left by `shift` modulo 8 bits.
pub open spec fn rotated(b: u8, shift: u8) -> u8 {
    let k = shift & 7;
    if k == 0 {
        b
    } else {
        (b << k) | (b >> ((8 - k) as u8))
    }
}

/// Rotate one byte left by `shift & 7` bits.
pub fn rol_byte(b: u8, shift: u8) -> (r: u8)
    ensures
        r == rotated(b, shift),
{
    let k: u8 = shift & 7;
    assert(k < 8) by (bit_vector)
        requires
            k == shift & 7,
    ;
    if k == 0 {
        b
    } else {
        (b << k) | (b >> (8 - k))
    }
}

/// Rotating by a key and then by what is left to eight gives the byte back.
pub proof fn lemma_rol_is_self_inverse(b: u8, key: u8)
    ensures
        rotated(rotated(b, key), (8 - (key & 7)) as u8) == b,
{
    let k = key & 7;
    assert(k < 8) by (bit_vector)
        requires
            k == key & 7,
    ;
    let j = (8 - k) as u8;
    if k == 0 {
        assert(8u8 & 7 == 0) by (bit_vector);
    } else {
        let x = (b << k) | (b >> j);
        assert(j & 7 == j) by (bit_vector)
            requires
                1 <= j < 8,
        ;
        assert((x << j) | (x >> k) == b) by (bit_vector)
            requires
                1 <= k < 8,
                j == 8 - k,
                x == (b << k) | (b >> j),
        ;
    }
}

/// The text of a ROL-obfuscated stream name.
pub open spec fn rol_text(data: Seq<u8>, key: u8) -> Seq<char> {
    data.map_values(|b: u8| rotated(b, key) as char)
}

/// Decode a ROL-obfuscated stream name (bytes are latin-1).
pub fn rol_decode(data: &[u8], key: u8) -> (r: String)
    ensures
        r@ == rol_text(data@, key),
{
    let mut out = String::new();
    let mut i: usize = 0;
    while i < data.len()
        invariant
            i <= data.len(),
            out@ == rol_text(data@.take(i as int), key),
        decreases data.len() - i,
    {
        out.push(rol_byte(data[i], key) as char);
        i += 1;
        assert(out@ =~= rol_text(data@.take(i as int), key));
    }
    assert(data@.take(i as int) =~= data@);
    out
}

/// A stream name is one or more characters from space up to, not including,
/// 0x80.
pub open spec fn valid_name(name: Seq<char>) -> bool {
    name.len() > 0 && forall|i: int|
        0 <= i < name.len() ==> 0x20 <= (#[trigger] name[i]) as u32 && (name[i] as u32) < 0x80
}

pub fn is_valid_stream_name(name: &str) -> (r: bool)
    ensures
        r == valid_name(name@),
{
    let n: usize = name.unicode_len();
    if n == 0 {
        return false;
    }
    for c in it: name.chars()
        invariant
            forall|j: int|
                0 <= j < it.index() ==> 0x20 <= (#[trigger] name@[j]) as u32 && (name@[j] as u32)
                    < 0x80,
            it.seq() == name@,
            n == name@.len(),
    {
        if (c as u32) < 0x20 || (c as u32) >= 0x80 {
            assert(name@[it.index() as int] == c);
            return false;
        }
    }
    true
}

/// The little-endian number in the four bytes at `off`.
pub open spec fn le_u32(s: Seq<u8>, off: int) -> u32 {
    (s[off] + 0x100 * s[off + 1] + 0x10000 * s[off + 2] + 0x1000000 * s[off + 3]) as u32
}

pub fn u32_at(data: &[u8], off: usize) -> (r: u32)
    requires
        off + 4 <= data@.len(),
    ensures
        r == le_u32(data@, off as int),
{
    data[off] as u32 + 0x100 * (data[off + 1] as u32) + 0x10000 * (data[off + 2] as u32)
        + 0x1000000 * (data[off + 3] as u32)
}

/// A SolidWorks 2015+ chunk container: long enough, neither OLE2 nor ZIP, and
/// with a chunk marker in the first 64 bytes.
pub open spec fn modern(data: Seq<u8>) -> bool {
    &&& data.len() >= 22
    &&& !crate::bytes::has_at(data, 0, OLE2_MAGIC@)
    &&& !crate::bytes::has_at(data, 0, ZIP_MAGIC@)
    &&& crate::bytes::first_at(
        if data.len() < 64 {
            data
        } else {
            data.take(64)
        },
        MARKER@,
        0,
    ) is Some
}

/// True for SolidWorks 2015+ chunk-container files (not OLE2, not ZIP, marker
/// present within the first 64 bytes).
pub fn is_modern_swx(data: &[u8]) -> (r: bool)
    ensures
        r == modern(data@),
{
    if data.len() < 22 {
        return false;
    }
    if starts_with_at(data, 0, OLE2_MAGIC.as_slice()) || starts_with_at(
        data,
        0,
        ZIP_MAGIC.as_slice(),
    ) {
        return false;
    }
    if data.len() < 64 {
        find(data, MARKER.as_slice(), 0).is_some()
    } else {
        let window = vstd::slice::slice_subrange(data, 0, 64);
        assert(window@ =~= data@.take(64));
        find(window, MARKER.as_slice(), 0).is_some()
    }
}

/// What a marker found at `m` stands for: the chunk, if the header before and
/// after it is sound, and where the scan goes on.
pub struct ScanStep {
    pub chunk: Option<ChunkView>,
    pub next: int,
}

/// What is read at a marker found at `m`.
pub open spec fn scan_step(data: Seq<u8>, key: u8, m: int) -> ScanStep {
    let skipped = ScanStep { chunk: None, next: m + 1 };
    let si = m - 4;
    if si < 0 || si + CHUNK_HEADER_SIZE > data.len() {
        skipped
    } else {
        let f1 = le_u32(data, si + 0x0E);
        let csz = le_u32(data, si + 0x12);
        let nsz = le_u32(data, si + 0x1A);
        let name_start = si + CHUNK_HEADER_SIZE;
        let name_end = name_start + nsz;
        if nsz > MAX_NAME_SIZE || csz > MAX_COMPRESSED_SIZE || name_end > data.len() {
            skipped
        } else {
            let name = rol_text(data.subrange(name_start, name_end), key);
            let inline = f1 >= INLINE_F1_THRESHOLD;
            let payload = inline && csz > 0 && name_end + csz <= data.len();
            if !valid_name(name) {
                skipped
            } else {
                ScanStep {
                    chunk: Some(
                        ChunkView {
                            offset: si,
                            section_type: data[si + 0x0A],
                            f1,
                            compressed_size: csz,
                            uncompressed_size: le_u32(data, si + 0x16),
                            name,
                            data: if payload {
                                crate::inflate::raw_inflated(
                                    data.subrange(name_end, name_end + csz),
                                )
                            } else if inline && csz == 0 {
                                Some(Seq::empty())
                            } else {
                                None
                            },
                        },
                    ),
                    next: if payload {
                        name_end + csz
                    } else {
                        m + MARKER@.len()
                    },
                }
            }
        }
    }
}

/// The chunks from `pos` on, in file order.
pub open spec fn chunks_from(data: Seq<u8>, key: u8, pos: int) -> Seq<ChunkView>
    decreases data.len() - pos,
    when 0 <= pos
    via chunks_from_decreases
{
    match crate::bytes::first_at(data, MARKER@, pos) {
        None => Seq::empty(),
        Some(m) => {
            let step = scan_step(data, key, m);
            match step.chunk {
                Some(c) => seq![c] + chunks_from(data, key, step.next),
                None => chunks_from(data, key, step.next),
            }
        },
    }
}

#[via_fn]
proof fn chunks_from_decreases(data: Seq<u8>, key: u8, pos: int) {
    lemma_first_at_bounds(data, MARKER@, pos);
}

/// A hit lies at or after the start of the search, and inside the bytes.
proof fn lemma_first_at_bounds(s: Seq<u8>, needle: Seq<u8>, from: int)
    requires
        0 <= from,
    ensures
        crate::bytes::first_at(s, needle, from) matches Some(m) ==> from <= m && m + needle.len()
            <= s.len() && needle.len() > 0,
    decreases s.len() - from,
{
    if needle.len() > 0 && from + needle.len() <= s.len() && !crate::bytes::has_at(
        s,
        from,
        needle,
    ) {
        lemma_first_at_bounds(s, needle, from + 1);
    }
}

/// Read the chunk that a marker at `m` stands for.
fn read_chunk(data: &[u8], key: u8, m: usize) -> (r: (Option<Chunk>, usize))
    requires
        m + MARKER@.len() <= data@.len(),
    ensures
        match r.0 {
            Some(c) => scan_step(data@, key, m as int).chunk == Some(c@),
            None => scan_step(data@, key, m as int).chunk is None,
        },
        scan_step(data@, key, m as int).next == r.1,
        m < r.1 <= data@.len(),
{
    if m < 4 || data.len() - (m - 4) < CHUNK_HEADER_SIZE {
        return (None, m + 1);
    }
    let si: usize = m - 4;
    let f1: u32 = u32_at(data, si + 0x0E);
    let csz: u32 = u32_at(data, si + 0x12);
    let usz: u32 = u32_at(data, si + 0x16);
    let nsz: u32 = u32_at(data, si + 0x1A);
    if nsz > MAX_NAME_SIZE || csz > MAX_COMPRESSED_SIZE {
        return (None, m + 1);
    }
    let name_start: usize = si + CHUNK_HEADER_SIZE;
    if nsz as usize > data.len() - name_start {
        return (None, m + 1);
    }
    let name_end: usize = name_start + nsz as usize;
    let name = rol_decode(vstd::slice::slice_subrange(data, name_start, name_end), key);
    if !is_valid_stream_name(name.as_str()) {
        return (None, m + 1);
    }
    let mut chunk = Chunk {
        offset: si,
        section_type: data[si + 0x0A],
        f1,
        compressed_size: csz,
        uncompressed_size: usz,
        name,
        data: None,
    };
    if chunk.inline() && csz > 0 {
        if csz as usize <= data.len() - name_end {
            let data_end: usize = name_end + csz as usize;
            chunk.data = inflate_raw(vstd::slice::slice_subrange(data, name_end, data_end));
            return (Some(chunk), data_end);
        }
    } else if chunk.inline() {
        let empty: Vec<u8> = Vec::new();
        assert(empty@ =~= Seq::<u8>::empty());
        chunk.data = Some(empty);
    }
    (Some(chunk), m + MARKER.len())
}

/// Parse the chunk container. Malformed chunks are skipped, never fatal.
pub fn parse(data: &[u8]) -> (r: Result<SwxFile, Error>)
    ensures
        match r {
            Ok(f) => modern(data@) && f.rol_key == data@[7] && chunk_views(f.chunks@)
                == chunks_from(data@, data@[7], 0),
            Err(e) => !modern(data@) && e is NotModernSldprt,
        },
{
    if !is_modern_swx(data) {
        return Err(Error::NotModernSldprt);
    }
    let key: u8 = data[7];
    let mut chunks: Vec<Chunk> = Vec::new();
    let mut pos: usize = 0;
    loop
        invariant
            modern(data@),
            key == data@[7],
            0 <= pos <= data@.len(),
            chunk_views(chunks@) + chunks_from(data@, key, pos as int) == chunks_from(
                data@,
                key,
                0,
            ),
        decreases data@.len() - pos,
    {
        let m: usize = match find(data, MARKER.as_slice(), pos) {
            Some(m) => m,
            None => {
                assert(chunk_views(chunks@) + Seq::<ChunkView>::empty() =~= chunk_views(chunks@));
                return Ok(SwxFile { rol_key: key, chunks });
            },
        };
        let (chunk, next) = read_chunk(data, key, m);
        if let Some(c) = chunk {
            let ghost before = chunks@;
            chunks.push(c);
            proof {
                assert(chunk_views(chunks@) =~= chunk_views(before).push(c@));
                assert(chunk_views(before) + (seq![c@] + chunks_from(data@, key, next as int))
                    =~= chunk_views(chunks@) + chunks_from(data@, key, next as int));
            }
        }
        pos = next;
    }
}

/// Files of the older OLE2 container and ZIP archives are turned down.
pub proof fn lemma_other_containers_are_rejected(data: Seq<u8>)
    requires
        crate::bytes::has_at(data, 0, OLE2_MAGIC@) || crate::bytes::has_at(data, 0, ZIP_MAGIC@),
    ensures
        !modern(data),
{
}

/// No two streams have the same name.
pub proof fn lemma_stream_names_are_distinct(chunks: Seq<ChunkView>)
    ensures
        forall|i: int, j: int|
            0 <= i < j < streams_of(chunks).len() ==> (#[trigger] streams_of(chunks)[i]).name != (
            #[trigger] streams_of(chunks)[j]).name,
    decreases chunks.len(),
{
    if chunks.len() > 0 {
        lemma_stream_names_are_distinct(chunks.drop_last());
        let before = streams_of(chunks.drop_last());
        let all = streams_of(chunks);
        assert forall|i: int, j: int| 0 <= i < j < all.len() implies (#[trigger] all[i]).name != (
        #[trigger] all[j]).name by {
            assert(all[i] == before[i]);
            if j < before.len() {
                assert(all[j] == before[j]);
            }
        }
    }
}

/// The first chunk with a payload under some name gives the stream of that
/// name.
pub proof fn lemma_first_payload_wins(chunks: Seq<ChunkView>, i: int)
    requires
        0 <= i < chunks.len(),
        chunks[i].data is Some,
        forall|j: int|
            0 <= j < i ==> (#[trigger] chunks[j]).data is None || chunks[j].name != chunks[i].name,
    ensures
        streams_of(chunks).contains(
            (StreamView { name: chunks[i].name, data: chunks[i].data->0 }),
        ),
    decreases chunks.len(),
{
    let s = StreamView { name: chunks[i].name, data: chunks[i].data->0 };
    let before = streams_of(chunks.drop_last());
    if i == chunks.len() - 1 {
        if named(before, s.name) {
            lemma_named_in_chunks(chunks.drop_last(), s.name);
            let j = choose|j: int|
                0 <= j < i && (#[trigger] chunks.drop_last()[j]).name == s.name
                    && chunks.drop_last()[j].data is Some;
            assert(chunks[j].name == s.name);
        }
        assert(streams_of(chunks).last() == s);
    } else {
        assert forall|j: int| 0 <= j < i implies (#[trigger] chunks.drop_last()[j]).data is None
            || chunks.drop_last()[j].name != chunks.drop_last()[i].name by {
            assert(chunks[j] == chunks.drop_last()[j]);
        }
        lemma_first_payload_wins(chunks.drop_last(), i);
        let k = choose|k: int| 0 <= k < before.len() && before[k] == s;
        assert(streams_of(chunks)[k] == s);
    }
}

/// A stream's name is that of a chunk with a payload.
proof fn lemma_named_in_chunks(chunks: Seq<ChunkView>, name: Seq<char>)
    requires
        named(streams_of(chunks), name),
    ensures
        exists|j: int|
            0 <= j < chunks.len() && (#[trigger] chunks[j]).name == name && chunks[j].data is Some,
    decreases chunks.len(),
{
    let before = streams_of(chunks.drop_last());
    if named(before, name) {
        lemma_named_in_chunks(chunks.drop_last(), name);
        let j = choose|j: int|
            0 <= j < chunks.len() - 1 && (#[trigger] chunks.drop_last()[j]).name == name
                && chunks.drop_last()[j].data is Some;
        assert(chunks[j].name == name);
    } else {
        let i = choose|i: int|
            0 <= i < streams_of(chunks).len() && (#[trigger] streams_of(chunks)[i]).name == name;
        assert(i == before.len()) by {
            if i < before.len() {
                assert(before[i].name == name);
            }
        }
        assert(chunks[chunks.len() - 1].name == name);
    }
}

/// Chunks come in file order, each after the one before it, and each begins
/// four bytes before a marker.
pub proof fn lemma_chunks_in_file_order(data: Seq<u8>, key: u8, pos: int)
    requires
        0 <= pos,
    ensures
        forall|i: int|
            0 <= i < chunks_from(data, key, pos).len() ==> pos <= (#[trigger] chunks_from(
                data,
                key,
                pos,
            )[i]).offset + 4,
        forall|i: int, j: int|
            0 <= i < j < chunks_from(data, key, pos).len() ==> (#[trigger] chunks_from(
                data,
                key,
                pos,
            )[i]).offset < (#[trigger] chunks_from(data, key, pos)[j]).offset,
        forall|i: int|
            0 <= i < chunks_from(data, key, pos).len() ==> crate::bytes::has_at(
                data,
                (#[trigger] chunks_from(data, key, pos)[i]).offset + 4,
                MARKER@,
            ),
    decreases data.len() - pos,
{
    lemma_first_at_bounds(data, MARKER@, pos);
    match crate::bytes::first_at(data, MARKER@, pos) {
        None => {},
        Some(m) => {
            lemma_first_at_hit(data, MARKER@, pos);
            let step = scan_step(data, key, m);
            lemma_chunks_in_file_order(data, key, step.next);
            let rest = chunks_from(data, key, step.next);
            if let Some(c) = step.chunk {
                let all = chunks_from(data, key, pos);
                assert(all =~= seq![c] + rest);
                assert forall|i: int| 0 <= i < all.len() implies pos <= (
                #[trigger] all[i]).offset + 4 && crate::bytes::has_at(
                    data,
                    all[i].offset + 4,
                    MARKER@,
                ) by {
                    if i > 0 {
                        assert(all[i] == rest[i - 1]);
                    }
                }
                assert forall|i: int, j: int| 0 <= i < j < all.len() implies (
                #[trigger] all[i]).offset < (#[trigger] all[j]).offset by {
                    assert(all[j] == rest[j - 1]);
                    if i > 0 {
                        assert(all[i] == rest[i - 1]);
                    }
                }
            }
        },
    }
}

/// A hit is where the needle stands.
proof fn lemma_first_at_hit(s: Seq<u8>, needle: Seq<u8>, from: int)
    requires
        0 <= from,
    ensures
        crate::bytes::first_at(s, needle, from) matches Some(m) ==> crate::bytes::has_at(
            s,
            m,
            needle,
        ),
    decreases s.len() - from,
{
    if needle.len() > 0 && from + needle.len() <= s.len() && !crate::bytes::has_at(
        s,
        from,
        needle,
    ) {
        lemma_first_at_hit(s, needle, from + 1);
    }
}

// ---- what is stored is read back ----

/// A byte turned left by `k` bits, as a number: the bits move up by `k`, and
/// those that leave at the top come in at the bottom.
pub open spec fn turned_left(b: u8, k: nat) -> int {
    let moved = b * vstd::arithmetic::power2::pow2(k);
    moved % 256 + moved / 256
}

/// Rotation goes to the left: a decoded byte is the stored one with its bits
/// moved up by the key modulo 8, and what leaves at the top comes in at the
/// bottom.
pub proof fn lemma_rol_turns_left(b: u8, key: u8)
    ensures
        rotated(b, key) == turned_left(b, (key % 8) as nat),
{
    let k = key & 7;
    assert(k < 8 && k == key % 8) by (bit_vector)
        requires
            k == key & 7,
    ;
    let m = (b as u16) << (k as u16);
    assert(m == b * vstd::arithmetic::power2::pow2(k as nat)) by {
        vstd::arithmetic::power2::lemma2_to64();
        assert(b * vstd::arithmetic::power2::pow2(k as nat) <= u16::MAX) by (nonlinear_arith)
            requires
                vstd::arithmetic::power2::pow2(k as nat) <= 128,
                b <= 255,
        ;
        vstd::bits::lemma_u16_shl_is_mul(b as u16, k as u16);
    }
    if k == 0 {
        assert(m == b) by (bit_vector)
            requires
                m == (b as u16) << (k as u16),
                k == 0,
        ;
    } else {
        let x = (b << k) | (b >> ((8 - k) as u8));
        assert(x as u16 == m % 256 + m / 256) by (bit_vector)
            requires
                x == (b << k) | (b >> ((8 - k) as u8)),
                m == (b as u16) << (k as u16),
                1 <= k < 8,
        ;
    }
}


/// The number `n` stands at `off`, its lowest byte first.
pub open spec fn stands_low_first(data: Seq<u8>, off: int, n: u32) -> bool {
    &&& data[off] == n % 256
    &&& data[off + 1] == n / 256 % 256
    &&& data[off + 2] == n / 65536 % 256
    &&& data[off + 3] == n / 16777216
}

/// A name stands at `off`, each character turned out of its place by the key.
pub open spec fn stands_turned(data: Seq<u8>, off: int, name: Seq<char>, key: u8) -> bool {
    forall|i: int|
        0 <= i < name.len() ==> (#[trigger] name[i]) as int == turned_left(
            data[off + i],
            (key % 8) as nat,
        )
}

/// The marker of a chunk stands at `m`.
pub open spec fn marked(data: Seq<u8>, m: int) -> bool {
    &&& 0 <= m && m + 6 <= data.len()
    &&& data[m] == 0x14 && data[m + 1] == 0x00 && data[m + 2] == 0x06
    &&& data[m + 3] == 0x00 && data[m + 4] == 0x08 && data[m + 5] == 0x00
}

/// The header of a chunk begins at `si`: sizes and name are as given.
pub open spec fn headed(
    data: Seq<u8>,
    key: u8,
    si: int,
    f1: u32,
    compressed: u32,
    uncompressed: u32,
    name: Seq<char>,
) -> bool {
    &&& 0 <= si
    &&& si + 30 + name.len() <= data.len()
    &&& stands_low_first(data, si + 14, f1)
    &&& stands_low_first(data, si + 18, compressed)
    &&& stands_low_first(data, si + 22, uncompressed)
    &&& stands_low_first(data, si + 26, name.len() as u32)
    &&& stands_turned(data, si + 30, name, key)
}

/// A name that a stream can have.
pub open spec fn printable(name: Seq<char>) -> bool {
    name.len() > 0 && forall|i: int|
        0 <= i < name.len() ==> ' ' <= (#[trigger] name[i]) && name[i] <= '\u{7f}'
}

proof fn lemma_low_first(data: Seq<u8>, off: int, n: u32)
    requires
        stands_low_first(data, off, n),
    ensures
        le_u32(data, off) == n,
{
}

proof fn lemma_stored_name(data: Seq<u8>, off: int, name: Seq<char>, key: u8)
    requires
        0 <= off,
        off + name.len() <= data.len(),
        stands_turned(data, off, name, key),
    ensures
        rol_text(data.subrange(off, off + name.len()), key) == name,
{
    let stored = data.subrange(off, off + name.len());
    let text = rol_text(stored, key);
    assert forall|i: int| 0 <= i < name.len() implies text[i] == name[i] by {
        lemma_rol_turns_left(stored[i], key);
        assert(stored[i] == data[off + i]);
        assert(text[i] == rotated(stored[i], key) as char);
        assert(name[i] as int == turned_left(data[off + i], (key % 8) as nat));
    }
    assert(text =~= name);
}

/// A chunk is read as it was stored: where a header with an inline payload
/// begins at `si`, the chunk has the name and the sizes of the header, and its
/// data is what the bytes behind the name inflate to. The scan goes on behind
/// them.
pub proof fn lemma_stored_chunks_are_read(
    data: Seq<u8>,
    key: u8,
    si: int,
    f1: u32,
    compressed: u32,
    uncompressed: u32,
    name: Seq<char>,
)
    requires
        headed(data, key, si, f1, compressed, uncompressed, name),
        printable(name),
        name.len() <= 512,
        f1 >= 65536,
        0 < compressed <= 67108864,
        si + 30 + name.len() + compressed <= data.len(),
    ensures
        ({
            let step = scan_step(data, key, si + 4);
            let end = si + 30 + name.len();
            &&& step.next == end + compressed
            &&& step.chunk matches Some(c) && c.offset == si && c.section_type == data[si + 10]
                && c.f1 == f1 && c.compressed_size == compressed && c.uncompressed_size
                == uncompressed && c.name == name && c.data == crate::inflate::raw_inflated(
                data.subrange(end, end + compressed),
            )
        }),
{
    lemma_low_first(data, si + 14, f1);
    lemma_low_first(data, si + 18, compressed);
    lemma_low_first(data, si + 22, uncompressed);
    lemma_low_first(data, si + 26, name.len() as u32);
    lemma_stored_name(data, si + 30, name, key);
}

/// A chunk without a payload of its own -- a mere reference, an empty one, or
/// one that the file ends in the middle of -- is read by its header alone: an
/// inline one that is empty has empty data, any other none. The scan goes on
/// behind the marker.
pub proof fn lemma_chunks_without_payload_are_read(
    data: Seq<u8>,
    key: u8,
    si: int,
    f1: u32,
    compressed: u32,
    uncompressed: u32,
    name: Seq<char>,
)
    requires
        headed(data, key, si, f1, compressed, uncompressed, name),
        printable(name),
        name.len() <= 512,
        compressed <= 67108864,
        f1 < 65536 || compressed == 0 || si + 30 + name.len() + compressed > data.len(),
    ensures
        ({
            let step = scan_step(data, key, si + 4);
            &&& step.next == si + 10
            &&& step.chunk matches Some(c) && c.offset == si && c.section_type == data[si + 10]
                && c.f1 == f1 && c.compressed_size == compressed && c.uncompressed_size
                == uncompressed && c.name == name && c.data == (if f1 >= 65536 && compressed == 0 {
                Some(Seq::<u8>::empty())
            } else {
                None
            })
        }),
{
    lemma_low_first(data, si + 14, f1);
    lemma_low_first(data, si + 18, compressed);
    lemma_low_first(data, si + 22, uncompressed);
    lemma_low_first(data, si + 26, name.len() as u32);
    lemma_stored_name(data, si + 30, name, key);
}

/// A header that cannot be one is passed over: a name that is too long or cannot
/// be one, or a payload that is too large. The scan goes on at the next byte.
pub proof fn lemma_unsound_headers_are_passed_over(
    data: Seq<u8>,
    key: u8,
    si: int,
    f1: u32,
    compressed: u32,
    uncompressed: u32,
    name: Seq<char>,
)
    requires
        headed(data, key, si, f1, compressed, uncompressed, name),
        name.len() <= u32::MAX,
        name.len() > 512 || compressed > 67108864 || !printable(name),
    ensures
        scan_step(data, key, si + 4).chunk is None,
        scan_step(data, key, si + 4).next == si + 5,
{
    lemma_low_first(data, si + 18, compressed);
    lemma_low_first(data, si + 26, name.len() as u32);
    lemma_stored_name(data, si + 30, name, key);
    if !printable(name) && name.len() > 0 {
        let i = choose|i: int|
            0 <= i < name.len() && !(' ' <= (#[trigger] name[i]) && name[i] <= '\u{7f}');
        assert(!valid_name(name)) by {
            assert(!(0x20 <= (name[i] as u32) && (name[i] as u32) < 0x80));
        }
    }
}

/// Chunks are found by their markers, in order: the first marker from `pos` on
/// gives the first chunk, or none, and the scan goes on where that leaves it.
pub proof fn lemma_scan_goes_by_markers(data: Seq<u8>, key: u8, pos: int, m: int)
    requires
        0 <= pos <= m,
        marked(data, m),
        forall|i: int| pos <= i < m ==> !marked(data, i),
    ensures
        ({
            let step = scan_step(data, key, m);
            chunks_from(data, key, pos) == (match step.chunk {
                Some(c) => seq![c],
                None => Seq::empty(),
            }) + chunks_from(data, key, step.next)
        }),
{
    lemma_marked(data, m);
    assert forall|i: int| pos <= i < m implies !crate::bytes::has_at(data, i, MARKER@) by {
        lemma_marked(data, i);
        assert(!marked(data, i));
    }
    crate::bytes::lemma_first_is_first(data, MARKER@, pos, m);
    let step = scan_step(data, key, m);
    let rest = chunks_from(data, key, step.next);
    assert(Seq::<ChunkView>::empty() + rest =~= rest);
}

/// Without a marker there is no chunk.
pub proof fn lemma_no_marker_no_chunk(data: Seq<u8>, key: u8, pos: int)
    requires
        0 <= pos,
        forall|i: int| pos <= i ==> !marked(data, i),
    ensures
        chunks_from(data, key, pos).len() == 0,
{
    assert forall|i: int| pos <= i implies !crate::bytes::has_at(data, i, MARKER@) by {
        lemma_marked(data, i);
        assert(!marked(data, i));
    }
    crate::bytes::lemma_none_is_found(data, MARKER@, pos);
}

proof fn lemma_marked(data: Seq<u8>, m: int)
    ensures
        marked(data, m) == crate::bytes::has_at(data, m, MARKER@),
{
    let mark = MARKER@;
    if 0 <= m && m + 6 <= data.len() {
        let s = data.subrange(m, m + 6);
        assert(s[0] == data[m] && s[1] == data[m + 1] && s[2] == data[m + 2]);
        assert(s[3] == data[m + 3] && s[4] == data[m + 4] && s[5] == data[m + 5]);
        assert(mark[0] == 0x14 && mark[1] == 0 && mark[2] == 6 && mark[3] == 0 && mark[4] == 8
            && mark[5] == 0);
        if marked(data, m) {
            assert(s =~= mark);
        }
    }
}

/// A file is a chunk container exactly when it holds 22 bytes at least, begins
/// neither as an OLE2 file nor as a ZIP archive does, and has a marker that ends
/// within its first 64 bytes.
pub proof fn lemma_containers_are_told_by_their_bytes(data: Seq<u8>)
    ensures
        modern(data) <==> {
            &&& data.len() >= 22
            &&& !(data[0] == 0xD0 && data[1] == 0xCF && data[2] == 0x11 && data[3] == 0xE0)
            &&& !(data[0] == 0x50 && data[1] == 0x4B && data[2] == 0x03 && data[3] == 0x04)
            &&& exists|m: int| m + 6 <= 64 && #[trigger] marked(data, m)
        },
{
    if data.len() >= 22 {
        let head = data.subrange(0, 4);
        assert(head[0] == data[0] && head[1] == data[1] && head[2] == data[2] && head[3]
            == data[3]);
        let (ole, zip) = (OLE2_MAGIC@, ZIP_MAGIC@);
        assert(ole[0] == 0xD0 && ole[1] == 0xCF && ole[2] == 0x11 && ole[3] == 0xE0);
        assert(zip[0] == 0x50 && zip[1] == 0x4B && zip[2] == 0x03 && zip[3] == 0x04);
        if data[0] == 0xD0 && data[1] == 0xCF && data[2] == 0x11 && data[3] == 0xE0 {
            assert(head =~= ole);
        }
        if data[0] == 0x50 && data[1] == 0x4B && data[2] == 0x03 && data[3] == 0x04 {
            assert(head =~= zip);
        }
        let window = if data.len() < 64 {
            data
        } else {
            data.take(64)
        };
        assert forall|m: int| marked(window, m) == (m + 6 <= 64 && marked(data, m)) by {}
        if exists|m: int| m + 6 <= 64 && #[trigger] marked(data, m) {
            let m = choose|m: int| m + 6 <= 64 && #[trigger] marked(data, m);
            assert(marked(window, m));
            lemma_marked(window, m);
            crate::bytes::lemma_a_hit_is_found(window, MARKER@, 0, m);
        } else {
            assert forall|i: int| 0 <= i implies !crate::bytes::has_at(window, i, MARKER@) by {
                lemma_marked(window, i);
                assert(!marked(window, i));
            }
            crate::bytes::lemma_none_is_found(window, MARKER@, 0);
        }
    }
}

} // verus!
