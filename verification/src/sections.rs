//! Geometry-stream sections and Parasolid transmit sniffing.
//!
//! The section framing (16-byte magic, sizes) is not trusted: we simply scan
//! for zlib headers and try to inflate, which survives every framing variant.

use vstd::prelude::*;

use crate::bytes::{scan_run, starts_with_at, Class};
use crate::inflate::inflate_zlib_prefix;
use crate::text::{latin1_string, same_text};

verus! {

/// Minimum inflated size for a carved block to be kept.
pub const MIN_BLOB: usize = 64;

#[derive(Debug, Clone, Copy, PartialEq, Eq, Structural)]
pub enum TransmitKind {
    Partition,
    Deltas,
    Part,
}

/// The two bytes that begin a zlib stream of a usual compression level.
pub open spec fn zlib_header(a: u8, b: u8) -> bool {
    a == 0x78 && (b == 0x01 || b == 0x9C || b == 0xDA)
}

/// The block that begins at `pos`, with the number of bytes it takes up: one
/// that has a zlib header, inflates, and is long enough.
pub open spec fn block_at(data: Seq<u8>, pos: int) -> Option<(Seq<u8>, nat)> {
    if zlib_header(data[pos], data[pos + 1]) {
        match crate::inflate::zlib_prefix(data.skip(pos)) {
            Some((blob, used)) if blob.len() >= MIN_BLOB => Some((blob, used)),
            _ => None,
        }
    } else {
        None
    }
}

/// The blocks of `data` from `pos` on, each with its offset. After a block the
/// scan goes on behind it, else one byte further.
pub open spec fn blocks_from(data: Seq<u8>, pos: int) -> Seq<(int, Seq<u8>)>
    decreases
            (if pos < data.len() {
                data.len() - pos
            } else {
                0
            }),
{
    if pos + 2 >= data.len() {
        Seq::empty()
    } else {
        match block_at(data, pos) {
            Some((blob, used)) => seq![(pos, blob)] + blocks_from(
                data,
                pos + if used > 0 {
                    used as int
                } else {
                    1
                },
            ),
            None => blocks_from(data, pos + 1),
        }
    }
}

/// Offsets and contents of carved blocks.
pub open spec fn block_views(blocks: Seq<(usize, Vec<u8>)>) -> Seq<(int, Seq<u8>)> {
    blocks.map_values(|b: (usize, Vec<u8>)| (b.0 as int, b.1@))
}

/// Inflate every zlib stream found in `data`, in offset order.
pub fn carve_zlib(data: &[u8]) -> (r: Vec<Vec<u8>>)
    ensures
        r@.map_values(|b: Vec<u8>| b@) == blocks_from(data@, 0).map_values(
            |b: (int, Seq<u8>)| b.1,
        ),
{
    let blocks = carve_zlib_offsets(data);
    let ghost all = blocks@;
    let mut out: Vec<Vec<u8>> = Vec::new();
    for b in it: blocks.into_iter()
        invariant
            it.seq() == all,
            out@.len() == it.index(),
            forall|j: int| 0 <= j < out@.len() ==> (#[trigger] out@[j])@ == all[j].1@,
    {
        out.push(b.1);
    }
    assert(out@.map_values(|b: Vec<u8>| b@) =~= blocks_from(data@, 0).map_values(
        |b: (int, Seq<u8>)| b.1,
    )) by {
        assert(block_views(all).len() == blocks_from(data@, 0).len());
        assert forall|j: int| 0 <= j < out@.len() implies (#[trigger] out@[j])@ == blocks_from(
            data@,
            0,
        )[j].1 by {
            assert(block_views(all)[j].1 == all[j].1@);
        }
    }
    out
}

/// Like [`carve_zlib`], but also reports each block's byte offset in `data`.
pub fn carve_zlib_offsets(data: &[u8]) -> (r: Vec<(usize, Vec<u8>)>)
    ensures
        block_views(r@) == blocks_from(data@, 0),
{
    let mut out: Vec<(usize, Vec<u8>)> = Vec::new();
    if data.len() < 2 {
        assert(block_views(out@) =~= Seq::<(int, Seq<u8>)>::empty());
        return out;
    }
    let mut pos: usize = 0;
    assert(block_views(out@) + blocks_from(data@, 0) =~= blocks_from(data@, 0));
    while pos < data.len() - 2
        invariant
            2 <= data@.len(),
            pos <= data@.len(),
            block_views(out@) + blocks_from(data@, pos as int) == blocks_from(data@, 0),
        decreases data@.len() - pos,
    {
        if data[pos] == 0x78 && (data[pos + 1] == 0x01 || data[pos + 1] == 0x9C || data[pos + 1]
            == 0xDA) {
            let rest = vstd::slice::slice_subrange(data, pos, data.len());
            assert(rest@ =~= data@.skip(pos as int));
            if let Some((blob, used)) = inflate_zlib_prefix(rest) {
                if blob.len() >= MIN_BLOB {
                    let ghost before = out@;
                    let ghost b = (pos as int, blob@);
                    let step: usize = if used > 0 {
                        used
                    } else {
                        1
                    };
                    out.push((pos, blob));
                    proof {
                        let rest_blocks = blocks_from(data@, pos + step);
                        assert(block_views(out@) =~= block_views(before).push(b));
                        assert(blocks_from(data@, pos as int) =~= seq![b] + rest_blocks);
                        assert(block_views(before) + (seq![b] + rest_blocks) =~= block_views(out@)
                            + rest_blocks);
                    }
                    pos += step;
                    continue;
                }
            }
        }
        pos += 1;
    }
    assert(block_views(out@) + Seq::<(int, Seq<u8>)>::empty() =~= block_views(out@));
    out
}

/// `b` is the block that begins at its offset, at or after `pos`, and is at
/// least `MIN_BLOB` bytes long.
pub open spec fn sound_block(data: Seq<u8>, pos: int, b: (int, Seq<u8>)) -> bool {
    &&& pos <= b.0 < data.len()
    &&& b.1.len() >= MIN_BLOB
    &&& block_at(data, b.0) is Some
    &&& (block_at(data, b.0)->0).0 == b.1
}

/// Where the bytes that the block takes up end.
pub open spec fn block_end(data: Seq<u8>, b: (int, Seq<u8>)) -> int {
    b.0 + (block_at(data, b.0)->0).1
}

/// Carved blocks come in offset order, never overlap, and are each at least
/// `MIN_BLOB` bytes long.
pub proof fn lemma_blocks_in_order(data: Seq<u8>, pos: int)
    requires
        0 <= pos,
    ensures
        forall|i: int|
            0 <= i < blocks_from(data, pos).len() ==> sound_block(
                data,
                pos,
                #[trigger] blocks_from(data, pos)[i],
            ),
        forall|i: int, j: int|
            0 <= i < j < blocks_from(data, pos).len() ==> block_end(
                data,
                #[trigger] blocks_from(data, pos)[i],
            ) <= (#[trigger] blocks_from(data, pos)[j]).0,
        forall|i: int, j: int|
            0 <= i < j < blocks_from(data, pos).len() ==> (#[trigger] blocks_from(data, pos)[i]).0
                < (#[trigger] blocks_from(data, pos)[j]).0,
    decreases
            (if pos < data.len() {
                data.len() - pos
            } else {
                0
            }),
{
    if pos + 2 < data.len() {
        let all = blocks_from(data, pos);
        match block_at(data, pos) {
            Some((blob, used)) => {
                let next = pos + if used > 0 {
                    used as int
                } else {
                    1
                };
                let rest = blocks_from(data, next);
                lemma_blocks_in_order(data, next);
                assert(all =~= seq![(pos, blob)] + rest);
                assert forall|i: int| 0 <= i < all.len() implies sound_block(
                    data,
                    pos,
                    #[trigger] all[i],
                ) by {
                    if i > 0 {
                        assert(all[i] == rest[i - 1]);
                    }
                }
                assert forall|i: int, j: int| 0 <= i < j < all.len() implies block_end(
                    data,
                    #[trigger] all[i],
                ) <= (#[trigger] all[j]).0 && all[i].0 < all[j].0 by {
                    assert(all[j] == rest[j - 1]);
                    if i > 0 {
                        assert(all[i] == rest[i - 1]);
                    }
                }
            },
            None => {
                lemma_blocks_in_order(data, pos + 1);
                assert(all == blocks_from(data, pos + 1));
                assert forall|i: int| 0 <= i < all.len() implies sound_block(
                    data,
                    pos,
                    #[trigger] all[i],
                ) by {
                    assert(sound_block(data, pos + 1, blocks_from(data, pos + 1)[i]));
                }
            },
        }
    }
}

pub const BANNER_HEAD: [u8; 14] = [
    84, 82, 65, 78, 83, 77, 73, 84, 32, 70, 73, 76, 69, 32,
];

pub const BANNER_TAIL: [u8; 28] = [
    99, 114, 101, 97, 116, 101, 100, 32, 98, 121, 32, 109, 111, 100, 101, 108, 108, 101, 114, 32,
    118, 101, 114, 115, 105, 111, 110, 32,
];

/// `created by modeller version `, then a digit, stand at `at`.
pub open spec fn banner_tail_at(w: Seq<u8>, at: int) -> bool {
    &&& crate::bytes::has_at(w, at, BANNER_TAIL@)
    &&& at + 28 < w.len()
    &&& crate::bytes::digit_byte(w[at + 28])
}

/// Where the word in brackets that may follow the banner's head ends.
pub open spec fn banner_word_end(w: Seq<u8>, start: int) -> int {
    crate::bytes::run_end(w, crate::bytes::Class::Word, start + 15)
}

/// `(word) ` stands behind a banner head that begins at `start`.
pub open spec fn banner_word_at(w: Seq<u8>, start: int) -> bool {
    let end = banner_word_end(w, start);
    &&& start + 14 < w.len()
    &&& w[start + 14] == 40
    &&& end > start + 15
    &&& crate::bytes::has_at(w, end, seq![41u8, 32u8])
}

/// The kind word of a banner that begins at `start`: the pattern
/// `TRANSMIT FILE (?:\((\w+)\) )?created by modeller version \d`, the word
/// being empty where there are no brackets.
pub open spec fn banner_at(w: Seq<u8>, start: int) -> Option<Seq<char>> {
    let end = banner_word_end(w, start);
    if !crate::bytes::has_at(w, start, BANNER_HEAD@) {
        None
    } else if banner_word_at(w, start) && banner_tail_at(w, end + 2) {
        Some(crate::text::latin1(w.subrange(start + 15, end)))
    } else if banner_tail_at(w, start + 14) {
        Some(Seq::empty())
    } else {
        None
    }
}

/// True when the banner's tail and a digit stand at `at`.
fn tail_at(w: &[u8], at: usize) -> (r: bool)
    ensures
        r == banner_tail_at(w@, at as int),
{
    if !starts_with_at(w, at, BANNER_TAIL.as_slice()) {
        return false;
    }
    assert(at + 28 <= w.len());
    let digits: usize = at + 28;
    digits < w.len() && 48 <= w[digits] && w[digits] <= 57
}

/// Match the transmit banner at `start`, giving the kind word (empty for the
/// no-parenthesis "part" form).
pub fn match_banner(window: &[u8], start: usize) -> (r: Option<String>)
    ensures
        match r {
            Some(kind) => banner_at(window@, start as int) == Some(kind@),
            None => banner_at(window@, start as int) is None,
        },
{
    if !starts_with_at(window, start, BANNER_HEAD.as_slice()) {
        return None;
    }
    assert(start + 14 <= window.len());
    let after_head: usize = start + 14;
    // The bracketed word is tried first.
    if after_head < window.len() && window[after_head] == 40 {
        let i: usize = scan_run(window, Class::Word, after_head + 1);
        let close: [u8; 2] = [41, 32];
        assert(close@ =~= seq![41u8, 32u8]);
        if i > after_head + 1 && starts_with_at(window, i, close.as_slice()) && tail_at(
            window,
            i + 2,
        ) {
            return Some(latin1_string(vstd::slice::slice_subrange(window, after_head + 1, i)));
        }
    }
    if tail_at(window, after_head) {
        return Some(String::new());
    }
    None
}

/// The transmit kind that a banner's word names.
pub open spec fn kind_of(word: Seq<char>) -> TransmitKind {
    if word == "partition"@ {
        TransmitKind::Partition
    } else if word == "deltas"@ {
        TransmitKind::Deltas
    } else {
        TransmitKind::Part
    }
}

/// The word of the first banner at or after `from`.
pub open spec fn first_banner(w: Seq<u8>, from: int) -> Option<Seq<char>>
    decreases w.len() - from,
{
    if from >= w.len() {
        None
    } else if banner_at(w, from) is Some {
        banner_at(w, from)
    } else {
        first_banner(w, from + 1)
    }
}

/// The kind of transmit that a blob holds: `PS` first, and a banner beginning
/// and ending in the first 256 bytes.
pub open spec fn kind_of_blob(blob: Seq<u8>) -> Option<TransmitKind> {
    let window = if blob.len() < 256 {
        blob
    } else {
        blob.take(256)
    };
    if !crate::bytes::has_at(blob, 0, seq![80u8, 83u8]) {
        None
    } else {
        match first_banner(window, 0) {
            Some(word) => Some(kind_of(word)),
            None => None,
        }
    }
}

/// Classify a blob by its Parasolid transmit banner, if it has one.
pub fn transmit_kind(blob: &[u8]) -> (r: Option<TransmitKind>)
    ensures
        r == kind_of_blob(blob@),
{
    let ps: [u8; 2] = [80, 83];
    assert(ps@ =~= seq![80u8, 83u8]);
    if !starts_with_at(blob, 0, ps.as_slice()) {
        return None;
    }
    let n: usize = if blob.len() < 256 {
        blob.len()
    } else {
        256
    };
    let window = vstd::slice::slice_subrange(blob, 0, n);
    assert(blob@.len() < 256 ==> window@ =~= blob@);
    assert(blob@.len() >= 256 ==> window@ =~= blob@.take(256));
    let mut start: usize = 0;
    while start < window.len()
        invariant
            start <= window@.len(),
            first_banner(window@, 0) == first_banner(window@, start as int),
            crate::bytes::has_at(blob@, 0, seq![80u8, 83u8]),
            blob@.len() < 256 ==> window@ == blob@,
            blob@.len() >= 256 ==> window@ == blob@.take(256),
        decreases window@.len() - start,
    {
        if let Some(kind) = match_banner(window, start) {
            return Some(
                if same_text(kind.as_str(), "partition") {
                    TransmitKind::Partition
                } else if same_text(kind.as_str(), "deltas") {
                    TransmitKind::Deltas
                } else {
                    TransmitKind::Part
                },
            );
        }
        start += 1;
    }
    None
}

} // verus!
