//! What holds of revisions, frames, streams, searches and lists of numbers: which
//! revision is the newest and what its name says, which verdict counts, in which
//! order streams are listed, and what numbers are written and read as.

use vstd::prelude::*;

use crate::bytes::{has_at, lemma_first_is_first, Class};
use crate::container::StreamView;
use crate::diff::{params_of, Param};
use crate::double::{below, nan, rank, INFINITY_BITS};
use crate::frames::{after, refusal, taken, ItemView, Refusal, RequestView, VerdictView};
use crate::graph::{graph_of, of_type};
use crate::grid::{firsts, inside_by, side_of, votes};
use crate::part::{
    ascii_lower, bodies_in_blobs, bodies_in_streams, body_in, carries_geometry, carved,
    is_extension, BodyView, SchemaView,
};
use crate::pdm::{
    core_stream, element, eligible, is_digits, is_hex, key_and_version, newest, older, version_of,
    RevisionView,
};
use crate::scan::{
    by_size, extracts_of, extracts_of_blobs, found_in, found_in_blobs, found_in_streams, hex_digit,
    size_place, version_at,
};
use crate::sections::{
    banner_at, kind_of, kind_of_blob, TransmitKind, BANNER_HEAD, BANNER_TAIL,
};
use crate::step::writer::{compressed, digits_value, exponent_value, mark_at, real_form};
use crate::text::{
    decimal, first_text, last_text, latin1, lemma_decimal_reads_back, lemma_first_text_is_first,
    lemma_last_text_is_last, lemma_spelt_text_stands, number_of, signed_decimal, text_at,
    text_less,
};
use crate::value::{NodeId, NodeView, ValueView};
use crate::weld::nearest_of;
use crate::xt::document;
use crate::xt::lines::{lemma_byte, lemma_pieces, lemma_run, word_char};
use crate::xt::schema::{name_in, KEY_MARK};
use crate::xt::written::{stands, text_bytes};

verus! {

// ---- revisions ----

/// A revision with a date is newer than one without. Of two with dates the one
/// whose date comes first is older, and of two with the same date, or without
/// any, the one with the lower version.
pub proof fn lemma_dates_come_before_versions(a: RevisionView, b: RevisionView)
    ensures
        a.modified is None && b.modified is Some ==> older(a, b) && !older(b, a),
        a.modified is None && b.modified is None ==> older(a, b) == (a.version < b.version),
        a.modified is Some && b.modified is Some && a.modified != b.modified ==> older(a, b)
            == text_less(a.modified->0, b.modified->0),
        a.modified is Some && a.modified == b.modified ==> older(a, b) == (a.version < b.version),
{
    if a.modified is Some && a.modified == b.modified {
        crate::text::lemma_text_order_total(a.modified->0, b.modified->0);
    }
}

/// The newest revision of a part is one of its revisions, and where there is a
/// limit it has a date before that.
pub proof fn lemma_the_newest_is_one_of_them(
    revs: Seq<RevisionView>,
    key: Seq<char>,
    limit: Option<Seq<char>>,
)
    ensures
        newest(revs, key, limit) matches Some(r) ==> {
            &&& revs.contains(r)
            &&& r.key == key
            &&& limit matches Some(t) ==> r.modified is Some && text_less(r.modified->0, t)
        },
        newest(revs, key, limit) is None ==> forall|i: int|
            0 <= i < revs.len() ==> !eligible(#[trigger] revs[i], key, limit),
    decreases revs.len(),
{
    if revs.len() > 0 {
        let few = revs.drop_last();
        lemma_the_newest_is_one_of_them(few, key, limit);
        if newest(revs, key, limit) == Some(revs.last()) {
            assert(revs[revs.len() - 1] == revs.last());
        } else if let Some(r) = newest(few, key, limit) {
            let i = choose|i: int| 0 <= i < few.len() && few[i] == r;
            assert(revs[i] == r);
        }
        if newest(revs, key, limit) is None {
            assert forall|i: int| 0 <= i < revs.len() implies !eligible(
                #[trigger] revs[i],
                key,
                limit,
            ) by {
                if i < few.len() {
                    assert(few[i] == revs[i]);
                }
            }
        }
    }
}

proof fn lemma_same_number(s: Seq<char>)
    requires
        forall|i: int| 0 <= i < s.len() ==> '0' <= #[trigger] s[i] <= '9',
    ensures
        crate::pdm::number_of(s) == number_of(s),
    decreases s.len(),
{
    if s.len() > 0 {
        assert forall|i: int| 0 <= i < s.len() - 1 implies '0' <= #[trigger] s.drop_last()[i]
            <= '9' by {
            assert('0' <= s[i] <= '9');
        }
        lemma_same_number(s.drop_last());
        assert('0' <= s[s.len() - 1] <= '9');
    }
}

/// A file name that the vault made, which is the part's name with an id and a
/// version behind it, is read as that name and that version.
pub proof fn lemma_vault_names_are_split(name: Seq<char>, id: Seq<char>, digits: Seq<char>)
    requires
        is_hex(id),
        is_digits(digits),
        number_of(digits) <= u32::MAX,
    ensures
        key_and_version(name + seq!['_', '_'] + id + seq!['_', 'v'] + digits) == (
            name,
            number_of(digits) as u32,
        ),
{
    let s = name + seq!['_', '_'] + id + seq!['_', 'v'] + digits;
    let n = name.len() as int;
    let m = id.len() as int;
    reveal_strlit("__");
    reveal_strlit("_v");
    assert("__"@ =~= seq!['_', '_']);
    assert("_v"@ =~= seq!['_', 'v']);
    assert forall|i: int| 0 <= i < m implies s[n + 2 + i] == id[i] && id[i] != '_' by {
        assert(crate::pdm::hex_char(id[i]));
    }
    assert forall|i: int| 0 <= i < digits.len() implies s[n + 2 + m + 2 + i] == digits[i]
        && digits[i] != '_' by {
        assert(crate::pdm::digit(digits[i]));
    }
    assert(s[n + 2 + m] == '_' && s[n + 2 + m + 1] == 'v');
    let cut = last_text(s, "__"@, s.len() as int);
    lemma_last_text_is_last(s, "__"@, s.len() as int);
    lemma_spelt_text_stands(s, n, "__"@);
    assert(cut is Some);
    let at = cut->0;
    assert(at == n) by {
        assert(s[at + 0] == "__"@[0] && s[at + 1] == "__"@[1]);
        assert(text_at(s, n, "__"@));
        if at > n {
            if at == n + 1 {
                assert(s[n + 2 + 0] == id[0]);
            } else if at < n + 2 + m {
                assert(s[n + 2 + (at - n - 2)] == id[at - n - 2]);
            } else if at >= n + 2 + m + 2 {
                assert(s[n + 2 + m + 2 + (at - n - 2 - m - 2)] == digits[at - n - 2 - m - 2]);
            }
        }
    }
    let tail = s.skip(n + 2);
    assert forall|i: int| 0 <= i < tail.len() implies tail[i] == s[n + 2 + i] by {}
    lemma_last_text_is_last(tail, "_v"@, tail.len() as int);
    lemma_spelt_text_stands(tail, m, "_v"@);
    let v = last_text(tail, "_v"@, tail.len() as int)->0;
    assert(v == m) by {
        assert(tail[v + 0] == "_v"@[0] && tail[v + 1] == "_v"@[1]);
        assert(text_at(tail, m, "_v"@));
        if v > m && v >= m + 2 {
            assert(s[n + 2 + m + 2 + (v - m - 2)] == digits[v - m - 2]);
        }
    }
    assert(tail.take(m) =~= id);
    assert(tail.skip(m + 2) =~= digits);
    assert(s.take(n) =~= name);
    assert forall|i: int| 0 <= i < digits.len() implies '0' <= #[trigger] digits[i] <= '9' by {
        assert(crate::pdm::digit(digits[i]));
    }
    lemma_same_number(digits);
    assert(version_of(digits) == number_of(digits));
}

/// A name without the marks of the vault stands for itself, without a version.
pub proof fn lemma_other_names_are_left_whole(name: Seq<char>)
    requires
        forall|i: int| !#[trigger] text_at(name, i, "__"@),
    ensures
        key_and_version(name) == (name, 0u32),
{
    lemma_last_text_is_last(name, "__"@, name.len() as int);
}

/// What stands between the first opening tag and the next bracket is read.
pub proof fn lemma_elements_are_read(
    head: Seq<char>,
    tag: Seq<char>,
    value: Seq<char>,
    tail: Seq<char>,
)
    requires
        forall|i: int|
            0 <= i < head.len() ==> !#[trigger] text_at(
                head + (seq!['<'] + tag + seq!['>']) + value + seq!['<'] + tail,
                i,
                seq!['<'] + tag + seq!['>'],
            ),
        forall|i: int| 0 <= i < value.len() ==> #[trigger] value[i] != '<',
    ensures
        element(head + (seq!['<'] + tag + seq!['>']) + value + seq!['<'] + tail, tag) == Some(
            value,
        ),
{
    let mark = seq!['<'] + tag + seq!['>'];
    let text = head + mark + value + seq!['<'] + tail;
    let n = head.len() as int;
    lemma_first_text_is_first(text, mark, 0);
    lemma_spelt_text_stands(text, n, mark);
    assert(text_at(text, n, mark));
    assert(first_text(text, mark, 0) == Some(n));
    let start = n + mark.len();
    let end = start + value.len();
    lemma_first_text_is_first(text, seq!['<'], start);
    assert(text[end] == '<');
    lemma_spelt_text_stands(text, end, seq!['<']);
    assert(text_at(text, end, seq!['<']));
    let j = first_text(text, seq!['<'], start)->0;
    assert(j == end) by {
        assert(text[j + 0] == seq!['<'][0]);
        if j < end {
            assert(text[j] == value[j - start]);
        }
    }
    assert(text.subrange(start, end) =~= value);
}

// ---- frames ----

/// Of the verdicts that were asked for on one frame the last counts; one that
/// nothing was asked on keeps what it had.
pub proof fn lemma_the_last_verdict_counts(
    items: Seq<ItemView>,
    before: Option<VerdictView>,
    reqs: Seq<RequestView>,
    name: Seq<char>,
    k: int,
)
    requires
        -1 <= k < reqs.len(),
        k >= 0 ==> items[reqs[k].i as int].name == name,
        forall|j: int| k < j < reqs.len() ==> items[(#[trigger] reqs[j]).i as int].name != name,
    ensures
        after(items, before, reqs, name) == if k >= 0 {
            Some(reqs[k].verdict)
        } else {
            before
        },
    decreases reqs.len(),
{
    if reqs.len() > 0 && k < reqs.len() - 1 {
        assert(items[reqs[reqs.len() - 1].i as int].name != name);
        assert forall|j: int| k < j < reqs.len() - 1 implies items[(
        #[trigger] reqs.drop_last()[j]).i as int].name != name by {
            assert(items[reqs[j].i as int].name != name);
        }
        lemma_the_last_verdict_counts(items, before, reqs.drop_last(), name, k);
    }
}

/// Requests are taken up to the first that is refused. One is refused where its
/// status is neither of the two that there are, or else where there is no such
/// frame.
pub proof fn lemma_requests_are_taken_up_to_a_refusal(
    frames: nat,
    reqs: Seq<RequestView>,
    from: int,
)
    requires
        0 <= from <= reqs.len(),
    ensures
        ({
            let n = taken(frames, reqs, from);
            &&& from <= n <= reqs.len()
            &&& forall|i: int|
                from <= i < n ==> ((#[trigger] reqs[i]).verdict.status == "ok"@
                    || reqs[i].verdict.status == "bad"@) && reqs[i].i < frames
            &&& n < reqs.len() ==> match refusal(frames, reqs[n]) {
                Some(Refusal::BadRequest) => reqs[n].verdict.status != "ok"@
                    && reqs[n].verdict.status != "bad"@,
                Some(Refusal::NotFound) => reqs[n].i >= frames,
                None => false,
            }
        }),
    decreases reqs.len() - from,
{
    if from < reqs.len() && refusal(frames, reqs[from]) is None {
        lemma_requests_are_taken_up_to_a_refusal(frames, reqs, from + 1);
    }
}

// ---- streams ----

proof fn lemma_size_place(streams: Seq<StreamView>, sorted: Seq<int>, n: nat, from: int)
    requires
        0 <= from <= sorted.len(),
    ensures
        from <= size_place(streams, sorted, n, from) <= sorted.len(),
        forall|i: int|
            from <= i < size_place(streams, sorted, n, from) ==> streams[
                #[trigger] sorted[i]
            ].data.len() >= n,
        size_place(streams, sorted, n, from) < sorted.len() ==> streams[sorted[size_place(
            streams,
            sorted,
            n,
            from,
        )]].data.len() < n,
    decreases sorted.len() - from,
{
    if from < sorted.len() && streams[sorted[from]].data.len() >= n {
        lemma_size_place(streams, sorted, n, from + 1);
    }
}

/// Streams are listed from the largest to the smallest, and of two of the same
/// size the first comes first; each of them is listed once.
pub proof fn lemma_largest_streams_first(streams: Seq<StreamView>, n: int)
    requires
        0 <= n <= streams.len(),
    ensures
        by_size(streams, n).len() == n,
        forall|i: int| 0 <= i < n ==> 0 <= #[trigger] by_size(streams, n)[i] < n,
        forall|i: int, j: int|
            0 <= i < j < n ==> {
                let a = #[trigger] by_size(streams, n)[i];
                let b = #[trigger] by_size(streams, n)[j];
                &&& streams[a].data.len() >= streams[b].data.len()
                &&& streams[a].data.len() == streams[b].data.len() ==> a < b
                &&& a != b
            },
    decreases n,
{
    if n > 0 {
        lemma_largest_streams_first(streams, n - 1);
        let before = by_size(streams, n - 1);
        let size = streams[n - 1].data.len();
        let k = size_place(streams, before, size, 0);
        lemma_size_place(streams, before, size, 0);
        before.insert_ensures(k, n - 1);
        let all = by_size(streams, n);
        assert forall|i: int| 0 <= i < n implies 0 <= #[trigger] all[i] < n by {
            if i < k {
                assert(all[i] == before[i]);
            } else if i > k {
                assert(all[i] == before[i - 1]);
            }
        }
        assert forall|i: int, j: int| 0 <= i < j < n implies {
            let a = #[trigger] all[i];
            let b = #[trigger] all[j];
            &&& streams[a].data.len() >= streams[b].data.len()
            &&& streams[a].data.len() == streams[b].data.len() ==> a < b
            &&& a != b
        } by {
            if j < k {
                assert(all[i] == before[i] && all[j] == before[j]);
            } else if j == k {
                assert(all[i] == before[i]);
            } else if i < k {
                assert(all[i] == before[i] && all[j] == before[j - 1]);
            } else if i == k {
                assert(all[j] == before[j - 1]);
                if j - 1 > k {
                    assert(streams[before[k]].data.len() >= streams[before[j - 1]].data.len());
                }
            } else {
                assert(all[i] == before[i - 1] && all[j] == before[j - 1]);
            }
        }
    }
}

/// The deltas of a session hold no body, and neither does what bears no banner,
/// what cannot be read, or what has no geometry in it. A body that is there has
/// the nodes of its transmit.
pub proof fn lemma_bodies_are_read_from_transmits(
    stream: Seq<char>,
    blob: Seq<u8>,
    base: SchemaView,
)
    ensures
        kind_of_blob(blob) is None || kind_of_blob(blob) == Some(TransmitKind::Deltas) ==> body_in(
            stream,
            blob,
            base,
        ) is None,
        body_in(stream, blob, base) matches Some(b) ==> {
            &&& b.stream == stream
            &&& document(blob, base.name, base.types) is Ok
            &&& b.graph == graph_of(document(blob, base.name, base.types)->Ok_0.nodes)
            &&& carries_geometry(b.graph)
        },
        document(blob, base.name, base.types) is Ok && (kind_of_blob(blob) == Some(
            TransmitKind::Partition,
        ) || kind_of_blob(blob) == Some(TransmitKind::Part)) && carries_geometry(
            graph_of(document(blob, base.name, base.types)->Ok_0.nodes),
        ) ==> body_in(stream, blob, base) is Some,
{
}

/// The bodies of streams come in the order of the streams; a stream of ghosts has
/// none.
pub proof fn lemma_ghosts_have_no_bodies(streams: Seq<StreamView>, s: StreamView, base: SchemaView)
    ensures
        bodies_in_streams(streams.push(s), base) == bodies_in_streams(streams, base) + (
        if "-GhostPartition"@.is_suffix_of(s.name) {
            Seq::empty()
        } else {
            bodies_in_blobs(s.name, carved(s.data), base)
        }),
{
    assert(streams.push(s).drop_last() =~= streams);
    let tail = "-GhostPartition"@;
    if tail.len() <= s.name.len() {
        let end = s.name.skip(s.name.len() - tail.len());
        if tail.is_suffix_of(s.name) {
            assert(end =~= tail);
        }
    }
    let before = bodies_in_streams(streams, base);
    assert(before + Seq::<BodyView>::empty() =~= before);
}

/// A banner is read as the word in its brackets, and one without brackets as the
/// empty word.
pub proof fn lemma_banners_are_read(w: Seq<u8>, at: int, word: Seq<char>, digit: char)
    requires
        '0' <= digit <= '9',
        forall|i: int| 0 <= i < word.len() ==> word_char(#[trigger] word[i]),
    ensures
        word.len() > 0 && stands(
            w,
            at,
            text_bytes("TRANSMIT FILE "@) + (seq![40u8] + (text_bytes(word) + (seq![41u8, 32u8] + (
            text_bytes("created by modeller version "@) + seq![digit as u8])))),
        ) ==> banner_at(w, at) == Some(word),
        stands(
            w,
            at,
            text_bytes("TRANSMIT FILE "@) + (text_bytes("created by modeller version "@) + seq![
                digit as u8,
            ]),
        ) ==> banner_at(w, at) == Some(Seq::<char>::empty()),
        kind_of("partition"@) == TransmitKind::Partition,
        kind_of("deltas"@) == TransmitKind::Deltas,
        kind_of(Seq::empty()) == TransmitKind::Part,
{
    reveal_strlit("TRANSMIT FILE ");
    reveal_strlit("created by modeller version ");
    reveal_strlit("partition");
    reveal_strlit("deltas");
    assert("partition"@.len() == 9 && "deltas"@.len() == 6);
    let head = text_bytes("TRANSMIT FILE "@);
    let tail = text_bytes("created by modeller version "@);
    assert(BANNER_HEAD@ =~= head);
    assert(BANNER_TAIL@ =~= tail);
    let last = seq![digit as u8];
    let brackets = seq![41u8, 32u8];
    let whole = head + (seq![40u8] + (text_bytes(word) + (brackets + (tail + last))));
    if word.len() > 0 && stands(w, at, whole) {
        let b = text_bytes(word);
        lemma_pieces(w, at, head, seq![40u8] + (b + (brackets + (tail + last))));
        lemma_pieces(w, at + 14, seq![40u8], b + (brackets + (tail + last)));
        lemma_pieces(w, at + 15, b, brackets + (tail + last));
        let end = at + 15 + b.len();
        lemma_pieces(w, end, brackets, tail + last);
        lemma_pieces(w, end + 2, tail, last);
        lemma_byte(w, at + 14, seq![40u8], 0);
        lemma_byte(w, end, brackets, 0);
        lemma_byte(w, end + 30, last, 0);
        assert forall|i: int| at + 15 <= i < end implies Class::Word.has(#[trigger] w[i]) by {
            lemma_byte(w, at + 15, b, i - at - 15);
            assert(word_char(word[i - at - 15]));
        }
        lemma_run(w, Class::Word, at + 15, end);
        assert(latin1(w.subrange(at + 15, end)) =~= word) by {
            assert forall|i: int| 0 <= i < word.len() implies w.subrange(at + 15, end)[i] as char
                == word[i] by {
                lemma_byte(w, at + 15, b, i);
                assert(word_char(word[i]));
            }
        }
    }
    if stands(w, at, head + (tail + last)) {
        lemma_pieces(w, at, head, tail + last);
        lemma_pieces(w, at + 14, tail, last);
        lemma_byte(w, at + 42, last, 0);
        lemma_byte(w, at + 14, tail, 0);
    }
}

/// The nodes of a type are those of its name, in the order of the file.
pub proof fn lemma_nodes_of_a_type_in_order(
    nodes: Map<NodeId, NodeView>,
    order: Seq<NodeId>,
    name: Seq<char>,
)
    ensures
        of_type(nodes, order, name) == order.filter(
            |id: NodeId| nodes.contains_key(id) && nodes[id].name == name,
        ).map_values(|id: NodeId| nodes[id]),
    decreases order.len(),
{
    reveal(Seq::filter);
    let pick = |id: NodeId| nodes.contains_key(id) && nodes[id].name == name;
    if order.len() > 0 {
        lemma_nodes_of_a_type_in_order(nodes, order.drop_last(), name);
        let before = order.drop_last().filter(pick);
        let all = order.filter(pick);
        if pick(order.last()) {
            assert(all == before.push(order.last()));
            assert(all.map_values(|id: NodeId| nodes[id]) =~= before.map_values(
                |id: NodeId| nodes[id],
            ).push(nodes[order.last()]));
        } else {
            assert(all == before);
        }
    } else {
        assert(order.filter(pick).map_values(|id: NodeId| nodes[id]) =~= Seq::empty());
    }
}

/// The stream that tells the version is the first whose name begins so.
pub proof fn lemma_the_first_version_stream_counts(streams: Seq<StreamView>, from: int)
    requires
        0 <= from,
    ensures
        match version_at(streams, from) {
            Some(k) => {
                &&& from <= k < streams.len()
                &&& "_MO_VERSION_"@.is_prefix_of(streams[k].name)
                &&& forall|i: int|
                    from <= i < k ==> !"_MO_VERSION_"@.is_prefix_of((#[trigger] streams[i]).name)
            },
            None => forall|i: int|
                from <= i < streams.len() ==> !"_MO_VERSION_"@.is_prefix_of(
                    (#[trigger] streams[i]).name,
                ),
        },
    decreases streams.len() - from,
{
    if from < streams.len() {
        let head = "_MO_VERSION_"@;
        let name = streams[from].name;
        if head.len() <= name.len() {
            if head.is_prefix_of(name) {
                assert(name.take(head.len() as int) =~= head);
            }
        }
        lemma_the_first_version_stream_counts(streams, from + 1);
    }
}

/// The properties of a file are those of the first stream whose name ends so.
pub proof fn lemma_the_first_property_stream_counts(streams: Seq<StreamView>, from: int)
    requires
        0 <= from,
    ensures
        match core_stream(streams, from) {
            Some(k) => {
                &&& from <= k < streams.len()
                &&& "docProps/core.xml"@.is_suffix_of(streams[k].name)
                &&& forall|i: int|
                    from <= i < k ==> !"docProps/core.xml"@.is_suffix_of(
                        (#[trigger] streams[i]).name,
                    )
            },
            None => forall|i: int|
                from <= i < streams.len() ==> !"docProps/core.xml"@.is_suffix_of(
                    (#[trigger] streams[i]).name,
                ),
        },
    decreases streams.len() - from,
{
    if from < streams.len() {
        let tail = "docProps/core.xml"@;
        let name = streams[from].name;
        if tail.len() <= name.len() {
            let end = name.skip(name.len() - tail.len());
            if tail.is_suffix_of(name) {
                assert(end =~= tail);
            }
        }
        lemma_the_first_property_stream_counts(streams, from + 1);
    }
}

/// A hexadecimal digit is the one of its value, in lower case.
pub proof fn lemma_hex_digits_have_their_value(d: int)
    requires
        0 <= d < 16,
    ensures
        d < 10 ==> hex_digit(d) as int == '0' as int + d,
        d >= 10 ==> hex_digit(d) as int == 'a' as int + (d - 10),
{
}

/// An extension is told whether it is written in capitals or not.
pub proof fn lemma_extensions_are_told_in_any_case(ext: Seq<char>, lower: Seq<char>)
    requires
        ext.len() == lower.len(),
        forall|i: int| 0 <= i < lower.len() ==> !('A' <= #[trigger] lower[i] <= 'Z'),
        forall|i: int|
            0 <= i < ext.len() ==> ext[i] == #[trigger] lower[i] || ('a' <= lower[i] <= 'z'
                && ext[i] as int + 32 == lower[i] as int),
    ensures
        is_extension(ext, lower),
{
    let low = ext.map_values(|c: char| ascii_lower(c));
    assert forall|i: int| 0 <= i < low.len() implies low[i] == lower[i] by {
        assert(ext[i] == lower[i] || ('a' <= lower[i] <= 'z' && ext[i] as int + 32
            == lower[i] as int));
        assert(!('A' <= lower[i] <= 'Z'));
    }
    assert(low =~= lower);
}

/// Every transmit of a stream is extracted as it is, in their order, under a name
/// of the file, the stream and its kind; what is no transmit is left out.
pub proof fn lemma_transmits_are_extracted(
    stem: Seq<char>,
    stream: Seq<char>,
    blobs: Seq<Seq<u8>>,
    blob: Seq<u8>,
)
    ensures
        ({
            let before = extracts_of_blobs(stem, stream, blobs);
            let all = extracts_of_blobs(stem, stream, blobs.push(blob));
            match kind_of_blob(blob) {
                None => all == before,
                Some(kind) => {
                    &&& all.len() == before.len() + 1
                    &&& all.drop_last() == before
                    &&& all.last().data == blob
                    &&& all.last().kind == kind
                },
            }
        }),
{
    assert(blobs.push(blob).drop_last() =~= blobs);
    let before = extracts_of_blobs(stem, stream, blobs);
    let all = extracts_of_blobs(stem, stream, blobs.push(blob));
    if kind_of_blob(blob) is Some {
        assert(all.drop_last() =~= before);
    }
}

/// What is found in a transmit is its size, its nodes and its faces; of one that
/// cannot be read only the size.
pub proof fn lemma_transmits_are_counted(stream: Seq<char>, blob: Seq<u8>, base: SchemaView)
    ensures
        match found_in(stream, blob, base) {
            None => kind_of_blob(blob) is None,
            Some(f) => {
                &&& f.stream == stream
                &&& Some(f.kind) == kind_of_blob(blob)
                &&& f.bytes == blob.len()
                &&& match document(blob, base.name, base.types) {
                    Ok(doc) => {
                        let g = graph_of(doc.nodes);
                        &&& f.nodes == doc.nodes.len()
                        &&& f.faces == of_type(g.nodes, g.order, "FACE"@).len()
                    },
                    Err(_) => f.nodes == 0 && f.faces == 0,
                }
            },
        },
{
}

/// What is found in the streams of a file is listed stream by stream and, within
/// one, transmit by transmit, and so are the extracts.
pub proof fn lemma_streams_are_searched_in_order(
    stem: Seq<char>,
    streams: Seq<StreamView>,
    stream: StreamView,
    base: SchemaView,
    blobs: Seq<Seq<u8>>,
    blob: Seq<u8>,
)
    ensures
        found_in_streams(streams.push(stream), base) == found_in_streams(streams, base)
            + found_in_blobs(stream.name, carved(stream.data), base),
        extracts_of(stem, streams.push(stream)) == extracts_of(stem, streams) + extracts_of_blobs(
            stem,
            stream.name,
            carved(stream.data),
        ),
        kind_of_blob(blob) is None ==> found_in_blobs(stream.name, blobs.push(blob), base)
            == found_in_blobs(stream.name, blobs, base),
        kind_of_blob(blob) is Some ==> {
            let all = found_in_blobs(stream.name, blobs.push(blob), base);
            &&& all.len() > 0
            &&& all.drop_last() == found_in_blobs(stream.name, blobs, base)
            &&& Some(all.last().kind) == kind_of_blob(blob)
            &&& all.last().bytes == blob.len()
        },
{
    assert(streams.push(stream).drop_last() =~= streams);
    assert(blobs.push(blob).drop_last() =~= blobs);
    let all = found_in_blobs(stream.name, blobs.push(blob), base);
    if kind_of_blob(blob) is Some {
        assert(all.drop_last() =~= found_in_blobs(stream.name, blobs, base));
    }
}

/// A schema is named by the word behind the first mark in its head.
pub proof fn lemma_schemas_are_named_by_their_key(s: Seq<u8>, at: int, end: int)
    requires
        0 <= at,
        at + 8 <= end < s.len(),
        end < 1024,
        stands(s, at, text_bytes("KEY=SCH_"@)),
        forall|i: int| 0 <= i < at ==> !#[trigger] stands(s, i, text_bytes("KEY=SCH_"@)),
        forall|i: int| at + 8 <= i < end ==> Class::Word.has(#[trigger] s[i]),
        !Class::Word.has(s[end]),
    ensures
        name_in(s) == latin1(s.subrange(at + 8, end)),
{
    reveal_strlit("KEY=SCH_");
    let head = if s.len() < 1024 {
        s
    } else {
        s.take(1024)
    };
    let mark = text_bytes("KEY=SCH_"@);
    assert(mark =~= KEY_MARK@);
    assert(head.subrange(at, at + 8) =~= s.subrange(at, at + 8));
    assert forall|i: int| 0 <= i < at implies !has_at(head, i, KEY_MARK@) by {
        assert(head.subrange(i, i + 8) =~= s.subrange(i, i + 8));
        assert(!stands(s, i, mark));
    }
    lemma_first_is_first(head, KEY_MARK@, 0, at);
    assert forall|i: int| at + 8 <= i < end implies Class::Word.has(#[trigger] head[i]) by {
        assert(Class::Word.has(s[i]));
    }
    lemma_run(head, Class::Word, at + 8, end);
    assert(head.subrange(at + 8, end) =~= s.subrange(at + 8, end));
}

// ---- searches ----

/// Of all distances the least decides, and of equal ones the first. Where none is
/// finite the fallback stands.
pub proof fn lemma_the_nearest_is_taken(
    dists: Seq<(NodeId, Option<u64>)>,
    fallback: NodeId,
) -> (k: Option<int>)
    ensures
        ({
            let (least, id) = nearest_of(dists, fallback);
            &&& forall|j: int|
                0 <= j < dists.len() ==> ((#[trigger] dists[j]).1 matches Some(d) ==> !nan(d)
                    ==> rank(least) <= rank(d))
            &&& match k {
                None => id == fallback && least == INFINITY_BITS,
                Some(i) => {
                    &&& 0 <= i < dists.len()
                    &&& dists[i] == (id, Some(least))
                    &&& !nan(least)
                    &&& rank(least) < rank(INFINITY_BITS)
                    &&& forall|j: int|
                        0 <= j < i ==> ((#[trigger] dists[j]).1 matches Some(d) ==> !nan(d)
                            ==> rank(least) < rank(d))
                },
            }
        }),
    decreases dists.len(),
{
    if dists.len() == 0 {
        None
    } else {
        let before = dists.drop_last();
        let k = lemma_the_nearest_is_taken(before, fallback);
        let best = nearest_of(before, fallback);
        assert(!nan(INFINITY_BITS));
        assert(!nan(best.0));
        assert forall|j: int| 0 <= j < dists.len() - 1 implies ((#[trigger] dists[j]).1 matches Some(
            e,
        ) ==> !nan(e) ==> rank(best.0) <= rank(e)) by {
            assert(before[j] == dists[j]);
        }
        if k is Some {
            assert(before[k->0] == dists[k->0]);
            assert forall|j: int| 0 <= j < k->0 implies ((#[trigger] dists[j]).1 matches Some(e)
                ==> !nan(e) ==> rank(best.0) < rank(e)) by {
                assert(before[j] == dists[j]);
            }
        }
        match dists.last().1 {
            Some(d) => if below(d, best.0) {
                Some(dists.len() - 1)
            } else {
                k
            },
            None => k,
        }
    }
}

/// What is met several times is visited once, and nothing else is.
pub proof fn lemma_each_is_visited_once(s: Seq<u32>)
    ensures
        firsts(s).no_duplicates(),
        forall|x: u32| #[trigger] firsts(s).contains(x) <==> s.contains(x),
    decreases s.len(),
{
    if s.len() > 0 {
        let few = s.drop_last();
        lemma_each_is_visited_once(few);
        let before = firsts(few);
        assert forall|x: u32| #[trigger] firsts(s).contains(x) <==> s.contains(x) by {
            if s.contains(x) {
                let i = choose|i: int| 0 <= i < s.len() && s[i] == x;
                if i < few.len() {
                    assert(few[i] == x);
                    assert(before.contains(x));
                    let k = choose|k: int| 0 <= k < before.len() && before[k] == x;
                    assert(firsts(s)[k] == x);
                } else if !before.contains(s.last()) {
                    assert(firsts(s)[before.len() as int] == x);
                }
            }
            if firsts(s).contains(x) {
                let k = choose|k: int| 0 <= k < firsts(s).len() && firsts(s)[k] == x;
                if k < before.len() {
                    assert(before[k] == x);
                    assert(before.contains(x));
                    assert(few.contains(x));
                    let i = choose|i: int| 0 <= i < few.len() && few[i] == x;
                    assert(s[i] == x);
                } else {
                    assert(s[s.len() - 1] == x);
                }
            }
        }
    }
}

/// Crossing the boundary an even number of times from a point that is inside leads
/// inside, an odd number outside; from a point that is outside the other way.
pub proof fn lemma_sides_go_by_crossings(hits: u32)
    ensures
        side_of(true, hits) == (hits % 2 == 0),
        side_of(false, hits) == (hits % 2 == 1),
{
}

/// A point is inside where more than half of the rays say so. Where all agree,
/// their word stands; where there is no boundary, all is inside.
pub proof fn lemma_rays_vote(anchor: bool, hits: Seq<u32>, inside: bool)
    requires
        hits.len() > 0,
        forall|i: int| 0 <= i < hits.len() ==> (anchor == (#[trigger] hits[i] % 2 == 0)) == inside,
    ensures
        inside_by(false, false, anchor, hits) == inside,
        inside_by(false, true, anchor, hits) == inside,
        inside_by(true, false, anchor, hits),
{
    lemma_votes(anchor, hits, inside);
    assert((anchor == (hits[0] % 2 == 0)) == inside);
}

proof fn lemma_votes(anchor: bool, hits: Seq<u32>, inside: bool)
    requires
        forall|i: int| 0 <= i < hits.len() ==> (anchor == (#[trigger] hits[i] % 2 == 0)) == inside,
    ensures
        votes(anchor, hits) == if inside {
            hits.len()
        } else {
            0
        },
    decreases hits.len(),
{
    if hits.len() > 0 {
        let few = hits.drop_last();
        assert forall|i: int| 0 <= i < few.len() implies (anchor == (#[trigger] few[i] % 2 == 0))
            == inside by {
            assert((anchor == (hits[i] % 2 == 0)) == inside);
        }
        lemma_votes(anchor, few, inside);
        assert((anchor == (hits[hits.len() - 1] % 2 == 0)) == inside);
    }
}

/// As many rays say inside as say so among the first ones and among the others.
pub proof fn lemma_votes_add_up(anchor: bool, a: Seq<u32>, b: Seq<u32>)
    ensures
        votes(anchor, a + b) == votes(anchor, a) + votes(anchor, b),
        votes(anchor, a) <= a.len(),
    decreases a.len() + b.len(),
{
    if b.len() > 0 {
        lemma_votes_add_up(anchor, a, b.drop_last());
        assert((a + b).drop_last() =~= a + b.drop_last());
    } else {
        assert(a + b =~= a);
        if a.len() > 0 {
            lemma_votes_add_up(anchor, a.drop_last(), Seq::empty());
        }
    }
}

// ---- numbers ----

proof fn lemma_digits(s: Seq<char>)
    requires
        s.len() > 0,
        forall|i: int| 0 <= i < s.len() ==> '0' <= #[trigger] s[i] <= '9',
    ensures
        digits_value(s) is Some,
        digits_value(s)->0 == number_of(s),
    decreases s.len(),
{
    assert('0' <= s[s.len() - 1] <= '9');
    if s.len() > 1 {
        assert forall|i: int| 0 <= i < s.len() - 1 implies '0' <= #[trigger] s.drop_last()[i]
            <= '9' by {
            assert('0' <= s[i] <= '9');
        }
        lemma_digits(s.drop_last());
    } else {
        reveal_with_fuel(Seq::fold_left, 2);
        assert(s.drop_last() =~= Seq::empty());
    }
}

/// An exponent is the number that it is written as.
pub proof fn lemma_exponents_are_read(x: int)
    ensures
        exponent_value(signed_decimal(x)) == Some(x),
{
    let s = signed_decimal(x);
    if x < 0 {
        lemma_decimal_reads_back((-x) as nat);
        assert(s.skip(1) =~= decimal((-x) as nat));
        lemma_digits(decimal((-x) as nat));
    } else {
        lemma_decimal_reads_back(x as nat);
        lemma_digits(decimal(x as nat));
        assert('0' <= s[0] <= '9');
    }
}

proof fn lemma_mark(m: Seq<char>, e: Seq<char>, n: int)
    requires
        0 <= n <= m.len(),
        forall|i: int| 0 <= i < m.len() ==> #[trigger] m[i] != 'E',
    ensures
        mark_at(m + seq!['E'] + e, n) == Some(m.len() as int),
    decreases m.len() - n,
{
    if n < m.len() {
        assert((m + seq!['E'] + e)[n] == m[n]);
        lemma_mark(m, e, n + 1);
    } else {
        assert((m + seq!['E'] + e)[n] == 'E');
    }
}

/// A number is written out where its exponent lies between -4 and 6, and with its
/// exponent otherwise, with a point in what stands before it. One that is not
/// finite is written as zero.
pub proof fn lemma_reals_are_written_by_their_exponent(m: Seq<char>, x: int, plain: Seq<char>)
    requires
        forall|i: int| 0 <= i < m.len() ==> #[trigger] m[i] != 'E',
    ensures
        ({
            let s = m + seq!['E'] + signed_decimal(x);
            &&& real_form(false, s, plain) == seq!['0', '.', '0']
            &&& -4 <= x <= 6 ==> real_form(true, s, plain) == plain
            &&& !(-4 <= x <= 6) && m.contains('.') ==> real_form(true, s, plain) == s
            &&& !(-4 <= x <= 6) && !m.contains('.') ==> real_form(true, s, plain) == m + seq![
                '.',
                '0',
            ] + seq!['E'] + signed_decimal(x)
        }),
{
    let e = signed_decimal(x);
    let s = m + seq!['E'] + e;
    reveal_strlit("0.0");
    reveal_strlit(".0");
    assert("0.0"@ =~= seq!['0', '.', '0']);
    assert(".0"@ =~= seq!['.', '0']);
    lemma_mark(m, e, 0);
    assert(s.take(m.len() as int) =~= m);
    assert(s.skip(m.len() + 1int) =~= e);
    lemma_exponents_are_read(x);
}

/// How often each knot is repeated, as signed numbers.
pub open spec fn repeats(mults: Seq<usize>) -> Seq<i64> {
    mults.map_values(|m: usize| m as i64)
}

proof fn lemma_expand_push(k: Seq<u64>, m: Seq<i64>, j: Seq<u64>, l: Seq<i64>, n: int)
    requires
        0 <= n <= k.len(),
        n <= j.len(),
        n <= m.len(),
        n <= l.len(),
        forall|i: int| 0 <= i < n ==> k[i] == j[i] && m[i] == l[i],
    ensures
        crate::nurbs::expanded(k, m, n) == crate::nurbs::expanded(j, l, n),
    decreases n,
{
    if n > 0 {
        lemma_expand_push(k, m, j, l, n - 1);
        assert(k[n - 1] == j[n - 1]);
    }
}

/// Knots that are compressed where they are equal come out as they were when each
/// is repeated as often as it is told to be.
pub proof fn lemma_compressed_knots_expand_again(knots: Seq<u64>, near: Seq<bool>, n: int)
    requires
        0 <= n <= knots.len(),
        n <= 0x7fffffff,
        forall|i: int| 0 < i < n && #[trigger] near[i] ==> knots[i] == knots[i - 1],
    ensures
        ({
            let (k, m) = compressed(knots, near, n);
            &&& k.len() == m.len()
            &&& crate::nurbs::expanded(k, repeats(m), k.len() as int) == knots.take(n)
            &&& n > 0 ==> k.len() > 0 && k.last() == knots[n - 1]
        }),
    decreases n,
{
    if n == 0 {
        assert(knots.take(0) =~= Seq::empty());
    } else {
        lemma_compressed_knots_expand_again(knots, near, n - 1);
        crate::step::writer::lemma_compression_keeps_count(knots, near, n - 1);
        let (k, m) = compressed(knots, near, n - 1);
        let (k2, m2) = compressed(knots, near, n);
        let c = k2.len() as int;
        lemma_expand_push(k2, repeats(m2), k, repeats(m), c - 1);
        let before = crate::nurbs::expanded(k, repeats(m), k.len() as int);
        let all = crate::nurbs::expanded(k2, repeats(m2), c);
        if k.len() > 0 && near[n - 1] {
            let mults = m.last() as int;
            assert(n - 1 > 0) by {
                if n - 1 == 0 {
                    assert(compressed(knots, near, 0).0.len() == 0);
                }
            }
            assert(knots[n - 1] == knots[n - 2]);
            assert(repeats(m2)[c - 1] == mults + 1);
            assert(repeats(m)[c - 1] == mults);
            assert(all =~= before.push(knots[n - 1]));
        } else {
            assert(all =~= before.push(knots[n - 1]));
        }
        assert(knots.take(n - 1).push(knots[n - 1]) =~= knots.take(n));
    }
}

/// The numbers of a surface's fields come in the order of the fields, the three of
/// a vector in theirs; those of the fields that only say where the node belongs
/// are left out.
pub proof fn lemma_parameters_follow_the_fields(
    fields: Seq<(Seq<char>, ValueView)>,
    name: Seq<char>,
    v: ValueView,
)
    ensures
        name == "node_id"@ || name == "owner"@ || name == "next"@ || name == "previous"@ || name
            == "attributes_features"@ || name == "geometric_owner"@ ==> params_of(
            fields.push((name, v)),
        ) == params_of(fields),
        !(name == "node_id"@ || name == "owner"@ || name == "next"@ || name == "previous"@ || name
            == "attributes_features"@ || name == "geometric_owner"@) ==> match v {
            ValueView::F64(x) => params_of(fields.push((name, v))) == params_of(fields).push(
                Param::Real(x),
            ),
            ValueView::I32(x) => params_of(fields.push((name, v))) == params_of(fields).push(
                Param::Int(x as i64),
            ),
            ValueView::Bool(b) => params_of(fields.push((name, v))) == params_of(fields).push(
                Param::Int(
                    if b {
                        1
                    } else {
                        0
                    },
                ),
            ),
            ValueView::Vec3(a) => a.len() == 3 ==> params_of(fields.push((name, v))) == params_of(
                fields,
            ).push(Param::Real(a[0])).push(Param::Real(a[1])).push(Param::Real(a[2])),
            ValueView::Ptr(_) => params_of(fields.push((name, v))) == params_of(fields),
            _ => true,
        },
{
    let all = fields.push((name, v));
    assert(all.drop_last() =~= fields);
    let before = params_of(fields);
    match v {
        ValueView::F64(x) => {
            assert(before + seq![Param::Real(x)] =~= before.push(Param::Real(x)));
        },
        ValueView::I32(x) => {
            assert(before + seq![Param::Int(x as i64)] =~= before.push(Param::Int(x as i64)));
        },
        ValueView::Bool(b) => {
            let n: i64 = if b {
                1
            } else {
                0
            };
            assert(before + seq![Param::Int(n)] =~= before.push(Param::Int(n)));
        },
        ValueView::Vec3(a) => {
            if a.len() == 3 {
                assert(before + a.map_values(|x: u64| Param::Real(x)) =~= before.push(
                    Param::Real(a[0]),
                ).push(Param::Real(a[1])).push(Param::Real(a[2])));
            }
        },
        _ => {
            assert(before + Seq::<Param>::empty() =~= before);
        },
    }
}

} // verus!
