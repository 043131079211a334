//! The ASCII banner of a standalone `.x_b` file changes nothing of what is
//! read behind it.
//!
//! Whatever is read at an offset is read alike at the same place behind a
//! banner, the offsets moved up by its length. A fault tells of its offset, so
//! it may be put into other words.

use vstd::prelude::*;

use super::reader::{
    read_bool, read_box, read_chars, read_f64, read_i16, read_i16_raw, read_i32, read_pointer,
    read_reals, read_str_i32, read_str_u8, read_u8, read_utf16, taken,
};
use super::schema::{
    read_embedded, read_field, read_items, read_scalar, FieldDefView, FieldType, TypeDefView,
};
use super::{
    binary_start, document, edited_fields, header_fields, inserted, lemma_embedded_end,
    lemma_embeddeds_end, lemma_items_end, lemma_layout_end, lemma_node_fields_end, lemma_reals_end,
    lemma_record_advances, nodes_from, read_embeddeds, read_first_use, read_layout,
    read_node_fields, read_payload, read_record, read_type, Progress, Record, HEADER_MARK, MAGIC,
    STARS,
};
use crate::bytes::{first_at, has_at, run_end, Class};
use crate::value::NodeView;
use crate::xt::fault::Fault;

verus! {

/// Two readings that both fail, or that both give the same, `k` bytes apart.
pub open spec fn alike<T>(a: (Result<T, Fault>, int), b: (Result<T, Fault>, int), k: int) -> bool {
    match (a.0, b.0) {
        (Ok(x), Ok(y)) => x == y && b.1 == a.1 + k,
        (Err(_), Err(_)) => true,
        _ => false,
    }
}

/// A place in the bytes, where there are no more of them, with those in front,
/// than can be addressed.
pub open spec fn placed(h: Seq<u8>, d: Seq<u8>, p: int) -> bool {
    0 <= p <= d.len() && h.len() + d.len() <= usize::MAX
}

proof fn lemma_taken(h: Seq<u8>, d: Seq<u8>, p: int, n: int)
    requires
        placed(h, d, p),
        0 <= n,
    ensures
        alike(taken(d, p, n), taken(h + d, p + h.len(), n), h.len() as int),
{
    if p + n <= d.len() {
        assert((h + d).subrange(p + h.len(), p + h.len() + n) =~= d.subrange(p, p + n));
    }
}

proof fn lemma_numbers(h: Seq<u8>, d: Seq<u8>, p: int)
    requires
        placed(h, d, p),
    ensures
        alike(read_u8(d, p), read_u8(h + d, p + h.len()), h.len() as int),
        alike(read_i16_raw(d, p), read_i16_raw(h + d, p + h.len()), h.len() as int),
        alike(read_i16(d, p), read_i16(h + d, p + h.len()), h.len() as int),
        alike(read_i32(d, p), read_i32(h + d, p + h.len()), h.len() as int),
        alike(read_f64(d, p), read_f64(h + d, p + h.len()), h.len() as int),
        alike(read_bool(d, p), read_bool(h + d, p + h.len()), h.len() as int),
        alike(read_pointer(d, p), read_pointer(h + d, p + h.len()), h.len() as int),
{
    lemma_taken(h, d, p, 1);
    lemma_taken(h, d, p, 2);
    lemma_taken(h, d, p, 4);
    lemma_taken(h, d, p, 8);
}

proof fn lemma_reals(h: Seq<u8>, d: Seq<u8>, p: int, n: nat)
    requires
        placed(h, d, p),
    ensures
        alike(read_reals(d, p, n), read_reals(h + d, p + h.len(), n), h.len() as int),
    decreases n,
{
    if n > 0 {
        lemma_reals(h, d, p, (n - 1) as nat);
        lemma_reals_end(d, p, (n - 1) as nat);
        lemma_numbers(h, d, read_reals(d, p, (n - 1) as nat).1);
    }
}

proof fn lemma_texts(h: Seq<u8>, d: Seq<u8>, p: int, n: int)
    requires
        placed(h, d, p),
        0 <= n,
    ensures
        alike(read_chars(d, p, n), read_chars(h + d, p + h.len(), n), h.len() as int),
        alike(read_utf16(d, p, n), read_utf16(h + d, p + h.len(), n), h.len() as int),
{
    lemma_taken(h, d, p, n);
    lemma_taken(h, d, p, 2 * n);
}

proof fn lemma_strings(h: Seq<u8>, d: Seq<u8>, p: int)
    requires
        placed(h, d, p),
    ensures
        alike(read_str_u8(d, p), read_str_u8(h + d, p + h.len()), h.len() as int),
        alike(read_str_i32(d, p), read_str_i32(h + d, p + h.len()), h.len() as int),
        0 <= read_str_u8(d, p).1 <= d.len(),
        0 <= read_str_i32(d, p).1 <= d.len(),
{
    lemma_numbers(h, d, p);
    if let (Ok(n), q) = read_u8(d, p) {
        lemma_texts(h, d, q, n as int);
    }
    if let (Ok(n), q) = read_i32(d, p) {
        if n >= 0 {
            lemma_texts(h, d, q, n as int);
        }
    }
}

proof fn lemma_box(h: Seq<u8>, d: Seq<u8>, p: int)
    requires
        placed(h, d, p),
    ensures
        alike(read_box(d, p), read_box(h + d, p + h.len()), h.len() as int),
{
    lemma_reals(h, d, p, 2);
    lemma_reals_end(d, p, 2);
    let q = read_reals(d, p, 2).1;
    lemma_reals(h, d, q, 2);
    lemma_reals_end(d, q, 2);
    let q2 = read_reals(d, q, 2).1;
    lemma_reals(h, d, q2, 2);
}

proof fn lemma_scalar(ft: FieldType, h: Seq<u8>, d: Seq<u8>, p: int)
    requires
        placed(h, d, p),
    ensures
        alike(read_scalar(ft, d, p), read_scalar(ft, h + d, p + h.len()), h.len() as int),
{
    match ft {
        FieldType::Char | FieldType::Utf16 => {
            lemma_texts(h, d, p, 1);
        },
        FieldType::Interval => {
            lemma_reals(h, d, p, 2);
        },
        FieldType::Vector | FieldType::H => {
            lemma_reals(h, d, p, 3);
        },
        FieldType::Box => {
            lemma_box(h, d, p);
        },
        _ => {
            lemma_numbers(h, d, p);
        },
    }
}

proof fn lemma_items(ft: FieldType, n: nat, h: Seq<u8>, d: Seq<u8>, p: int)
    requires
        placed(h, d, p),
    ensures
        alike(read_items(ft, n, d, p), read_items(ft, n, h + d, p + h.len()), h.len() as int),
    decreases n,
{
    if n > 0 {
        lemma_items(ft, (n - 1) as nat, h, d, p);
        lemma_items_end(ft, (n - 1) as nat, d, p);
        lemma_scalar(ft, h, d, read_items(ft, (n - 1) as nat, d, p).1);
    }
}

proof fn lemma_field(def: FieldDefView, h: Seq<u8>, d: Seq<u8>, p: int, count: int)
    requires
        placed(h, d, p),
    ensures
        alike(
            read_field(def, d, p, count),
            read_field(def, h + d, p + h.len(), count),
            h.len() as int,
        ),
{
    let n = if count > 1 {
        count
    } else {
        def.n_elements as int
    };
    lemma_scalar(def.field_type, h, d, p);
    if n > 1 {
        lemma_texts(h, d, p, n);
        lemma_items(def.field_type, n as nat, h, d, p);
    }
}

proof fn lemma_embedded(h: Seq<u8>, d: Seq<u8>, p: int)
    requires
        placed(h, d, p),
    ensures
        alike(read_embedded(d, p), read_embedded(h + d, p + h.len()), h.len() as int),
{
    lemma_strings(h, d, p);
    if let (Ok(name), p1) = read_str_u8(d, p) {
        lemma_numbers(h, d, p1);
        if let (Ok(class), p2) = read_i16_raw(d, p1) {
            lemma_numbers(h, d, p2);
            if let (Ok(n), p3) = read_i16_raw(d, p2) {
                lemma_strings(h, d, p3);
                lemma_numbers(h, d, p3);
                lemma_numbers(h, d, read_str_u8(d, p3).1);
            }
        }
    }
}

proof fn lemma_embeddeds(h: Seq<u8>, d: Seq<u8>, p: int, n: nat)
    requires
        placed(h, d, p),
    ensures
        alike(read_embeddeds(d, p, n), read_embeddeds(h + d, p + h.len(), n), h.len() as int),
    decreases n,
{
    if n > 0 {
        lemma_embeddeds(h, d, p, (n - 1) as nat);
        lemma_embeddeds_end(d, p, (n - 1) as nat);
        lemma_embedded(h, d, read_embeddeds(d, p, (n - 1) as nat).1);
    }
}

proof fn lemma_edits(
    h: Seq<u8>,
    d: Seq<u8>,
    p: int,
    node_type: i16,
    base: Seq<FieldDefView>,
    index: nat,
    merged: Seq<FieldDefView>,
)
    requires
        placed(h, d, p),
    ensures
        alike(
            edited_fields(d, p, node_type, base, index, merged),
            edited_fields(h + d, p + h.len(), node_type, base, index, merged),
            h.len() as int,
        ),
    decreases d.len() - p,
{
    lemma_numbers(h, d, p);
    match read_u8(d, p) {
        (Err(_), _) => {},
        (Ok(b), q) => {
            if b == 67 {
                if index < base.len() {
                    lemma_edits(
                        h,
                        d,
                        q,
                        node_type,
                        base,
                        index + 1,
                        merged.push(base[index as int]),
                    );
                }
            } else if b == 68 {
                lemma_edits(h, d, q, node_type, base, index + 1, merged);
            } else if b == 73 || b == 65 {
                lemma_embedded_end(d, q);
                lemma_embedded(h, d, q);
                if let (Ok(f), q2) = read_embedded(d, q) {
                    let g = if b == 73 {
                        inserted(f)
                    } else {
                        f
                    };
                    if let Ok(def) = g.def() {
                        lemma_edits(h, d, q2, node_type, base, index, merged.push(def));
                    }
                }
            }
        },
    }
}

proof fn lemma_type(h: Seq<u8>, d: Seq<u8>, p: int, node_type: i16, count: nat)
    requires
        placed(h, d, p),
    ensures
        alike(
            read_type(d, p, node_type, count),
            read_type(h + d, p + h.len(), node_type, count),
            h.len() as int,
        ),
{
    lemma_strings(h, d, p);
    if let (Ok(_), p1) = read_str_u8(d, p) {
        lemma_strings(h, d, p1);
        if let (Ok(_), p2) = read_str_u8(d, p1) {
            lemma_embeddeds(h, d, p2, count);
        }
    }
}

proof fn lemma_layout(
    h: Seq<u8>,
    d: Seq<u8>,
    p: int,
    node_type: i16,
    count: nat,
    types: Map<i16, TypeDefView>,
)
    requires
        placed(h, d, p),
    ensures
        alike(
            read_layout(d, p, node_type, count, types),
            read_layout(h + d, p + h.len(), node_type, count, types),
            h.len() as int,
        ),
{
    if types.contains_key(node_type) {
        lemma_edits(h, d, p, node_type, types[node_type].fields, 0, Seq::empty());
    } else {
        lemma_type(h, d, p, node_type, count);
    }
}

proof fn lemma_node_fields(
    h: Seq<u8>,
    d: Seq<u8>,
    p: int,
    layout: Seq<FieldDefView>,
    variable: bool,
    repeat: int,
    n: nat,
)
    requires
        placed(h, d, p),
    ensures
        alike(
            read_node_fields(d, p, layout, variable, repeat, n),
            read_node_fields(h + d, p + h.len(), layout, variable, repeat, n),
            h.len() as int,
        ),
    decreases n,
{
    if n > 0 {
        lemma_node_fields(h, d, p, layout, variable, repeat, (n - 1) as nat);
        lemma_node_fields_end(d, p, layout, variable, repeat, (n - 1) as nat);
        let q = read_node_fields(d, p, layout, variable, repeat, (n - 1) as nat).1;
        let count = if variable && n == layout.len() {
            repeat
        } else {
            1
        };
        lemma_field(layout[n - 1], h, d, q, count);
    }
}

proof fn lemma_payload(
    h: Seq<u8>,
    d: Seq<u8>,
    p: int,
    def: TypeDefView,
    node_type: i16,
    layout: Seq<FieldDefView>,
)
    requires
        placed(h, d, p),
    ensures
        alike(
            read_payload(d, p, def, node_type, layout),
            read_payload(h + d, p + h.len(), def, node_type, layout),
            h.len() as int,
        ),
{
    lemma_numbers(h, d, p);
    let (count, p1) = if def.variable {
        read_i32(d, p)
    } else {
        (Ok::<i32, Fault>(0), p)
    };
    if let Ok(repeat) = count {
        lemma_numbers(h, d, p1);
        if let (Ok(id), p2) = read_i16_raw(d, p1) {
            lemma_node_fields(h, d, p2, layout, def.variable, repeat as int, layout.len());
        }
    }
}

/// How far a transmit has been read, `k` bytes further on.
pub open spec fn further(st: Progress, k: int) -> Progress {
    Progress { pos: st.pos + k, ..st }
}

proof fn lemma_first_use(h: Seq<u8>, d: Seq<u8>, st: Progress, p: int, node_type: i16)
    requires
        placed(h, d, p),
    ensures
        match (
            read_first_use(d, st, p, node_type),
            read_first_use(h + d, further(st, h.len() as int), p + h.len(), node_type),
        ) {
            (Ok(a), Ok(b)) => b == further(a, h.len() as int) && p <= a.pos <= d.len(),
            (Err(_), Err(_)) => true,
            _ => false,
        },
{
    lemma_numbers(h, d, p);
    if let (Ok(count), p1) = read_u8(d, p) {
        lemma_layout(h, d, p1, node_type, count as nat, st.types);
        lemma_layout_end(d, p1, node_type, count as nat, st.types);
    }
}

proof fn lemma_record(h: Seq<u8>, d: Seq<u8>, st: Progress, max_type: i16)
    requires
        placed(h, d, st.pos),
    ensures
        match (
            read_record(d, st, max_type),
            read_record(h + d, further(st, h.len() as int), max_type),
        ) {
            (Ok(Record::End), Ok(Record::End)) => true,
            (Ok(Record::Node { node: a, next: s }), Ok(Record::Node { node: b, next: t })) => a == b
                && t == further(s, h.len() as int),
            (Err(_), Err(_)) => true,
            _ => false,
        },
{
    lemma_numbers(h, d, st.pos);
    if let (Ok(node_type), p1) = read_i16_raw(d, st.pos) {
        lemma_numbers(h, d, p1);
        if node_type == 1 || node_type > max_type {
        } else {
            lemma_first_use(h, d, st, p1, node_type);
            if let Ok(known) = read_first_use(d, st, p1, node_type) {
                lemma_payload(
                    h,
                    d,
                    known.pos,
                    known.types[node_type],
                    node_type,
                    known.layouts[node_type],
                );
            }
        }
    }
}

proof fn lemma_nodes(
    h: Seq<u8>,
    d: Seq<u8>,
    st: Progress,
    max_type: i16,
    before: Seq<NodeView>,
)
    requires
        placed(h, d, st.pos),
    ensures
        match (
            nodes_from(d, st, max_type, before),
            nodes_from(h + d, further(st, h.len() as int), max_type, before),
        ) {
            (Ok(a), Ok(b)) => a == b,
            (Err(_), Err(_)) => true,
            _ => false,
        },
    decreases d.len() - st.pos,
{
    lemma_record(h, d, st, max_type);
    lemma_record_advances(d, st, max_type);
    match read_record(d, st, max_type) {
        Ok(Record::Node { node, next }) => {
            lemma_nodes(h, d, next, max_type, before.push(node));
        },
        _ => {},
    }
}

proof fn lemma_header_fields(h: Seq<u8>, d: Seq<u8>, p: int)
    requires
        placed(h, d, p),
    ensures
        alike(header_fields(d, p), header_fields(h + d, p + h.len()), h.len() as int),
        header_fields(d, p).0 is Ok ==> 0 <= header_fields(d, p).1 <= d.len(),
{
    lemma_strings(h, d, p);
    if let (Ok(_), p1) = read_str_i32(d, p) {
        lemma_strings(h, d, p1);
        if let (Ok(_), p2) = read_str_i32(d, p1) {
            lemma_numbers(h, d, p2);
            if let (Ok(_), p3) = read_i16_raw(d, p2) {
                lemma_numbers(h, d, p3);
                if let (Ok(_), p4) = read_i16_raw(d, p3) {
                    lemma_numbers(h, d, p4);
                    if let (Ok(_), p5) = read_u8(d, p4) {
                        lemma_numbers(h, d, p5);
                    }
                }
            }
        }
    }
}

/// A banner: text of at most 1024 bytes that begins with `**` and ends with the
/// line that first holds `**END_OF_HEADER**`, at offset `m`.
pub open spec fn is_banner(h: Seq<u8>, m: int) -> bool {
    &&& h.len() <= 1024
    &&& has_at(h, 0, STARS@)
    &&& has_at(h, m, HEADER_MARK@)
    &&& forall|i: int| 0 <= i < m ==> !has_at(h, i, HEADER_MARK@)
    &&& m + 17 < h.len()
    &&& h.last() == 10
    &&& forall|i: int| m + 17 <= i < h.len() - 1 ==> #[trigger] h[i] != 10
}

proof fn lemma_first_at(s: Seq<u8>, needle: Seq<u8>, from: int, m: int)
    requires
        0 <= from <= m,
        needle.len() > 0,
        has_at(s, m, needle),
        forall|i: int| from <= i < m ==> !has_at(s, i, needle),
    ensures
        first_at(s, needle, from) == Some(m),
    decreases m - from,
{
    if from < m {
        assert(!has_at(s, from, needle));
        lemma_first_at(s, needle, from + 1, m);
    }
}

proof fn lemma_line_end(s: Seq<u8>, from: int, end: int)
    requires
        0 <= from <= end < s.len(),
        s[end] == 10,
        forall|i: int| from <= i < end ==> #[trigger] s[i] != 10,
    ensures
        run_end(s, Class::NotNewline, from) == end,
    decreases end - from,
{
    if from < end {
        assert(s[from] != 10);
        lemma_line_end(s, from + 1, end);
    }
}

/// Behind a banner the binary header begins.
proof fn lemma_binary_start(h: Seq<u8>, d: Seq<u8>, m: int)
    requires
        is_banner(h, m),
    ensures
        binary_start(h + d, 0) == Ok::<int, Fault>(h.len() as int),
{
    let all = h + d;
    let window = if all.len() < 1024 {
        all
    } else {
        all.take(1024)
    };
    assert(all.subrange(0, 2) =~= h.subrange(0, 2));
    assert(has_at(all, 0, STARS@));
    let w = window.drop_last();
    assert(forall|i: int| 0 <= i < h.len() ==> window[i] == h[i]);
    assert(w.subrange(m, m + 17) =~= h.subrange(m, m + 17));
    assert(has_at(w, m, HEADER_MARK@));
    assert forall|i: int| 0 <= i < m implies !has_at(w, i, HEADER_MARK@) by {
        assert(w.subrange(i, i + 17) =~= h.subrange(i, i + 17));
        assert(!has_at(h, i, HEADER_MARK@));
    }
    lemma_first_at(w, HEADER_MARK@, 0, m);
    assert(window[h.len() - 1] == 10);
    lemma_line_end(window, m + 17, h.len() - 1);
}

/// The banner is skipped, not partly consumed: the same bytes with and without
/// it give the same document, field for field, or fail alike.
pub proof fn lemma_banner_is_skipped(
    h: Seq<u8>,
    d: Seq<u8>,
    m: int,
    base_name: Seq<char>,
    base_types: Map<i16, TypeDefView>,
)
    requires
        is_banner(h, m),
        !has_at(d, 0, STARS@),
        h.len() + d.len() <= usize::MAX,
    ensures
        match (document(d, base_name, base_types), document(h + d, base_name, base_types)) {
            (Ok(a), Ok(b)) => a == b,
            (Err(_), Err(_)) => true,
            _ => false,
        },
{
    let all = h + d;
    let k = h.len() as int;
    lemma_binary_start(h, d, m);
    if d.len() >= 2 {
        assert(all.subrange(k, k + 2) =~= d.subrange(0, 2));
    }
    assert(has_at(all, k, MAGIC@) == has_at(d, 0, MAGIC@));
    if has_at(d, 0, MAGIC@) {
        lemma_header_fields(h, d, 2);
        if let (Ok((version, schema, min, max)), p) = header_fields(d, 2) {
            let start = Progress { pos: p, types: base_types, layouts: Map::empty() };
            assert(further(start, k) == (Progress {
                pos: p + k,
                types: base_types,
                layouts: Map::empty(),
            }));
            lemma_nodes(h, d, start, max, Seq::empty());
        }
    }
}

} // verus!
