//! Nothing may stand behind a transmit.
//!
//! Whatever is read of some bytes is read alike when more bytes follow them, so
//! that the terminator is found where it was, and what follows it is a fault.

use vstd::prelude::*;

use super::reader::{
    read_bool, read_box, read_chars, read_f64, read_i16, read_i16_raw, read_i32, read_pointer,
    read_reals, read_str_i32, read_str_u8, read_u8, read_utf16, taken,
};
use super::schema::{
    read_embedded, read_field, read_items, read_scalar, FieldDefView, FieldType, TypeDefView,
};
use super::{
    binary_start, document, edited_fields, header_fields, inserted, lemma_embedded_end,
    lemma_embeddeds_end, lemma_header_end, lemma_items_end, lemma_layout_end,
    lemma_node_fields_end, lemma_reals_end, lemma_record_advances, nodes_from, read_embeddeds,
    read_first_use, read_header, read_layout, read_node_fields, read_payload, read_record,
    read_type, Progress, Record, HEADER_MARK, MAGIC, STARS,
};
use crate::bytes::{first_at, has_at, run_end, Class};
use crate::value::NodeView;
use crate::xt::fault::Fault;

verus! {

/// A reading that does not fail gives the same once more bytes follow.
pub open spec fn kept<T>(a: (Result<T, Fault>, int), b: (Result<T, Fault>, int)) -> bool {
    a.0 is Ok ==> b == a
}

proof fn lemma_taken(d: Seq<u8>, x: Seq<u8>, p: int, n: int)
    requires
        0 <= p <= d.len(),
        0 <= n,
    ensures
        kept(taken(d, p, n), taken(d + x, p, n)),
{
    if p + n <= d.len() {
        assert((d + x).subrange(p, p + n) =~= d.subrange(p, p + n));
    }
}

proof fn lemma_numbers(d: Seq<u8>, x: Seq<u8>, p: int)
    requires
        0 <= p <= d.len(),
    ensures
        kept(read_u8(d, p), read_u8(d + x, p)),
        kept(read_i16_raw(d, p), read_i16_raw(d + x, p)),
        kept(read_i16(d, p), read_i16(d + x, p)),
        kept(read_i32(d, p), read_i32(d + x, p)),
        kept(read_f64(d, p), read_f64(d + x, p)),
        kept(read_bool(d, p), read_bool(d + x, p)),
        kept(read_pointer(d, p), read_pointer(d + x, p)),
{
    lemma_taken(d, x, p, 1);
    lemma_taken(d, x, p, 2);
    lemma_taken(d, x, p, 4);
    lemma_taken(d, x, p, 8);
}

proof fn lemma_reals(d: Seq<u8>, x: Seq<u8>, p: int, n: nat)
    requires
        0 <= p <= d.len(),
    ensures
        kept(read_reals(d, p, n), read_reals(d + x, p, n)),
    decreases n,
{
    if n > 0 {
        lemma_reals(d, x, p, (n - 1) as nat);
        lemma_reals_end(d, p, (n - 1) as nat);
        lemma_numbers(d, x, read_reals(d, p, (n - 1) as nat).1);
    }
}

proof fn lemma_texts(d: Seq<u8>, x: Seq<u8>, p: int, n: int)
    requires
        0 <= p <= d.len(),
        0 <= n,
    ensures
        kept(read_chars(d, p, n), read_chars(d + x, p, n)),
        kept(read_utf16(d, p, n), read_utf16(d + x, p, n)),
{
    lemma_taken(d, x, p, n);
    lemma_taken(d, x, p, 2 * n);
}

proof fn lemma_strings(d: Seq<u8>, x: Seq<u8>, p: int)
    requires
        0 <= p <= d.len(),
    ensures
        kept(read_str_u8(d, p), read_str_u8(d + x, p)),
        kept(read_str_i32(d, p), read_str_i32(d + x, p)),
        0 <= read_str_u8(d, p).1 <= d.len(),
        0 <= read_str_i32(d, p).1 <= d.len(),
{
    lemma_numbers(d, x, p);
    if let (Ok(n), q) = read_u8(d, p) {
        lemma_texts(d, x, q, n as int);
    }
    if let (Ok(n), q) = read_i32(d, p) {
        if n >= 0 {
            lemma_texts(d, x, q, n as int);
        }
    }
}

proof fn lemma_box(d: Seq<u8>, x: Seq<u8>, p: int)
    requires
        0 <= p <= d.len(),
    ensures
        kept(read_box(d, p), read_box(d + x, p)),
{
    lemma_reals(d, x, p, 2);
    lemma_reals_end(d, p, 2);
    let q = read_reals(d, p, 2).1;
    lemma_reals(d, x, q, 2);
    lemma_reals_end(d, q, 2);
    let q2 = read_reals(d, q, 2).1;
    lemma_reals(d, x, q2, 2);
}

proof fn lemma_scalar(ft: FieldType, d: Seq<u8>, x: Seq<u8>, p: int)
    requires
        0 <= p <= d.len(),
    ensures
        kept(read_scalar(ft, d, p), read_scalar(ft, d + x, p)),
{
    match ft {
        FieldType::Char | FieldType::Utf16 => {
            lemma_texts(d, x, p, 1);
        },
        FieldType::Interval => {
            lemma_reals(d, x, p, 2);
        },
        FieldType::Vector | FieldType::H => {
            lemma_reals(d, x, p, 3);
        },
        FieldType::Box => {
            lemma_box(d, x, p);
        },
        _ => {
            lemma_numbers(d, x, p);
        },
    }
}

proof fn lemma_items(ft: FieldType, n: nat, d: Seq<u8>, x: Seq<u8>, p: int)
    requires
        0 <= p <= d.len(),
    ensures
        kept(read_items(ft, n, d, p), read_items(ft, n, d + x, p)),
    decreases n,
{
    if n > 0 {
        lemma_items(ft, (n - 1) as nat, d, x, p);
        lemma_items_end(ft, (n - 1) as nat, d, p);
        lemma_scalar(ft, d, x, read_items(ft, (n - 1) as nat, d, p).1);
    }
}

proof fn lemma_field(def: FieldDefView, d: Seq<u8>, x: Seq<u8>, p: int, count: int)
    requires
        0 <= p <= d.len(),
    ensures
        kept(
            read_field(def, d, p, count),
            read_field(def, d + x, p, count)),
{
    let n = if count > 1 {
        count
    } else {
        def.n_elements as int
    };
    lemma_scalar(def.field_type, d, x, p);
    if n > 1 {
        lemma_texts(d, x, p, n);
        lemma_items(def.field_type, n as nat, d, x, p);
    }
}

proof fn lemma_embedded(d: Seq<u8>, x: Seq<u8>, p: int)
    requires
        0 <= p <= d.len(),
    ensures
        kept(read_embedded(d, p), read_embedded(d + x, p)),
{
    lemma_strings(d, x, p);
    if let (Ok(name), p1) = read_str_u8(d, p) {
        lemma_numbers(d, x, p1);
        if let (Ok(class), p2) = read_i16_raw(d, p1) {
            lemma_numbers(d, x, p2);
            if let (Ok(n), p3) = read_i16_raw(d, p2) {
                lemma_strings(d, x, p3);
                lemma_numbers(d, x, p3);
                lemma_numbers(d, x, read_str_u8(d, p3).1);
            }
        }
    }
}

proof fn lemma_embeddeds(d: Seq<u8>, x: Seq<u8>, p: int, n: nat)
    requires
        0 <= p <= d.len(),
    ensures
        kept(read_embeddeds(d, p, n), read_embeddeds(d + x, p, n)),
    decreases n,
{
    if n > 0 {
        lemma_embeddeds(d, x, p, (n - 1) as nat);
        lemma_embeddeds_end(d, p, (n - 1) as nat);
        lemma_embedded(d, x, read_embeddeds(d, p, (n - 1) as nat).1);
    }
}

proof fn lemma_edits(
    d: Seq<u8>,
    x: Seq<u8>,
    p: int,
    node_type: i16,
    base: Seq<FieldDefView>,
    index: nat,
    merged: Seq<FieldDefView>,
)
    requires
        0 <= p <= d.len(),
    ensures
        kept(
            edited_fields(d, p, node_type, base, index, merged),
            edited_fields(d + x, p, node_type, base, index, merged)),
    decreases d.len() - p,
{
    lemma_numbers(d, x, p);
    match read_u8(d, p) {
        (Err(_), _) => {},
        (Ok(b), q) => {
            if b == 67 {
                if index < base.len() {
                    lemma_edits(
                        d,
                        x,
                        q,
                        node_type,
                        base,
                        index + 1,
                        merged.push(base[index as int]),
                    );
                }
            } else if b == 68 {
                lemma_edits(d, x, q, node_type, base, index + 1, merged);
            } else if b == 73 || b == 65 {
                lemma_embedded_end(d, q);
                lemma_embedded(d, x, q);
                if let (Ok(f), q2) = read_embedded(d, q) {
                    let g = if b == 73 {
                        inserted(f)
                    } else {
                        f
                    };
                    if let Ok(def) = g.def() {
                        lemma_edits(d, x, q2, node_type, base, index, merged.push(def));
                    }
                }
            }
        },
    }
}

proof fn lemma_type(d: Seq<u8>, x: Seq<u8>, p: int, node_type: i16, count: nat)
    requires
        0 <= p <= d.len(),
    ensures
        kept(
            read_type(d, p, node_type, count),
            read_type(d + x, p, node_type, count)),
{
    lemma_strings(d, x, p);
    if let (Ok(_), p1) = read_str_u8(d, p) {
        lemma_strings(d, x, p1);
        if let (Ok(_), p2) = read_str_u8(d, p1) {
            lemma_embeddeds(d, x, p2, count);
        }
    }
}

proof fn lemma_layout(
    d: Seq<u8>,
    x: Seq<u8>,
    p: int,
    node_type: i16,
    count: nat,
    types: Map<i16, TypeDefView>,
)
    requires
        0 <= p <= d.len(),
    ensures
        kept(
            read_layout(d, p, node_type, count, types),
            read_layout(d + x, p, node_type, count, types)),
{
    if types.contains_key(node_type) {
        lemma_edits(d, x, p, node_type, types[node_type].fields, 0, Seq::empty());
    } else {
        lemma_type(d, x, p, node_type, count);
    }
}

proof fn lemma_node_fields(
    d: Seq<u8>,
    x: Seq<u8>,
    p: int,
    layout: Seq<FieldDefView>,
    variable: bool,
    repeat: int,
    n: nat,
)
    requires
        0 <= p <= d.len(),
    ensures
        kept(
            read_node_fields(d, p, layout, variable, repeat, n),
            read_node_fields(d + x, p, layout, variable, repeat, n)),
    decreases n,
{
    if n > 0 {
        lemma_node_fields(d, x, p, layout, variable, repeat, (n - 1) as nat);
        lemma_node_fields_end(d, p, layout, variable, repeat, (n - 1) as nat);
        let q = read_node_fields(d, p, layout, variable, repeat, (n - 1) as nat).1;
        let count = if variable && n == layout.len() {
            repeat
        } else {
            1
        };
        lemma_field(layout[n - 1], d, x, q, count);
    }
}

proof fn lemma_payload(
    d: Seq<u8>,
    x: Seq<u8>,
    p: int,
    def: TypeDefView,
    node_type: i16,
    layout: Seq<FieldDefView>,
)
    requires
        0 <= p <= d.len(),
    ensures
        kept(
            read_payload(d, p, def, node_type, layout),
            read_payload(d + x, p, def, node_type, layout)),
{
    lemma_numbers(d, x, p);
    let (count, p1) = if def.variable {
        read_i32(d, p)
    } else {
        (Ok::<i32, Fault>(0), p)
    };
    if let Ok(repeat) = count {
        lemma_numbers(d, x, p1);
        if let (Ok(id), p2) = read_i16_raw(d, p1) {
            lemma_node_fields(d, x, p2, layout, def.variable, repeat as int, layout.len());
        }
    }
}

proof fn lemma_first_use(d: Seq<u8>, x: Seq<u8>, st: Progress, p: int, node_type: i16)
    requires
        0 <= p <= d.len(),
    ensures
        read_first_use(d, st, p, node_type) matches Ok(known) ==> read_first_use(
            d + x,
            st,
            p,
            node_type,
        ) == Ok::<Progress, Fault>(known) && p <= known.pos <= d.len(),
{
    lemma_numbers(d, x, p);
    if let (Ok(count), p1) = read_u8(d, p) {
        lemma_layout(d, x, p1, node_type, count as nat, st.types);
        lemma_layout_end(d, p1, node_type, count as nat, st.types);
    }
}

/// A node is read alike; a terminator is one that something follows.
proof fn lemma_record(d: Seq<u8>, x: Seq<u8>, st: Progress, max_type: i16)
    requires
        0 <= st.pos <= d.len(),
        x.len() > 0,
    ensures
        match read_record(d, st, max_type) {
            Ok(Record::End) => read_record(d + x, st, max_type) is Err,
            Ok(Record::Node { node, next }) => read_record(d + x, st, max_type) == Ok::<
                Record,
                Fault,
            >(Record::Node { node, next }),
            Err(_) => true,
        },
{
    lemma_numbers(d, x, st.pos);
    if let (Ok(node_type), p1) = read_i16_raw(d, st.pos) {
        lemma_numbers(d, x, p1);
        if node_type == 1 || node_type > max_type {
        } else {
            lemma_first_use(d, x, st, p1, node_type);
            if let Ok(known) = read_first_use(d, st, p1, node_type) {
                lemma_payload(
                    d,
                    x,
                    known.pos,
                    known.types[node_type],
                    node_type,
                    known.layouts[node_type],
                );
            }
        }
    }
}

proof fn lemma_nodes(
    d: Seq<u8>,
    x: Seq<u8>,
    st: Progress,
    max_type: i16,
    before: Seq<NodeView>,
)
    requires
        0 <= st.pos <= d.len(),
        x.len() > 0,
        nodes_from(d, st, max_type, before) is Ok,
    ensures
        nodes_from(d + x, st, max_type, before) is Err,
    decreases d.len() - st.pos,
{
    lemma_record(d, x, st, max_type);
    lemma_record_advances(d, st, max_type);
    match read_record(d, st, max_type) {
        Ok(Record::Node { node, next }) => {
            lemma_nodes(d, x, next, max_type, before.push(node));
        },
        _ => {},
    }
}

proof fn lemma_header_fields(d: Seq<u8>, x: Seq<u8>, p: int)
    requires
        0 <= p <= d.len(),
    ensures
        kept(header_fields(d, p), header_fields(d + x, p)),
        header_fields(d, p).0 is Ok ==> 0 <= header_fields(d, p).1 <= d.len(),
{
    lemma_strings(d, x, p);
    if let (Ok(_), p1) = read_str_i32(d, p) {
        lemma_strings(d, x, p1);
        if let (Ok(_), p2) = read_str_i32(d, p1) {
            lemma_numbers(d, x, p2);
            if let (Ok(_), p3) = read_i16_raw(d, p2) {
                lemma_numbers(d, x, p3);
                if let (Ok(_), p4) = read_i16_raw(d, p3) {
                    lemma_numbers(d, x, p4);
                    if let (Ok(_), p5) = read_u8(d, p4) {
                        lemma_numbers(d, x, p5);
                    }
                }
            }
        }
    }
}

/// The first place of some bytes is the same in more of them.
proof fn lemma_first_at(s: Seq<u8>, t: Seq<u8>, needle: Seq<u8>, from: int)
    requires
        0 <= from,
        needle.len() > 0,
        s.len() <= t.len(),
        forall|i: int| 0 <= i < s.len() ==> s[i] == t[i],
        first_at(s, needle, from) is Some,
    ensures
        first_at(t, needle, from) == first_at(s, needle, from),
        from <= first_at(s, needle, from)->0,
        first_at(s, needle, from)->0 + needle.len() <= s.len(),
    decreases s.len() - from,
{
    if from + needle.len() <= s.len() {
        assert(s.subrange(from, from + needle.len()) =~= t.subrange(from, from + needle.len()));
        if !has_at(s, from, needle) {
            lemma_first_at(s, t, needle, from + 1);
        }
    }
}

/// A line that ends in some bytes ends there in more of them.
proof fn lemma_line_end(s: Seq<u8>, t: Seq<u8>, from: int)
    requires
        0 <= from <= s.len() <= t.len(),
        forall|i: int| 0 <= i < s.len() ==> s[i] == t[i],
        run_end(s, Class::NotNewline, from) < s.len(),
    ensures
        run_end(t, Class::NotNewline, from) == run_end(s, Class::NotNewline, from),
    decreases s.len() - from,
{
    if from < s.len() && Class::NotNewline.has(s[from]) {
        lemma_line_end(s, t, from + 1);
    }
}

/// The binary header begins where it did.
proof fn lemma_binary_start(d: Seq<u8>, x: Seq<u8>)
    requires
        d.len() >= 2,
        binary_start(d, 0) is Ok,
    ensures
        binary_start(d + x, 0) == binary_start(d, 0),
{
    let all = d + x;
    let s = if d.len() < 1024 {
        d
    } else {
        d.take(1024)
    };
    let t = if all.len() < 1024 {
        all
    } else {
        all.take(1024)
    };
    assert(all.subrange(0, 2) =~= d.subrange(0, 2));
    if has_at(d, 0, STARS@) {
        lemma_first_at(s.drop_last(), t.drop_last(), HEADER_MARK@, 0);
        let m = first_at(s.drop_last(), HEADER_MARK@, 0)->0;
        lemma_line_end(s, t, m + 17);
    }
}

/// Nothing may follow the terminator: where some bytes are a transmit, the same
/// bytes with any more behind them are none.
pub proof fn lemma_nothing_follows_the_terminator(
    d: Seq<u8>,
    x: Seq<u8>,
    base_name: Seq<char>,
    base_types: Map<i16, TypeDefView>,
)
    requires
        document(d, base_name, base_types) is Ok,
        x.len() > 0,
    ensures
        document(d + x, base_name, base_types) is Err,
{
    let all = d + x;
    let start = binary_start(d, 0)->Ok_0;
    lemma_header_end(d);
    assert(has_at(d, start, MAGIC@));
    lemma_binary_start(d, x);
    assert(all.subrange(start, start + 2) =~= d.subrange(start, start + 2));
    lemma_header_fields(d, x, start + 2);
    assert(read_header(all, 0) == read_header(d, 0));
    if let (Ok((version, schema, min, max)), p) = read_header(d, 0) {
        let begin = Progress { pos: p, types: base_types, layouts: Map::empty() };
        lemma_nodes(d, x, begin, max, Seq::empty());
    }
}

} // verus!
