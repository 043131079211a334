//! Parasolid XT binary transmit decoding.
//!
//! A transmit is a header followed by node records; each node type carries its
//! field layout the first time it appears, either as "use the base schema", a
//! delta against the base schema, or a full embedded schema.

pub mod banner;
pub mod described;
pub mod fault;
pub mod lines;
pub mod reader;
pub mod schema;
pub mod tail;
pub mod written;

use std::collections::HashMap;

use vstd::prelude::*;

use crate::bytes::{find, scan_run, starts_with_at, Class};
use crate::text::ends_in;
use crate::value::{Node, NodeView, Value, ValueView};
use crate::xt::fault::{
    agrees, no_header_marker, no_header_newline, not_binary, not_in_base, past_base_fields,
    schema_mismatch, trailing_bytes, type_too_large, unknown_edit, Fault,
};
pub use crate::xt::fault::XtError;
use crate::xt::reader::Reader;
use crate::xt::schema::{
    clone_defs, parse_embedded_field, BaseSchema, EmbeddedField, EmbeddedFieldView, FieldDef,
    FieldDefView, TypeDef, TypeDefView,
};

verus! {

broadcast use vstd::std_specs::hash::group_hash_axioms;

/// `**END_OF_HEADER**`.
pub const HEADER_MARK: [u8; 17] = [
    42, 42, 69, 78, 68, 95, 79, 70, 95, 72, 69, 65, 68, 69, 82, 42, 42,
];

/// `**`.
pub const STARS: [u8; 2] = [42, 42];

/// `PS`.
pub const MAGIC: [u8; 2] = [80, 83];

/// Where the binary header begins: at `p`, or behind the line that holds
/// `**END_OF_HEADER**` where the bytes begin with an ASCII banner, of which no
/// more than 1024 bytes are looked at.
pub open spec fn binary_start(d: Seq<u8>, p: int) -> Result<int, Fault> {
    let window = if d.len() < 1024 {
        d
    } else {
        d.take(1024)
    };
    if !crate::bytes::has_at(d, 0, STARS@) {
        Ok(p)
    } else {
        match crate::bytes::first_at(window.drop_last(), HEADER_MARK@, 0) {
            None => Err(Fault::NoHeaderMarker),
            Some(m) => {
                let nl = crate::bytes::run_end(window, Class::NotNewline, m + 17);
                if nl < window.len() {
                    Ok(nl + 1)
                } else {
                    Err(Fault::NoHeaderNewline)
                }
            },
        }
    }
}

/// The fields of the binary header: modeler version, schema name, lowest and
/// highest node type.
pub open spec fn header_fields(d: Seq<u8>, p: int) -> (
    Result<(Seq<char>, Seq<char>, i16, i16), Fault>,
    int,
) {
    match crate::xt::reader::read_str_i32(d, p) {
        (Err(f), q) => (Err(f), q),
        (Ok(version), p1) => match crate::xt::reader::read_str_i32(d, p1) {
            (Err(f), q) => (Err(f), q),
            (Ok(schema), p2) => match crate::xt::reader::read_i16_raw(d, p2) {
                (Err(f), q) => (Err(f), q),
                (Ok(max), p3) => match crate::xt::reader::read_i16_raw(d, p3) {
                    (Err(f), q) => (Err(f), q),
                    (Ok(min), p4) => match crate::xt::reader::read_u8(d, p4) {
                        (Err(f), q) => (Err(f), q),
                        (Ok(_), p5) => match crate::xt::reader::read_u8(d, p5) {
                            (Err(f), q) => (Err(f), q),
                            (Ok(_), p6) => (Ok((version, schema, min, max)), p6),
                        },
                    },
                },
            },
        },
    }
}

/// The header: its fields, and where the node records begin.
pub open spec fn read_header(d: Seq<u8>, p: int) -> (
    Result<(Seq<char>, Seq<char>, i16, i16), Fault>,
    int,
) {
    match binary_start(d, p) {
        Err(f) => (Err(f), p),
        Ok(start) => if !crate::bytes::has_at(d, start, MAGIC@) {
            (Err(Fault::NotBinary), start)
        } else {
            header_fields(d, start + 2)
        },
    }
}

/// Go to where the binary header begins.
fn skip_banner(r: &mut Reader) -> (v: Result<(), XtError>)
    ensures
        final(r).data@ == old(r).data@,
        match (v, binary_start(old(r).data@, old(r).pos as int)) {
            (Ok(_), Ok(start)) => final(r).pos == start,
            (Err(e), Err(f)) => e.0@ == f.text() && final(r).pos == old(r).pos,
            _ => false,
        },
{
    if starts_with_at(r.data, 0, STARS.as_slice()) {
        let n: usize = if r.data.len() < 1024 {
            r.data.len()
        } else {
            1024
        };
        let window = vstd::slice::slice_subrange(r.data, 0, n);
        assert(r.data@.len() < 1024 ==> window@ =~= r.data@);
        assert(r.data@.len() >= 1024 ==> window@ =~= r.data@.take(1024));
        let most = vstd::slice::slice_subrange(window, 0, n - 1);
        assert(most@ =~= window@.drop_last());
        let m: usize = match find(most, HEADER_MARK.as_slice(), 0) {
            Some(m) => m,
            None => {
                return Err(no_header_marker());
            },
        };
        assert(m + 17 <= most.len());
        let nl: usize = scan_run(window, Class::NotNewline, m + 17);
        if nl >= window.len() {
            return Err(no_header_newline());
        }
        r.pos = nl + 1;
    }
    Ok(())
}

/// Read the fields of the binary header.
fn read_header_fields(r: &mut Reader) -> (h: Result<(String, String, i16, i16), XtError>)
    ensures
        final(r).moved(*old(r), header_fields(old(r).data@, old(r).pos as int).1),
        agrees(h, header_fields(old(r).data@, old(r).pos as int).0),
{
    let modeler_version = match r.str_i32_len() {
        Ok(v) => v,
        Err(e) => {
            return Err(e);
        },
    };
    let schema_name = match r.str_i32_len() {
        Ok(v) => v,
        Err(e) => {
            return Err(e);
        },
    };
    let schema_max_type: i16 = match r.i16_raw() {
        Ok(v) => v,
        Err(e) => {
            return Err(e);
        },
    };
    let schema_min_type: i16 = match r.i16_raw() {
        Ok(v) => v,
        Err(e) => {
            return Err(e);
        },
    };
    // Two unknown bytes.
    if let Err(e) = r.u8() {
        return Err(e);
    }
    if let Err(e) = r.u8() {
        return Err(e);
    }
    Ok((modeler_version, schema_name, schema_min_type, schema_max_type))
}

/// Parse the `PS` header (optionally preceded by the ASCII `**PARASOLID`
/// banner found in standalone `.x_b` files).
pub fn parse_file_header(r: &mut Reader) -> (h: Result<(String, String, i16, i16), XtError>)
    ensures
        final(r).moved(*old(r), read_header(old(r).data@, old(r).pos as int).1),
        agrees(h, read_header(old(r).data@, old(r).pos as int).0),
{
    if let Err(e) = skip_banner(r) {
        return Err(e);
    }
    if !starts_with_at(r.data, r.pos, MAGIC.as_slice()) {
        return Err(not_binary());
    }
    assert(r.pos + 2 <= r.data.len());
    r.pos = r.pos + 2;
    read_header_fields(r)
}

/// The node types known while a transmit is read: those of the base schema,
/// and those that the transmit itself describes.
pub struct Types<'a> {
    pub base: &'a HashMap<i16, TypeDef>,
    pub embedded: HashMap<i16, TypeDef>,
}

impl<'a> View for Types<'a> {
    type V = Map<i16, TypeDefView>;

    open spec fn view(&self) -> Map<i16, TypeDefView> {
        crate::xt::schema::type_views(self.base@).union_prefer_right(
            crate::xt::schema::type_views(self.embedded@),
        )
    }
}

impl<'a> Types<'a> {
    /// The description of a node type.
    pub fn get(&self, node_type: i16) -> (r: Option<&TypeDef>)
        ensures
            match r {
                Some(t) => self@.contains_key(node_type) && self@[node_type] == t@,
                None => !self@.contains_key(node_type),
            },
    {
        match self.embedded.get(&node_type) {
            Some(t) => Some(t),
            None => self.base.get(&node_type),
        }
    }

    /// Add a type that the transmit describes.
    pub fn insert(&mut self, node_type: i16, def: TypeDef)
        ensures
            final(self)@ == old(self)@.insert(node_type, def@),
            final(self).base == old(self).base,
    {
        let ghost before = self.embedded@;
        self.embedded.insert(node_type, def);
        proof {
            assert(crate::xt::schema::type_views(self.embedded@)
                =~= crate::xt::schema::type_views(before).insert(node_type, def@));
            assert(self@ =~= old(self)@.insert(node_type, def@));
        }
    }
}

/// An inserted field, whose number of elements is stored one too high when it
/// is above two.
pub open spec fn inserted(f: EmbeddedFieldView) -> EmbeddedFieldView {
    if f.n_elements > 2 {
        EmbeddedFieldView { n_elements: (f.n_elements - 1) as i16, ..f }
    } else {
        f
    }
}

/// The layout that edits of a base layout give, from the edit at `p` on: `C`
/// copies the next base field, `D` drops it, `I` inserts an embedded field,
/// `A` appends one, and `Z` ends. `index` base fields are used up, and
/// `merged` is the layout so far.
pub open spec fn edited_fields(
    d: Seq<u8>,
    p: int,
    node_type: i16,
    base: Seq<FieldDefView>,
    index: nat,
    merged: Seq<FieldDefView>,
) -> (Result<Seq<FieldDefView>, Fault>, int)
    decreases d.len() - p,
    when 0 <= p
    via edited_fields_decreases
{
    match crate::xt::reader::read_u8(d, p) {
        (Err(f), q) => (Err(f), q),
        (Ok(b), q) => if b == 90 {
            (Ok(merged), q)
        } else if b == 67 {
            if index < base.len() {
                edited_fields(d, q, node_type, base, index + 1, merged.push(base[index as int]))
            } else {
                (Err(Fault::PastBaseFields { node_type: node_type as int }), q)
            }
        } else if b == 68 {
            edited_fields(d, q, node_type, base, index + 1, merged)
        } else if b == 73 || b == 65 {
            match crate::xt::schema::read_embedded(d, q) {
                (Err(f), q2) => (Err(f), q2),
                (Ok(f), q2) => match (if b == 73 {
                    inserted(f)
                } else {
                    f
                }).def() {
                    Ok(def) => edited_fields(d, q2, node_type, base, index, merged.push(def)),
                    Err(fault) => (Err(fault), q2),
                },
            }
        } else {
            (Err(Fault::UnknownEdit { letter: b as char }), q)
        },
    }
}

#[via_fn]
proof fn edited_fields_decreases(
    d: Seq<u8>,
    p: int,
    node_type: i16,
    base: Seq<FieldDefView>,
    index: nat,
    merged: Seq<FieldDefView>,
) {
    if p < d.len() {
        lemma_embedded_end(d, p + 1);
    }
}

/// An embedded field definition ends inside the bytes.
proof fn lemma_embedded_end(d: Seq<u8>, p: int)
    requires
        0 <= p <= d.len(),
    ensures
        p <= crate::xt::schema::read_embedded(d, p).1 <= d.len(),
{
}

/// The `n` embedded field definitions at `p`.
pub open spec fn read_embeddeds(d: Seq<u8>, p: int, n: nat) -> (
    Result<Seq<EmbeddedFieldView>, Fault>,
    int,
)
    decreases n,
{
    if n == 0 {
        (Ok(Seq::empty()), p)
    } else {
        match read_embeddeds(d, p, (n - 1) as nat) {
            (Err(f), q) => (Err(f), q),
            (Ok(before), q) => match crate::xt::schema::read_embedded(d, q) {
                (Err(f), q2) => (Err(f), q2),
                (Ok(e), q2) => (Ok(before.push(e)), q2),
            },
        }
    }
}

/// A failure among the first definitions is the failure of all of them.
proof fn lemma_embeddeds_fail(d: Seq<u8>, p: int, n: nat, m: nat)
    requires
        n <= m,
        read_embeddeds(d, p, n).0 is Err,
    ensures
        read_embeddeds(d, p, m) == read_embeddeds(d, p, n),
    decreases m,
{
    if n < m {
        lemma_embeddeds_fail(d, p, n, (m - 1) as nat);
    }
}

/// The field definitions that embedded ones stand for; the first that has an
/// unknown type code is the fault.
pub open spec fn all_defs(fields: Seq<EmbeddedFieldView>) -> Result<Seq<FieldDefView>, Fault>
    decreases fields.len(),
{
    if fields.len() == 0 {
        Ok(Seq::empty())
    } else {
        match all_defs(fields.drop_last()) {
            Err(f) => Err(f),
            Ok(before) => match fields.last().def() {
                Err(f) => Err(f),
                Ok(def) => Ok(before.push(def)),
            },
        }
    }
}

/// A failure among the first fields is the failure of all of them.
proof fn lemma_all_defs_fail(fields: Seq<EmbeddedFieldView>, n: int)
    requires
        0 <= n <= fields.len(),
        all_defs(fields.take(n)) is Err,
    ensures
        all_defs(fields) == all_defs(fields.take(n)),
    decreases fields.len(),
{
    if n < fields.len() {
        assert(fields.drop_last().take(n) =~= fields.take(n));
        lemma_all_defs_fail(fields.drop_last(), n);
    } else {
        assert(fields.take(n) =~= fields);
    }
}

/// The description of a type that is not in the base schema: a name, a
/// description and `count` embedded fields. The type is variable when its last
/// field is marked so.
pub open spec fn read_type(d: Seq<u8>, p: int, node_type: i16, count: nat) -> (
    Result<TypeDefView, Fault>,
    int,
) {
    match crate::xt::reader::read_str_u8(d, p) {
        (Err(f), q) => (Err(f), q),
        (Ok(node_name), p1) => match crate::xt::reader::read_str_u8(d, p1) {
            (Err(f), q) => (Err(f), q),
            (Ok(description), p2) => match read_embeddeds(d, p2, count) {
                (Err(f), q) => (Err(f), q),
                (Ok(embedded), p3) => match all_defs(embedded) {
                    Err(f) => (Err(f), p3),
                    Ok(fields) => (
                        Ok(
                            TypeDefView {
                                node_type,
                                node_name,
                                description,
                                variable: embedded.len() > 0 && embedded.last().xmt_code,
                                fields,
                            },
                        ),
                        p3,
                    ),
                },
            },
        },
    }
}

/// What a node type's schema data gives: the layout of its fields, and the
/// types known from then on.
pub open spec fn read_layout(
    d: Seq<u8>,
    p: int,
    node_type: i16,
    count: nat,
    types: Map<i16, TypeDefView>,
) -> (Result<(Seq<FieldDefView>, Map<i16, TypeDefView>), Fault>, int) {
    if types.contains_key(node_type) {
        match edited_fields(d, p, node_type, types[node_type].fields, 0, Seq::empty()) {
            (Ok(fields), q) => (Ok((fields, types)), q),
            (Err(f), q) => (Err(f), q),
        }
    } else {
        match read_type(d, p, node_type, count) {
            (Ok(t), q) => (Ok((t.fields, types.insert(node_type, t))), q),
            (Err(f), q) => (Err(f), q),
        }
    }
}

/// Apply the edits of a base layout.
fn read_edits(r: &mut Reader, node_type: i16, base: &Vec<FieldDef>) -> (v: Result<
    Vec<FieldDef>,
    XtError,
>)
    ensures
        final(r).moved(
            *old(r),
            edited_fields(
                old(r).data@,
                old(r).pos as int,
                node_type,
                crate::xt::schema::def_views(base@),
                0,
                Seq::empty(),
            ).1,
        ),
        match (
            v,
            edited_fields(
                old(r).data@,
                old(r).pos as int,
                node_type,
                crate::xt::schema::def_views(base@),
                0,
                Seq::empty(),
            ).0,
        ) {
            (Ok(a), Ok(b)) => crate::xt::schema::def_views(a@) == b,
            (Err(e), Err(f)) => e.0@ == f.text(),
            _ => false,
        },
{
    let ghost d = r.data@;
    let ghost views = crate::xt::schema::def_views(base@);
    let mut merged: Vec<FieldDef> = Vec::new();
    let mut index: usize = 0;
    assert(crate::xt::schema::def_views(merged@) =~= Seq::<FieldDefView>::empty());
    loop
        invariant
            d == old(r).data@,
            r.data@ == d,
            old(r).pos <= r.pos,
            index <= r.pos,
            views == crate::xt::schema::def_views(base@),
            edited_fields(d, old(r).pos as int, node_type, views, 0, Seq::empty())
                == edited_fields(
                d,
                r.pos as int,
                node_type,
                views,
                index as nat,
                crate::xt::schema::def_views(merged@),
            ),
        decreases d.len() - r.pos,
    {
        let b: u8 = match r.u8() {
            Ok(b) => b,
            Err(e) => {
                return Err(e);
            },
        };
        let ghost before = merged@;
        if b == 90 {
            return Ok(merged);
        } else if b == 67 {
            if index >= base.len() {
                return Err(past_base_fields(node_type));
            }
            let f = base[index].clone();
            merged.push(f);
            assert(crate::xt::schema::def_views(merged@) =~= crate::xt::schema::def_views(
                before,
            ).push(f@));
            index += 1;
        } else if b == 68 {
            index += 1;
        } else if b == 73 || b == 65 {
            proof {
                lemma_embedded_end(d, r.pos as int);
            }
            let mut e = match parse_embedded_field(r) {
                Ok(e) => e,
                Err(e) => {
                    return Err(e);
                },
            };
            // Inserted counts are stored one too high when above two.
            if b == 73 && e.n_elements > 2 {
                e.n_elements = e.n_elements - 1;
            }
            let def = match e.to_field_def() {
                Ok(f) => f,
                Err(e) => {
                    return Err(e);
                },
            };
            merged.push(def);
            assert(crate::xt::schema::def_views(merged@) =~= crate::xt::schema::def_views(
                before,
            ).push(def@));
        } else {
            return Err(unknown_edit(b as char));
        }
    }
}

/// The contents of each embedded field.
pub open spec fn embedded_views(fields: Seq<EmbeddedField>) -> Seq<EmbeddedFieldView> {
    fields.map_values(|f: EmbeddedField| f@)
}

/// Read `count` embedded fields.
fn read_embedded_fields(r: &mut Reader, count: usize) -> (v: Result<Vec<EmbeddedField>, XtError>)
    ensures
        final(r).moved(
            *old(r),
            read_embeddeds(old(r).data@, old(r).pos as int, count as nat).1,
        ),
        match (v, read_embeddeds(old(r).data@, old(r).pos as int, count as nat).0) {
            (Ok(a), Ok(b)) => embedded_views(a@) == b,
            (Err(e), Err(f)) => e.0@ == f.text(),
            _ => false,
        },
{
    let ghost d = r.data@;
    let ghost p = r.pos as int;
    let mut out: Vec<EmbeddedField> = Vec::new();
    let mut i: usize = 0;
    assert(embedded_views(out@) =~= Seq::<EmbeddedFieldView>::empty());
    while i < count
        invariant
            i <= count,
            d == old(r).data@,
            p == old(r).pos,
            r.data@ == d,
            read_embeddeds(d, p, i as nat) == (
                Ok::<Seq<EmbeddedFieldView>, Fault>(embedded_views(out@)),
                r.pos as int,
            ),
        decreases count - i,
    {
        match parse_embedded_field(r) {
            Ok(e) => {
                let ghost before = out@;
                out.push(e);
                assert(embedded_views(out@) =~= embedded_views(before).push(e@));
            },
            Err(e) => {
                proof {
                    lemma_embeddeds_fail(d, p, (i + 1) as nat, count as nat);
                }
                return Err(e);
            },
        }
        i += 1;
    }
    Ok(out)
}

/// The field definitions that embedded ones stand for.
fn field_defs(fields: &Vec<EmbeddedField>) -> (v: Result<Vec<FieldDef>, XtError>)
    ensures
        match (v, all_defs(embedded_views(fields@))) {
            (Ok(a), Ok(b)) => crate::xt::schema::def_views(a@) == b,
            (Err(e), Err(f)) => e.0@ == f.text(),
            _ => false,
        },
{
    let ghost views = embedded_views(fields@);
    let mut out: Vec<FieldDef> = Vec::new();
    let mut i: usize = 0;
    assert(crate::xt::schema::def_views(out@) =~= Seq::<FieldDefView>::empty());
    while i < fields.len()
        invariant
            i <= fields@.len(),
            views == embedded_views(fields@),
            all_defs(views.take(i as int)) == Ok::<Seq<FieldDefView>, Fault>(
                crate::xt::schema::def_views(out@),
            ),
        decreases fields@.len() - i,
    {
        proof {
            assert(views.take(i + 1).drop_last() =~= views.take(i as int));
            assert(views.take(i + 1).last() == fields@[i as int]@);
        }
        match fields[i].to_field_def() {
            Ok(f) => {
                let ghost before = out@;
                out.push(f);
                assert(crate::xt::schema::def_views(out@) =~= crate::xt::schema::def_views(
                    before,
                ).push(f@));
            },
            Err(e) => {
                proof {
                    lemma_all_defs_fail(views, i + 1);
                }
                return Err(e);
            },
        }
        i += 1;
    }
    assert(views.take(i as int) =~= views);
    Ok(out)
}

/// Resolve a node type's field layout from embedded schema data: delta
/// instructions against the base layout, or a full embedded schema for a type
/// the base schema doesn't know.
pub fn resolve_node_schema(
    r: &mut Reader,
    node_type: i16,
    field_count: u8,
    types: &mut Types,
) -> (v: Result<Vec<FieldDef>, XtError>)
    ensures
        final(r).moved(
            *old(r),
            read_layout(
                old(r).data@,
                old(r).pos as int,
                node_type,
                field_count as nat,
                old(types)@,
            ).1,
        ),
        final(types).base == old(types).base,
        match (
            v,
            read_layout(
                old(r).data@,
                old(r).pos as int,
                node_type,
                field_count as nat,
                old(types)@,
            ).0,
        ) {
            (Ok(a), Ok(b)) => crate::xt::schema::def_views(a@) == b.0 && final(types)@ == b.1,
            (Err(e), Err(f)) => e.0@ == f.text() && final(types)@ == old(types)@,
            _ => false,
        },
{
    if let Some(base) = types.get(node_type) {
        return read_edits(r, node_type, &base.fields);
    }
    let node_name = match r.str_u8_len() {
        Ok(v) => v,
        Err(e) => {
            return Err(e);
        },
    };
    let description = match r.str_u8_len() {
        Ok(v) => v,
        Err(e) => {
            return Err(e);
        },
    };
    let embedded = match read_embedded_fields(r, field_count as usize) {
        Ok(v) => v,
        Err(e) => {
            return Err(e);
        },
    };
    let fields = match field_defs(&embedded) {
        Ok(v) => v,
        Err(e) => {
            return Err(e);
        },
    };
    let variable = embedded.len() > 0 && embedded[embedded.len() - 1].xmt_code;
    let copy = clone_defs(&fields);
    types.insert(
        node_type,
        TypeDef { node_type, node_name, description, variable, fields: copy },
    );
    Ok(fields)
}

/// The first `n` of a node's fields. The last field of a variable-length type
/// repeats `repeat` times.
pub open spec fn read_node_fields(
    d: Seq<u8>,
    p: int,
    layout: Seq<FieldDefView>,
    variable: bool,
    repeat: int,
    n: nat,
) -> (Result<Seq<(Seq<char>, ValueView)>, Fault>, int)
    decreases n,
{
    if n == 0 {
        (Ok(Seq::empty()), p)
    } else {
        match read_node_fields(d, p, layout, variable, repeat, (n - 1) as nat) {
            (Err(f), q) => (Err(f), q),
            (Ok(before), q) => {
                let def = layout[n - 1];
                let count = if variable && n == layout.len() {
                    repeat
                } else {
                    1
                };
                match crate::xt::schema::read_field(def, d, q, count) {
                    (Err(f), q2) => (Err(f), q2),
                    (Ok(v), q2) => (Ok(before.push((def.name, v))), q2),
                }
            },
        }
    }
}

/// A failure among the first fields is the failure of all of them.
proof fn lemma_node_fields_fail(
    d: Seq<u8>,
    p: int,
    layout: Seq<FieldDefView>,
    variable: bool,
    repeat: int,
    n: nat,
    m: nat,
)
    requires
        n <= m,
        read_node_fields(d, p, layout, variable, repeat, n).0 is Err,
    ensures
        read_node_fields(d, p, layout, variable, repeat, m) == read_node_fields(
            d,
            p,
            layout,
            variable,
            repeat,
            n,
        ),
    decreases m,
{
    if n < m {
        lemma_node_fields_fail(d, p, layout, variable, repeat, n, (m - 1) as nat);
    }
}

/// How far a transmit has been read: the offset of the next node record, the
/// types known, and the layouts of the node types met so far.
#[verifier::ext_equal]
pub struct Progress {
    pub pos: int,
    pub types: Map<i16, TypeDefView>,
    pub layouts: Map<i16, Seq<FieldDefView>>,
}

/// The schema data of a node type, which stands behind its first occurrence:
/// a field count, where 255 stands for the base layout.
pub open spec fn read_first_use(d: Seq<u8>, st: Progress, p: int, node_type: i16) -> Result<
    Progress,
    Fault,
> {
    if st.layouts.contains_key(node_type) {
        Ok(Progress { pos: p, ..st })
    } else {
        match crate::xt::reader::read_u8(d, p) {
            (Err(f), _) => Err(f),
            (Ok(count), p1) => if count == 255 {
                if st.types.contains_key(node_type) {
                    Ok(
                        Progress {
                            pos: p1,
                            types: st.types,
                            layouts: st.layouts.insert(node_type, st.types[node_type].fields),
                        },
                    )
                } else {
                    Err(Fault::NotInBase { node_type: node_type as int })
                }
            } else {
                match read_layout(d, p1, node_type, count as nat, st.types) {
                    (Err(f), _) => Err(f),
                    (Ok((fields, types)), p2) => Ok(
                        Progress {
                            pos: p2,
                            types,
                            layouts: st.layouts.insert(node_type, fields),
                        },
                    ),
                }
            },
        }
    }
}

/// The payload of a node: its repeat count where the type is of variable
/// length, its id, and its fields.
pub open spec fn read_payload(
    d: Seq<u8>,
    p: int,
    def: TypeDefView,
    node_type: i16,
    layout: Seq<FieldDefView>,
) -> (Result<NodeView, Fault>, int) {
    let count: (Result<i32, Fault>, int) = if def.variable {
        crate::xt::reader::read_i32(d, p)
    } else {
        (Ok(0), p)
    };
    match count {
        (Err(f), q) => (Err(f), q),
        (Ok(repeat), p1) => match crate::xt::reader::read_i16_raw(d, p1) {
            (Err(f), q) => (Err(f), q),
            (Ok(id), p2) => match read_node_fields(
                d,
                p2,
                layout,
                def.variable,
                repeat as int,
                layout.len(),
            ) {
                (Err(f), q) => (Err(f), q),
                (Ok(fields), q) => (
                    Ok(
                        NodeView {
                            node_type,
                            name: def.node_name,
                            id,
                            count: if def.variable {
                                Some(repeat)
                            } else {
                                None
                            },
                            fields,
                        },
                    ),
                    q,
                ),
            },
        },
    }
}

/// What a node record is: the end of the transmit, or a node and what is known
/// behind it.
pub enum Record {
    End,
    Node { node: NodeView, next: Progress },
}

/// The node record at `st.pos`. Type 1 is the terminator: one more number,
/// behind which nothing may stand.
pub open spec fn read_record(d: Seq<u8>, st: Progress, max_type: i16) -> Result<Record, Fault> {
    match crate::xt::reader::read_i16_raw(d, st.pos) {
        (Err(f), _) => Err(f),
        (Ok(node_type), p1) => if node_type == 1 {
            match crate::xt::reader::read_i16_raw(d, p1) {
                (Err(f), _) => Err(f),
                (Ok(_), p2) => if p2 < d.len() {
                    Err(Fault::TrailingBytes { left: d.len() - p2 })
                } else {
                    Ok(Record::End)
                },
            }
        } else if node_type > max_type {
            Err(Fault::TypeTooLarge { node_type: node_type as int, max: max_type as int })
        } else {
            match read_first_use(d, st, p1, node_type) {
                Err(f) => Err(f),
                Ok(known) => match read_payload(
                    d,
                    known.pos,
                    known.types[node_type],
                    node_type,
                    known.layouts[node_type],
                ) {
                    (Err(f), _) => Err(f),
                    (Ok(node), q) => Ok(
                        Record::Node { node, next: Progress { pos: q, ..known } },
                    ),
                },
            }
        },
    }
}

/// The nodes from `st.pos` to the terminator, behind those in `before`.
pub open spec fn nodes_from(
    d: Seq<u8>,
    st: Progress,
    max_type: i16,
    before: Seq<NodeView>,
) -> Result<Seq<NodeView>, Fault>
    decreases d.len() - st.pos,
    when 0 <= st.pos <= d.len()
    via nodes_from_decreases
{
    match read_record(d, st, max_type) {
        Err(f) => Err(f),
        Ok(Record::End) => Ok(before),
        Ok(Record::Node { node, next }) => nodes_from(d, next, max_type, before.push(node)),
    }
}

#[via_fn]
proof fn nodes_from_decreases(
    d: Seq<u8>,
    st: Progress,
    max_type: i16,
    before: Seq<NodeView>,
) {
    lemma_record_advances(d, st, max_type);
}

/// Numbers in a row end inside the bytes.
proof fn lemma_reals_end(d: Seq<u8>, p: int, n: nat)
    requires
        0 <= p <= d.len(),
    ensures
        p <= crate::xt::reader::read_reals(d, p, n).1 <= d.len(),
    decreases n,
{
    if n > 0 {
        lemma_reals_end(d, p, (n - 1) as nat);
    }
}

/// One element of a field ends inside the bytes.
proof fn lemma_scalar_end(ft: crate::xt::schema::FieldType, d: Seq<u8>, p: int)
    requires
        0 <= p <= d.len(),
    ensures
        p <= crate::xt::schema::read_scalar(ft, d, p).1 <= d.len(),
{
    lemma_reals_end(d, p, 2);
    lemma_reals_end(d, p, 3);
    let (a, q) = crate::xt::reader::read_reals(d, p, 2);
    lemma_reals_end(d, q, 2);
    let (b, q2) = crate::xt::reader::read_reals(d, q, 2);
    lemma_reals_end(d, q2, 2);
}

/// Elements in a row end inside the bytes.
proof fn lemma_items_end(ft: crate::xt::schema::FieldType, n: nat, d: Seq<u8>, p: int)
    requires
        0 <= p <= d.len(),
    ensures
        p <= crate::xt::schema::read_items(ft, n, d, p).1 <= d.len(),
    decreases n,
{
    if n > 0 {
        lemma_items_end(ft, (n - 1) as nat, d, p);
        lemma_scalar_end(ft, d, crate::xt::schema::read_items(ft, (n - 1) as nat, d, p).1);
    }
}

/// A field ends inside the bytes.
proof fn lemma_field_end(def: FieldDefView, d: Seq<u8>, p: int, count: int)
    requires
        0 <= p <= d.len(),
    ensures
        p <= crate::xt::schema::read_field(def, d, p, count).1 <= d.len(),
{
    lemma_scalar_end(def.field_type, d, p);
    let n = if count > 1 {
        count
    } else {
        def.n_elements as int
    };
    if n > 1 {
        lemma_items_end(def.field_type, n as nat, d, p);
    }
}

/// The fields of a node end inside the bytes.
proof fn lemma_node_fields_end(
    d: Seq<u8>,
    p: int,
    layout: Seq<FieldDefView>,
    variable: bool,
    repeat: int,
    n: nat,
)
    requires
        0 <= p <= d.len(),
    ensures
        p <= read_node_fields(d, p, layout, variable, repeat, n).1 <= d.len(),
    decreases n,
{
    if n > 0 {
        lemma_node_fields_end(d, p, layout, variable, repeat, (n - 1) as nat);
        let q = read_node_fields(d, p, layout, variable, repeat, (n - 1) as nat).1;
        let count = if variable && n == layout.len() {
            repeat
        } else {
            1
        };
        lemma_field_end(layout[n - 1], d, q, count);
    }
}

/// Edits of a base layout end inside the bytes.
proof fn lemma_edited_end(
    d: Seq<u8>,
    p: int,
    node_type: i16,
    base: Seq<FieldDefView>,
    index: nat,
    merged: Seq<FieldDefView>,
)
    requires
        0 <= p <= d.len(),
    ensures
        p <= edited_fields(d, p, node_type, base, index, merged).1 <= d.len(),
    decreases d.len() - p,
{
    match crate::xt::reader::read_u8(d, p) {
        (Err(f), q) => {},
        (Ok(b), q) => {
            if b == 67 {
                if index < base.len() {
                    lemma_edited_end(
                        d,
                        q,
                        node_type,
                        base,
                        index + 1,
                        merged.push(base[index as int]),
                    );
                }
            } else if b == 68 {
                lemma_edited_end(d, q, node_type, base, index + 1, merged);
            } else if b == 73 || b == 65 {
                lemma_embedded_end(d, q);
                if let (Ok(f), q2) = crate::xt::schema::read_embedded(d, q) {
                    let g = if b == 73 {
                        inserted(f)
                    } else {
                        f
                    };
                    if let Ok(def) = g.def() {
                        lemma_edited_end(d, q2, node_type, base, index, merged.push(def));
                    }
                }
            }
        },
    }
}

/// Embedded field definitions end inside the bytes.
proof fn lemma_embeddeds_end(d: Seq<u8>, p: int, n: nat)
    requires
        0 <= p <= d.len(),
    ensures
        p <= read_embeddeds(d, p, n).1 <= d.len(),
    decreases n,
{
    if n > 0 {
        lemma_embeddeds_end(d, p, (n - 1) as nat);
        lemma_embedded_end(d, read_embeddeds(d, p, (n - 1) as nat).1);
    }
}

/// Schema data ends inside the bytes.
proof fn lemma_layout_end(
    d: Seq<u8>,
    p: int,
    node_type: i16,
    count: nat,
    types: Map<i16, TypeDefView>,
)
    requires
        0 <= p <= d.len(),
    ensures
        p <= read_layout(d, p, node_type, count, types).1 <= d.len(),
{
    if types.contains_key(node_type) {
        lemma_edited_end(d, p, node_type, types[node_type].fields, 0, Seq::empty());
    } else {
        if let (Ok(_), p1) = crate::xt::reader::read_str_u8(d, p) {
            if let (Ok(_), p2) = crate::xt::reader::read_str_u8(d, p1) {
                lemma_embeddeds_end(d, p2, count);
            }
        }
    }
}

/// A node record takes up some bytes, and ends inside the transmit.
proof fn lemma_record_advances(d: Seq<u8>, st: Progress, max_type: i16)
    requires
        0 <= st.pos <= d.len(),
    ensures
        read_record(d, st, max_type) matches Ok(Record::Node { node, next }) ==> st.pos < next.pos
            <= d.len(),
{
    if let (Ok(node_type), p1) = crate::xt::reader::read_i16_raw(d, st.pos) {
        if let (Ok(count), p2) = crate::xt::reader::read_u8(d, p1) {
            lemma_layout_end(d, p2, node_type, count as nat, st.types);
        }
        if let Ok(known) = read_first_use(d, st, p1, node_type) {
            assert(p1 <= known.pos <= d.len());
            let def = known.types[node_type];
            let layout = known.layouts[node_type];
            let p3 = if def.variable {
                crate::xt::reader::read_i32(d, known.pos).1
            } else {
                known.pos
            };
            let repeat = if def.variable {
                crate::xt::reader::read_i32(d, known.pos).0->Ok_0 as int
            } else {
                0
            };
            let p4 = crate::xt::reader::read_i16_raw(d, p3).1;
            lemma_node_fields_end(d, p4, layout, def.variable, repeat, layout.len());
        }
    }
}

/// A parsed transmit: the file header fields plus every decoded node.
pub struct Document {
    pub modeler_version: String,
    pub schema_name: String,
    pub schema_min_type: i16,
    pub schema_max_type: i16,
    pub nodes: Vec<Node>,
}

/// The contents of a parsed transmit.
#[verifier::ext_equal]
pub struct DocumentView {
    pub modeler_version: Seq<char>,
    pub schema_name: Seq<char>,
    pub schema_min_type: i16,
    pub schema_max_type: i16,
    pub nodes: Seq<NodeView>,
}

impl View for Document {
    type V = DocumentView;

    open spec fn view(&self) -> DocumentView {
        DocumentView {
            modeler_version: self.modeler_version@,
            schema_name: self.schema_name@,
            schema_min_type: self.schema_min_type,
            schema_max_type: self.schema_max_type,
            nodes: crate::value::node_views(self.nodes@),
        }
    }
}

/// The transmit that `d` holds, read with a base schema of that name and those
/// types.
pub open spec fn document(
    d: Seq<u8>,
    base_name: Seq<char>,
    base_types: Map<i16, TypeDefView>,
) -> Result<DocumentView, Fault> {
    match read_header(d, 0) {
        (Err(f), _) => Err(f),
        (Ok((version, schema, min, max)), p) => if !crate::text::has_tail(schema, base_name) {
            Err(Fault::SchemaMismatch { found: schema, base: base_name })
        } else {
            let start = Progress { pos: p, types: base_types, layouts: Map::empty() };
            match nodes_from(d, start, max, Seq::empty()) {
                Err(f) => Err(f),
                Ok(nodes) => Ok(
                    DocumentView {
                        modeler_version: version,
                        schema_name: schema,
                        schema_min_type: min,
                        schema_max_type: max,
                        nodes,
                    },
                ),
            }
        },
    }
}

/// The contents of each layout.
pub open spec fn layout_views(layouts: Map<i16, Vec<FieldDef>>) -> Map<i16, Seq<FieldDefView>> {
    layouts.map_values(|v: Vec<FieldDef>| crate::xt::schema::def_views(v@))
}

/// The header ends inside the bytes.
proof fn lemma_header_end(d: Seq<u8>)
    ensures
        read_header(d, 0).0 is Ok ==> 0 <= read_header(d, 0).1 <= d.len(),
{
}

/// Read a node type's schema data where it occurs for the first time.
fn first_use(
    r: &mut Reader,
    node_type: i16,
    types: &mut Types,
    layouts: &mut HashMap<i16, Vec<FieldDef>>,
) -> (v: Result<(), XtError>)
    requires
        old(r).pos <= old(r).data@.len(),
        forall|t: i16| #[trigger]
            old(layouts)@.contains_key(t) ==> old(types)@.contains_key(t),
    ensures
        final(r).data@ == old(r).data@,
        old(r).pos <= final(r).pos <= final(r).data@.len(),
        final(types).base == old(types).base,
        ({
            let st = Progress {
                pos: old(r).pos as int,
                types: old(types)@,
                layouts: layout_views(old(layouts)@),
            };
            match (v, read_first_use(old(r).data@, st, old(r).pos as int, node_type)) {
                (Ok(_), Ok(known)) => {
                    &&& known.pos == final(r).pos
                    &&& known.types == final(types)@
                    &&& known.layouts == layout_views(final(layouts)@)
                    &&& final(types)@.contains_key(node_type)
                    &&& final(layouts)@.contains_key(node_type)
                    &&& forall|t: i16| #[trigger]
                        final(layouts)@.contains_key(t) ==> final(types)@.contains_key(t)
                },
                (Err(e), Err(f)) => e.0@ == f.text(),
                _ => false,
            }
        }),
{
    if layouts.contains_key(&node_type) {
        return Ok(());
    }
    let field_count: u8 = match r.u8() {
        Ok(v) => v,
        Err(e) => {
            return Err(e);
        },
    };
    let fields = if field_count == 255 {
        match types.get(node_type) {
            Some(t) => clone_defs(&t.fields),
            None => {
                return Err(not_in_base(node_type));
            },
        }
    } else {
        proof {
            lemma_layout_end(r.data@, r.pos as int, node_type, field_count as nat, types@);
        }
        match resolve_node_schema(r, node_type, field_count, types) {
            Ok(v) => v,
            Err(e) => {
                return Err(e);
            },
        }
    };
    let ghost before = layouts@;
    layouts.insert(node_type, fields);
    assert(layout_views(layouts@) =~= layout_views(before).insert(
        node_type,
        crate::xt::schema::def_views(fields@),
    ));
    Ok(())
}

/// Read a node's fields by its layout.
fn node_fields(
    r: &mut Reader,
    layout: &Vec<FieldDef>,
    variable: bool,
    repeat: i32,
) -> (v: Result<Vec<(String, Value)>, XtError>)
    ensures
        final(r).moved(
            *old(r),
            read_node_fields(
                old(r).data@,
                old(r).pos as int,
                crate::xt::schema::def_views(layout@),
                variable,
                repeat as int,
                layout@.len(),
            ).1,
        ),
        match (
            v,
            read_node_fields(
                old(r).data@,
                old(r).pos as int,
                crate::xt::schema::def_views(layout@),
                variable,
                repeat as int,
                layout@.len(),
            ).0,
        ) {
            (Ok(a), Ok(b)) => crate::value::field_views(a@) == b,
            (Err(e), Err(f)) => e.0@ == f.text(),
            _ => false,
        },
{
    let ghost d = r.data@;
    let ghost p = r.pos as int;
    let ghost views = crate::xt::schema::def_views(layout@);
    let mut fields: Vec<(String, Value)> = Vec::with_capacity(layout.len());
    let mut i: usize = 0;
    assert(crate::value::field_views(fields@) =~= Seq::<(Seq<char>, ValueView)>::empty());
    while i < layout.len()
        invariant
            i <= layout@.len(),
            d == old(r).data@,
            p == old(r).pos,
            r.data@ == d,
            views == crate::xt::schema::def_views(layout@),
            read_node_fields(d, p, views, variable, repeat as int, i as nat) == (
                Ok::<Seq<(Seq<char>, ValueView)>, Fault>(crate::value::field_views(fields@)),
                r.pos as int,
            ),
        decreases layout@.len() - i,
    {
        let def = &layout[i];
        assert(views[i as int] == def@);
        let count: i32 = if variable && i + 1 == layout.len() {
            repeat
        } else {
            1
        };
        match def.read(r, count) {
            Ok(v) => {
                let ghost before = fields@;
                let name = def.name.clone();
                let ghost pair = (name, v);
                fields.push((name, v));
                assert(crate::value::field_views(fields@) =~= crate::value::field_views(
                    before,
                ).push((pair.0@, pair.1@)));
            },
            Err(e) => {
                proof {
                    lemma_node_fields_fail(
                        d,
                        p,
                        views,
                        variable,
                        repeat as int,
                        (i + 1) as nat,
                        layout@.len(),
                    );
                }
                return Err(e);
            },
        }
        i += 1;
    }
    Ok(fields)
}

/// Read a node's payload.
fn payload(
    r: &mut Reader,
    def: &TypeDef,
    node_type: i16,
    layout: &Vec<FieldDef>,
) -> (v: Result<Node, XtError>)
    ensures
        final(r).moved(
            *old(r),
            read_payload(
                old(r).data@,
                old(r).pos as int,
                def@,
                node_type,
                crate::xt::schema::def_views(layout@),
            ).1,
        ),
        agrees(
            v,
            read_payload(
                old(r).data@,
                old(r).pos as int,
                def@,
                node_type,
                crate::xt::schema::def_views(layout@),
            ).0,
        ),
{
    let variable = def.variable;
    let mut count: Option<i32> = None;
    let mut repeat: i32 = 0;
    if variable {
        repeat = match r.i32() {
            Ok(v) => v,
            Err(e) => {
                return Err(e);
            },
        };
        count = Some(repeat);
    }
    let id: i16 = match r.i16_raw() {
        Ok(v) => v,
        Err(e) => {
            return Err(e);
        },
    };
    match node_fields(r, layout, variable, repeat) {
        Ok(fields) => Ok(Node { node_type, name: def.node_name.clone(), id, count, fields }),
        Err(e) => Err(e),
    }
}

/// Parse a whole transmit: header, node records, terminator.
pub fn read_document(blob: &[u8], base: &BaseSchema) -> (v: Result<Document, XtError>)
    ensures
        agrees(
            v,
            document(blob@, base.name@, crate::xt::schema::type_views(base.types@)),
        ),
{
    let mut r = Reader::new(blob);
    let (modeler_version, schema_name, schema_min_type, schema_max_type) = match parse_file_header(
        &mut r,
    ) {
        Ok(h) => h,
        Err(e) => {
            return Err(e);
        },
    };
    if !ends_in(schema_name.as_str(), base.name.as_str()) {
        return Err(schema_mismatch(schema_name.as_str(), base.name.as_str()));
    }
    let ghost d = blob@;
    let ghost start = Progress {
        pos: r.pos as int,
        types: crate::xt::schema::type_views(base.types@),
        layouts: Map::empty(),
    };
    proof {
        lemma_header_end(d);
    }
    // Embedded full schemas are per-document.
    let mut types = Types { base: &base.types, embedded: HashMap::new() };
    let mut layouts: HashMap<i16, Vec<FieldDef>> = HashMap::new();
    let mut nodes: Vec<Node> = Vec::new();
    proof {
        assert(types@ =~= start.types);
        assert(layout_views(layouts@) =~= start.layouts);
        assert(crate::value::node_views(nodes@) =~= Seq::<NodeView>::empty());
    }
    loop
        invariant
            d == blob@,
            r.data@ == d,
            r.pos <= d.len(),
            read_header(d, 0).0 == Ok::<(Seq<char>, Seq<char>, i16, i16), Fault>(
                (modeler_version@, schema_name@, schema_min_type, schema_max_type),
            ),
            crate::text::has_tail(schema_name@, base.name@),
            start == (Progress {
                pos: read_header(d, 0).1,
                types: crate::xt::schema::type_views(base.types@),
                layouts: Map::empty(),
            }),
            forall|t: i16| #[trigger] layouts@.contains_key(t) ==> types@.contains_key(t),
            nodes_from(d, start, schema_max_type, Seq::empty()) == nodes_from(
                d,
                Progress {
                    pos: r.pos as int,
                    types: types@,
                    layouts: layout_views(layouts@),
                },
                schema_max_type,
                crate::value::node_views(nodes@),
            ),
        decreases d.len() - r.pos,
    {
        let ghost st = Progress {
            pos: r.pos as int,
            types: types@,
            layouts: layout_views(layouts@),
        };
        proof {
            lemma_record_advances(d, st, schema_max_type);
        }
        let node_type: i16 = match r.i16_raw() {
            Ok(v) => v,
            Err(e) => {
                return Err(e);
            },
        };
        if node_type == 1 {
            // Partition value.
            if let Err(e) = r.i16_raw() {
                return Err(e);
            }
            if !r.eof() {
                return Err(trailing_bytes(r.remaining()));
            }
            return Ok(
                Document { modeler_version, schema_name, schema_min_type, schema_max_type, nodes },
            );
        }
        if node_type > schema_max_type {
            return Err(type_too_large(node_type, schema_max_type));
        }
        if let Err(e) = first_use(&mut r, node_type, &mut types, &mut layouts) {
            return Err(e);
        }
        let ghost known = Progress {
            pos: r.pos as int,
            types: types@,
            layouts: layout_views(layouts@),
        };
        let def = types.get(node_type).unwrap();
        let layout = layouts.get(&node_type).unwrap();
        let node = match payload(&mut r, def, node_type, layout) {
            Ok(n) => n,
            Err(e) => {
                return Err(e);
            },
        };
        let ghost before = nodes@;
        nodes.push(node);
        assert(crate::value::node_views(nodes@) =~= crate::value::node_views(before).push(node@));
        assert(read_record(d, st, schema_max_type) == Ok::<Record, Fault>(
            Record::Node { node: node@, next: Progress { pos: r.pos as int, ..known } },
        ));
    }
}

/// Decode every node record in a transmit blob.
pub fn parse_transmit(blob: &[u8], base: &BaseSchema) -> (v: Result<Vec<Node>, XtError>)
    ensures
        match (v, document(blob@, base.name@, crate::xt::schema::type_views(base.types@))) {
            (Ok(nodes), Ok(doc)) => crate::value::node_views(nodes@) == doc.nodes,
            (Err(e), Err(f)) => e.0@ == f.text(),
            _ => false,
        },
{
    match read_document(blob, base) {
        Ok(doc) => Ok(doc.nodes),
        Err(e) => Err(e),
    }
}

} // verus!
