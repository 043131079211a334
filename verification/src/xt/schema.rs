//! Parasolid XT schema: the base schema text plus embedded (delta and full)
//! schema definitions.

use std::collections::HashMap;

use vstd::prelude::*;

use crate::bytes::{find, read_number, scan_run, starts_with_at, Class};
use crate::text::{latin1_string, same_text, utf8_text};
use crate::value::{lemma_array_view, Value, ValueView};
use crate::xt::fault::{agrees, bad_field_type, Fault, XtError};
use crate::xt::reader::Reader;

verus! {

broadcast use vstd::std_specs::hash::group_hash_axioms;

/// Field type codes, as they appear in schema text and embedded field defs.
#[derive(Debug, Clone, Copy, PartialEq, Eq, Structural)]
pub enum FieldType {
    U8,
    Char,
    Logical,
    I16,
    Utf16,
    I32,
    Pointer,
    F64,
    Interval,
    Vector,
    Box,
    /// `h`: a vector, distinguished only by name in the schema.
    H,
}

/// The field type that a code stands for.
pub open spec fn type_of_code(code: Seq<char>) -> Option<FieldType> {
    if code == "u"@ {
        Some(FieldType::U8)
    } else if code == "c"@ {
        Some(FieldType::Char)
    } else if code == "l"@ {
        Some(FieldType::Logical)
    } else if code == "n"@ {
        Some(FieldType::I16)
    } else if code == "w"@ {
        Some(FieldType::Utf16)
    } else if code == "d"@ {
        Some(FieldType::I32)
    } else if code == "p"@ {
        Some(FieldType::Pointer)
    } else if code == "f"@ {
        Some(FieldType::F64)
    } else if code == "i"@ {
        Some(FieldType::Interval)
    } else if code == "v"@ {
        Some(FieldType::Vector)
    } else if code == "b"@ {
        Some(FieldType::Box)
    } else if code == "h"@ {
        Some(FieldType::H)
    } else {
        None
    }
}

impl FieldType {
    pub fn from_code(code: &str) -> (r: Option<FieldType>)
        ensures
            r == type_of_code(code@),
    {
        if same_text(code, "u") {
            Some(FieldType::U8)
        } else if same_text(code, "c") {
            Some(FieldType::Char)
        } else if same_text(code, "l") {
            Some(FieldType::Logical)
        } else if same_text(code, "n") {
            Some(FieldType::I16)
        } else if same_text(code, "w") {
            Some(FieldType::Utf16)
        } else if same_text(code, "d") {
            Some(FieldType::I32)
        } else if same_text(code, "p") {
            Some(FieldType::Pointer)
        } else if same_text(code, "f") {
            Some(FieldType::F64)
        } else if same_text(code, "i") {
            Some(FieldType::Interval)
        } else if same_text(code, "v") {
            Some(FieldType::Vector)
        } else if same_text(code, "b") {
            Some(FieldType::Box)
        } else if same_text(code, "h") {
            Some(FieldType::H)
        } else {
            None
        }
    }
}

/// One transmitted schema field with decode metadata.
#[derive(Debug)]
pub struct FieldDef {
    pub name: String,
    pub field_type: FieldType,
    pub node_class: i32,
    pub n_elements: i32,
}

/// The contents of a field definition.
#[verifier::ext_equal]
pub struct FieldDefView {
    pub name: Seq<char>,
    pub field_type: FieldType,
    pub node_class: i32,
    pub n_elements: i32,
}

impl View for FieldDef {
    type V = FieldDefView;

    open spec fn view(&self) -> FieldDefView {
        FieldDefView {
            name: self.name@,
            field_type: self.field_type,
            node_class: self.node_class,
            n_elements: self.n_elements,
        }
    }
}

impl Clone for FieldDef {
    fn clone(&self) -> (r: Self)
        ensures
            r@ == self@,
    {
        FieldDef {
            name: self.name.clone(),
            field_type: self.field_type,
            node_class: self.node_class,
            n_elements: self.n_elements,
        }
    }
}

/// The contents of each field definition.
pub open spec fn def_views(fields: Seq<FieldDef>) -> Seq<FieldDefView> {
    fields.map_values(|f: FieldDef| f@)
}

/// Copy field definitions.
pub fn clone_defs(fields: &Vec<FieldDef>) -> (r: Vec<FieldDef>)
    ensures
        def_views(r@) == def_views(fields@),
{
    let mut out: Vec<FieldDef> = Vec::new();
    let mut i: usize = 0;
    while i < fields.len()
        invariant
            i <= fields@.len(),
            def_views(out@) == def_views(fields@).take(i as int),
        decreases fields@.len() - i,
    {
        let f = fields[i].clone();
        let ghost before = out@;
        out.push(f);
        i += 1;
        assert(def_views(out@) =~= def_views(before).push(f@));
        assert(def_views(out@) =~= def_views(fields@).take(i as int));
    }
    assert(def_views(out@) =~= def_views(fields@));
    out
}

/// A value read into one of several kinds.
pub open spec fn wrapped<T>(
    r: (Result<T, Fault>, int),
    wrap: spec_fn(T) -> ValueView,
) -> (Result<ValueView, Fault>, int) {
    match r {
        (Ok(v), q) => (Ok(wrap(v)), q),
        (Err(f), q) => (Err(f), q),
    }
}

/// One element of a field.
pub open spec fn read_scalar(ft: FieldType, d: Seq<u8>, p: int) -> (
    Result<ValueView, Fault>,
    int,
) {
    match ft {
        FieldType::U8 => wrapped(crate::xt::reader::read_u8(d, p), |v: u8| ValueView::U8(v)),
        FieldType::Char => wrapped(
            crate::xt::reader::read_chars(d, p, 1),
            |v: Seq<char>| ValueView::Char(v),
        ),
        FieldType::Logical => wrapped(
            crate::xt::reader::read_bool(d, p),
            |v: bool| ValueView::Bool(v),
        ),
        FieldType::I16 => wrapped(
            crate::xt::reader::read_i16(d, p),
            |v: Option<i16>|
                match v {
                    Some(i) => ValueView::I16(i),
                    None => ValueView::Null,
                },
        ),
        FieldType::Utf16 => wrapped(
            crate::xt::reader::read_utf16(d, p, 1),
            |v: Seq<char>| ValueView::Utf16(v),
        ),
        FieldType::I32 => wrapped(crate::xt::reader::read_i32(d, p), |v: i32| ValueView::I32(v)),
        FieldType::Pointer => wrapped(
            crate::xt::reader::read_pointer(d, p),
            |v: Option<i16>| ValueView::Ptr(v),
        ),
        FieldType::F64 => wrapped(
            crate::xt::reader::read_f64(d, p),
            |v: Option<u64>|
                match v {
                    Some(x) => ValueView::F64(x),
                    None => ValueView::Null,
                },
        ),
        FieldType::Interval => wrapped(
            crate::xt::reader::read_reals(d, p, 2),
            |v: Seq<u64>| ValueView::Interval(v),
        ),
        FieldType::Vector => wrapped(
            crate::xt::reader::read_reals(d, p, 3),
            |v: Seq<u64>| ValueView::Vec3(v),
        ),
        FieldType::H => wrapped(
            crate::xt::reader::read_reals(d, p, 3),
            |v: Seq<u64>| ValueView::Vec3(v),
        ),
        FieldType::Box => wrapped(
            crate::xt::reader::read_box(d, p),
            |v: Seq<Seq<u64>>| ValueView::Box3(v),
        ),
    }
}

/// `n` elements in a row.
pub open spec fn read_items(ft: FieldType, n: nat, d: Seq<u8>, p: int) -> (
    Result<Seq<ValueView>, Fault>,
    int,
)
    decreases n,
{
    if n == 0 {
        (Ok(Seq::empty()), p)
    } else {
        match read_items(ft, (n - 1) as nat, d, p) {
            (Ok(before), q) => match read_scalar(ft, d, q) {
                (Ok(v), q2) => (Ok(before.push(v)), q2),
                (Err(f), q2) => (Err(f), q2),
            },
            (Err(f), q) => (Err(f), q),
        }
    }
}

/// A failure among the first elements is the failure of all of them.
proof fn lemma_items_fail(ft: FieldType, n: nat, m: nat, d: Seq<u8>, p: int)
    requires
        n <= m,
        read_items(ft, n, d, p).0 is Err,
    ensures
        read_items(ft, m, d, p) == read_items(ft, n, d, p),
    decreases m,
{
    if n < m {
        lemma_items_fail(ft, n, (m - 1) as nat, d, p);
    }
}

/// The value of a field: one element, or as many as `count` asks for (where it
/// is more than one) or else the definition. Several characters are one text.
pub open spec fn read_field(def: FieldDefView, d: Seq<u8>, p: int, count: int) -> (
    Result<ValueView, Fault>,
    int,
) {
    let n = if count > 1 {
        count
    } else {
        def.n_elements as int
    };
    if n > 1 {
        match def.field_type {
            FieldType::Char => wrapped(
                crate::xt::reader::read_chars(d, p, n),
                |v: Seq<char>| ValueView::Char(v),
            ),
            FieldType::Utf16 => wrapped(
                crate::xt::reader::read_utf16(d, p, n),
                |v: Seq<char>| ValueView::Utf16(v),
            ),
            _ => wrapped(
                read_items(def.field_type, n as nat, d, p),
                |v: Seq<ValueView>| ValueView::Array(v),
            ),
        }
    } else {
        read_scalar(def.field_type, d, p)
    }
}

impl FieldDef {
    fn read_one(&self, r: &mut Reader) -> (v: Result<Value, XtError>)
        ensures
            final(r).moved(
                *old(r),
                read_scalar(self.field_type, old(r).data@, old(r).pos as int).1,
            ),
            agrees(v, read_scalar(self.field_type, old(r).data@, old(r).pos as int).0),
    {
        match self.field_type {
            FieldType::U8 => match r.u8() {
                Ok(v) => Ok(Value::U8(v)),
                Err(e) => Err(e),
            },
            FieldType::Char => match r.char(1) {
                Ok(v) => Ok(Value::Char(v)),
                Err(e) => Err(e),
            },
            FieldType::Logical => match r.bool8() {
                Ok(v) => Ok(Value::Bool(v)),
                Err(e) => Err(e),
            },
            FieldType::I16 => match r.i16() {
                Ok(Some(v)) => Ok(Value::I16(v)),
                Ok(None) => Ok(Value::Null),
                Err(e) => Err(e),
            },
            FieldType::Utf16 => match r.utf16_be(1) {
                Ok(v) => Ok(Value::Utf16(v)),
                Err(e) => Err(e),
            },
            FieldType::I32 => match r.i32() {
                Ok(v) => Ok(Value::I32(v)),
                Err(e) => Err(e),
            },
            FieldType::Pointer => match r.pointer() {
                Ok(v) => Ok(Value::Ptr(v)),
                Err(e) => Err(e),
            },
            FieldType::F64 => match r.f64_bits() {
                Ok(Some(v)) => Ok(Value::F64(v)),
                Ok(None) => Ok(Value::Null),
                Err(e) => Err(e),
            },
            FieldType::Interval => match r.interval() {
                Ok(v) => Ok(Value::Interval(v)),
                Err(e) => Err(e),
            },
            FieldType::Vector => match r.vector() {
                Ok(v) => Ok(Value::Vec3(v)),
                Err(e) => Err(e),
            },
            FieldType::H => match r.vector() {
                Ok(v) => Ok(Value::Vec3(v)),
                Err(e) => Err(e),
            },
            FieldType::Box => match r.box3() {
                Ok(v) => Ok(Value::Box3(v)),
                Err(e) => Err(e),
            },
        }
    }

    /// Decode this field. For variable-length nodes the final field passes the
    /// node's repeat count as `count_override`.
    pub fn read(&self, r: &mut Reader, count_override: i32) -> (v: Result<Value, XtError>)
        ensures
            final(r).moved(
                *old(r),
                read_field(self@, old(r).data@, old(r).pos as int, count_override as int).1,
            ),
            agrees(
                v,
                read_field(self@, old(r).data@, old(r).pos as int, count_override as int).0,
            ),
    {
        let count: i32 = if count_override > 1 {
            count_override
        } else {
            self.n_elements
        };
        if count > 1 {
            let n: usize = count as usize;
            return match self.field_type {
                FieldType::Char => match r.char(n) {
                    Ok(v) => Ok(Value::Char(v)),
                    Err(e) => Err(e),
                },
                FieldType::Utf16 => match r.utf16_be(n) {
                    Ok(v) => Ok(Value::Utf16(v)),
                    Err(e) => Err(e),
                },
                _ => self.read_array(r, n),
            };
        }
        self.read_one(r)
    }

    /// Decode `n` elements.
    fn read_array(&self, r: &mut Reader, n: usize) -> (v: Result<Value, XtError>)
        ensures
            final(r).moved(
                *old(r),
                read_items(self.field_type, n as nat, old(r).data@, old(r).pos as int).1,
            ),
            agrees(
                v,
                wrapped(
                    read_items(self.field_type, n as nat, old(r).data@, old(r).pos as int),
                    |v: Seq<ValueView>| ValueView::Array(v),
                ).0,
            ),
    {
        broadcast use lemma_array_view;

        let ghost d = r.data@;
        let ghost p = r.pos as int;
        // A corrupt count must not turn into a huge allocation (every element
        // costs at least one byte).
        let left: usize = r.remaining();
        let mut items: Vec<Value> = Vec::with_capacity(
            if n < left {
                n
            } else {
                left
            },
        );
        let mut i: usize = 0;
        assert(crate::value::value_views(items@) =~= Seq::<ValueView>::empty());
        while i < n
            invariant
                i <= n,
                d == old(r).data@,
                p == old(r).pos,
                r.data@ == d,
                read_items(self.field_type, i as nat, d, p) == (
                    Ok::<Seq<ValueView>, Fault>(crate::value::value_views(items@)),
                    r.pos as int,
                ),
            decreases n - i,
        {
            match self.read_one(r) {
                Ok(v) => {
                    let ghost before = items@;
                    items.push(v);
                    assert(crate::value::value_views(items@) =~= crate::value::value_views(
                        before,
                    ).push(v@));
                },
                Err(e) => {
                    proof {
                        lemma_items_fail(self.field_type, (i + 1) as nat, n as nat, d, p);
                    }
                    return Err(e);
                },
            }
            i += 1;
        }
        Ok(Value::Array(items))
    }
}

/// One node type description.
#[derive(Debug)]
pub struct TypeDef {
    pub node_type: i16,
    pub node_name: String,
    pub description: String,
    pub variable: bool,
    pub fields: Vec<FieldDef>,
}

/// The contents of a node type description.
#[verifier::ext_equal]
pub struct TypeDefView {
    pub node_type: i16,
    pub node_name: Seq<char>,
    pub description: Seq<char>,
    pub variable: bool,
    pub fields: Seq<FieldDefView>,
}

impl View for TypeDef {
    type V = TypeDefView;

    open spec fn view(&self) -> TypeDefView {
        TypeDefView {
            node_type: self.node_type,
            node_name: self.node_name@,
            description: self.description@,
            variable: self.variable,
            fields: def_views(self.fields@),
        }
    }
}

/// The contents of each type description.
pub open spec fn type_views(types: Map<i16, TypeDef>) -> Map<i16, TypeDefView> {
    types.map_values(|t: TypeDef| t@)
}

/// Transient representation of an embedded schema field.
#[derive(Debug)]
pub struct EmbeddedField {
    pub name: String,
    pub ptr_class: i16,
    pub n_elements: i16,
    pub field_type: String,
    pub xmt_code: bool,
}

/// The contents of an embedded schema field.
#[verifier::ext_equal]
pub struct EmbeddedFieldView {
    pub name: Seq<char>,
    pub ptr_class: i16,
    pub n_elements: i16,
    pub field_type: Seq<char>,
    pub xmt_code: bool,
}

impl View for EmbeddedField {
    type V = EmbeddedFieldView;

    open spec fn view(&self) -> EmbeddedFieldView {
        EmbeddedFieldView {
            name: self.name@,
            ptr_class: self.ptr_class,
            n_elements: self.n_elements,
            field_type: self.field_type@,
            xmt_code: self.xmt_code,
        }
    }
}

impl EmbeddedFieldView {
    /// The field definition it stands for.
    pub open spec fn def(self) -> Result<FieldDefView, Fault> {
        match type_of_code(self.field_type) {
            Some(ft) => Ok(
                FieldDefView {
                    name: self.name,
                    field_type: ft,
                    node_class: self.ptr_class as i32,
                    n_elements: self.n_elements as i32,
                },
            ),
            None => Err(Fault::BadFieldType { code: self.field_type }),
        }
    }
}

impl EmbeddedField {
    pub fn to_field_def(&self) -> (r: Result<FieldDef, XtError>)
        ensures
            agrees(r, self@.def()),
    {
        match FieldType::from_code(self.field_type.as_str()) {
            Some(ft) => Ok(
                FieldDef {
                    name: self.name.clone(),
                    field_type: ft,
                    node_class: self.ptr_class as i32,
                    n_elements: self.n_elements as i32,
                },
            ),
            None => Err(bad_field_type(self.field_type.as_str())),
        }
    }
}

/// An embedded field definition: a name, a pointer class, a number of
/// elements, a type code where the class is 0, and one more truth value where
/// the number of elements is 2.
pub open spec fn read_embedded(d: Seq<u8>, p: int) -> (Result<EmbeddedFieldView, Fault>, int) {
    match crate::xt::reader::read_str_u8(d, p) {
        (Err(f), q) => (Err(f), q),
        (Ok(name), p1) => match crate::xt::reader::read_i16_raw(d, p1) {
            (Err(f), q) => (Err(f), q),
            (Ok(ptr_class), p2) => match crate::xt::reader::read_i16_raw(d, p2) {
                (Err(f), q) => (Err(f), q),
                (Ok(n_elements), p3) => {
                    let code: (Result<Seq<char>, Fault>, int) = if ptr_class == 0 {
                        crate::xt::reader::read_str_u8(d, p3)
                    } else {
                        (Ok("p"@), p3)
                    };
                    match code {
                        (Err(f), q) => (Err(f), q),
                        (Ok(field_type), p4) => {
                            let mark: (Result<bool, Fault>, int) = if n_elements == 2 {
                                crate::xt::reader::read_bool(d, p4)
                            } else {
                                (Ok(false), p4)
                            };
                            match mark {
                                (Err(f), q) => (Err(f), q),
                                (Ok(xmt_code), p5) => (
                                    Ok(
                                        EmbeddedFieldView {
                                            name,
                                            ptr_class,
                                            n_elements,
                                            field_type,
                                            xmt_code,
                                        },
                                    ),
                                    p5,
                                ),
                            }
                        },
                    }
                },
            },
        },
    }
}

/// Parse one field definition from embedded schema data.
pub fn parse_embedded_field(r: &mut Reader) -> (v: Result<EmbeddedField, XtError>)
    ensures
        final(r).moved(*old(r), read_embedded(old(r).data@, old(r).pos as int).1),
        agrees(v, read_embedded(old(r).data@, old(r).pos as int).0),
{
    let name = match r.str_u8_len() {
        Ok(v) => v,
        Err(e) => {
            return Err(e);
        },
    };
    let ptr_class: i16 = match r.i16_raw() {
        Ok(v) => v,
        Err(e) => {
            return Err(e);
        },
    };
    let n_elements: i16 = match r.i16_raw() {
        Ok(v) => v,
        Err(e) => {
            return Err(e);
        },
    };
    let field_type = if ptr_class == 0 {
        match r.str_u8_len() {
            Ok(v) => v,
            Err(e) => {
                return Err(e);
            },
        }
    } else {
        "p".to_owned()
    };
    let xmt_code = if n_elements == 2 {
        match r.bool8() {
            Ok(v) => v,
            Err(e) => {
                return Err(e);
            },
        }
    } else {
        false
    };
    Ok(EmbeddedField { name, ptr_class, n_elements, field_type, xmt_code })
}

/// A field line of the schema text.
pub struct RawField {
    pub name: String,
    pub type_code: String,
    pub transmit: i32,
    pub node_class: i32,
    pub n_elements: i32,
}

/// The contents of a field line.
#[verifier::ext_equal]
pub struct RawFieldView {
    pub name: Seq<char>,
    pub type_code: Seq<char>,
    pub transmit: i32,
    pub node_class: i32,
    pub n_elements: i32,
}

impl View for RawField {
    type V = RawFieldView;

    open spec fn view(&self) -> RawFieldView {
        RawFieldView {
            name: self.name@,
            type_code: self.type_code@,
            transmit: self.transmit,
            node_class: self.node_class,
            n_elements: self.n_elements,
        }
    }
}

/// A semicolon and a space.
pub const SEMI: [u8; 2] = [59, 32];

/// A space.
pub const SPACE: [u8; 1] = [32];

/// A space and a line feed.
pub const LINE_END: [u8; 2] = [32, 10];

/// The field definition at `at`, and where it ends: the pattern
/// `[a-z]\w*; \w; \d+ \d+ \d+ ` with numbers that fit an `i32`.
pub open spec fn field_at(s: Seq<u8>, at: int) -> Option<(RawFieldView, int)> {
    let name_end = crate::bytes::run_end(s, Class::Word, at);
    let code = name_end + 2;
    if !(at < s.len() && 97 <= s[at] <= 122) || !crate::bytes::has_at(s, name_end, SEMI@) {
        None
    } else if !(code < s.len() && crate::bytes::word_byte(s[code])) || !crate::bytes::has_at(
        s,
        code + 1,
        SEMI@,
    ) {
        None
    } else {
        match crate::bytes::number_then(s, code + 3, SPACE@, i32::MAX as int) {
            None => None,
            Some((transmit, p1)) => match crate::bytes::number_then(
                s,
                p1,
                SPACE@,
                i32::MAX as int,
            ) {
                None => None,
                Some((node_class, p2)) => match crate::bytes::number_then(
                    s,
                    p2,
                    SPACE@,
                    i32::MAX as int,
                ) {
                    None => None,
                    Some((n_elements, p3)) => Some(
                        (
                            RawFieldView {
                                name: crate::text::latin1(s.subrange(at, name_end)),
                                type_code: crate::text::latin1(s.subrange(code, code + 1)),
                                transmit: transmit as i32,
                                node_class: node_class as i32,
                                n_elements: n_elements as i32,
                            },
                            p3,
                        ),
                    ),
                },
            },
        }
    }
}

/// Match a field definition at `at`.
pub fn match_field(s: &[u8], at: usize) -> (r: Option<(RawField, usize)>)
    requires
        at <= s@.len(),
    ensures
        match r {
            Some((f, end)) => field_at(s@, at as int) == Some((f@, end as int)) && at < end
                <= s@.len(),
            None => field_at(s@, at as int) is None,
        },
{
    if at >= s.len() || !(97 <= s[at] && s[at] <= 122) {
        return None;
    }
    let name_end: usize = scan_run(s, Class::Word, at);
    if !starts_with_at(s, name_end, SEMI.as_slice()) {
        return None;
    }
    assert(name_end + 2 <= s.len());
    let code: usize = name_end + 2;
    if code >= s.len() || !Class::Word.contains(s[code]) || !starts_with_at(
        s,
        code + 1,
        SEMI.as_slice(),
    ) {
        return None;
    }
    assert(code + 3 <= s.len());
    let (transmit, p1) = match read_number(s, code + 3, SPACE.as_slice(), 0x7fffffff) {
        Some(v) => v,
        None => {
            return None;
        },
    };
    let (node_class, p2) = match read_number(s, p1, SPACE.as_slice(), 0x7fffffff) {
        Some(v) => v,
        None => {
            return None;
        },
    };
    let (n_elements, p3) = match read_number(s, p2, SPACE.as_slice(), 0x7fffffff) {
        Some(v) => v,
        None => {
            return None;
        },
    };
    Some(
        (
            RawField {
                name: latin1_string(vstd::slice::slice_subrange(s, at, name_end)),
                type_code: latin1_string(vstd::slice::slice_subrange(s, code, code + 1)),
                transmit: transmit as i32,
                node_class: node_class as i32,
                n_elements: n_elements as i32,
            },
            p3,
        ),
    )
}

/// A type line of the schema text, and the bytes of the field lines behind it.
pub struct RawType<'a> {
    pub node_type: u64,
    pub node_name: String,
    pub description: String,
    pub transmit: u64,
    pub n_fields: u64,
    pub variable: bool,
    pub fields: &'a [u8],
}

/// The contents of a type line.
#[verifier::ext_equal]
pub struct RawTypeView {
    pub node_type: nat,
    pub node_name: Seq<char>,
    pub description: Seq<char>,
    pub transmit: nat,
    pub n_fields: nat,
    pub variable: bool,
    pub fields: Seq<u8>,
}

impl<'a> View for RawType<'a> {
    type V = RawTypeView;

    open spec fn view(&self) -> RawTypeView {
        RawTypeView {
            node_type: self.node_type as nat,
            node_name: self.node_name@,
            description: self.description@,
            transmit: self.transmit as nat,
            n_fields: self.n_fields as nat,
            variable: self.variable,
            fields: self.fields@,
        }
    }
}

/// Where the field lines that begin at `at` end: whole lines of at least two
/// characters that do not begin with a digit.
pub open spec fn field_lines_end(s: Seq<u8>, at: int) -> int
    decreases s.len() - at,
    when 0 <= at <= s.len()
    via field_lines_end_decreases
{
    let nl = crate::bytes::run_end(s, Class::NotNewline, at);
    if at >= s.len() || crate::bytes::digit_byte(s[at]) || nl >= s.len() || nl - at < 2 {
        at
    } else {
        field_lines_end(s, nl + 1)
    }
}

#[via_fn]
proof fn field_lines_end_decreases(s: Seq<u8>, at: int) {
    crate::bytes::lemma_run_end(s, Class::NotNewline, at);
}

/// The type description at `at`, and where its field lines end: the pattern
/// `\d+ [A-Z_]+; [^;]+; \d+ \d+ \d+ \n` with numbers that fit.
pub open spec fn type_at(s: Seq<u8>, at: int) -> Option<(RawTypeView, int)> {
    match crate::bytes::number_then(s, at, SPACE@, i64::MAX as int) {
        None => None,
        Some((node_type, p1)) => {
            let name_end = crate::bytes::run_end(s, Class::Upper, p1);
            let p2 = name_end + 2;
            let desc_end = crate::bytes::run_end(s, Class::NotSemicolon, p2);
            let p3 = desc_end + 2;
            let desc = s.subrange(p2, desc_end);
            if name_end == p1 || !crate::bytes::has_at(s, name_end, SEMI@) || desc_end == p2
                || !crate::bytes::has_at(s, desc_end, SEMI@) || !vstd::utf8::valid_utf8(desc) {
                None
            } else {
                match crate::bytes::number_then(s, p3, SPACE@, i32::MAX as int) {
                    None => None,
                    Some((transmit, p4)) => match crate::bytes::number_then(
                        s,
                        p4,
                        SPACE@,
                        usize::MAX as int,
                    ) {
                        None => None,
                        Some((n_fields, p5)) => match crate::bytes::number_then(
                            s,
                            p5,
                            LINE_END@,
                            i32::MAX as int,
                        ) {
                            None => None,
                            Some((variable, p6)) => Some(
                                (
                                    RawTypeView {
                                        node_type,
                                        node_name: crate::text::latin1(s.subrange(p1, name_end)),
                                        description: vstd::utf8::decode_utf8(desc),
                                        transmit,
                                        n_fields,
                                        variable: variable != 0,
                                        fields: s.subrange(p6, field_lines_end(s, p6)),
                                    },
                                    field_lines_end(s, p6),
                                ),
                            ),
                        },
                    },
                }
            }
        },
    }
}

/// The end of the field lines that begin at `at`.
fn scan_field_lines(s: &[u8], at: usize) -> (r: usize)
    requires
        at <= s@.len(),
    ensures
        r == field_lines_end(s@, at as int),
        at <= r <= s@.len(),
{
    let mut pos: usize = at;
    while pos < s.len() && !Class::Digit.contains(s[pos])
        invariant_except_break
            at <= pos <= s@.len(),
            field_lines_end(s@, at as int) == field_lines_end(s@, pos as int),
        ensures
            at <= pos <= s@.len(),
            field_lines_end(s@, at as int) == pos,
        decreases s@.len() - pos,
    {
        let nl: usize = scan_run(s, Class::NotNewline, pos);
        if nl >= s.len() || nl - pos < 2 {
            break;
        }
        pos = nl + 1;
    }
    pos
}

/// Match a type description at `at`.
pub fn match_type(s: &[u8], at: usize) -> (r: Option<(RawType<'_>, usize)>)
    requires
        at <= s@.len(),
    ensures
        match r {
            Some((t, end)) => type_at(s@, at as int) == Some((t@, end as int)) && at < end
                <= s@.len(),
            None => type_at(s@, at as int) is None,
        },
{
    let (node_type, p1) = match read_number(s, at, SPACE.as_slice(), 0x7fffffffffffffff) {
        Some(v) => v,
        None => {
            return None;
        },
    };
    let name_end: usize = scan_run(s, Class::Upper, p1);
    if name_end == p1 || !starts_with_at(s, name_end, SEMI.as_slice()) {
        return None;
    }
    assert(name_end + 2 <= s.len());
    let p2: usize = name_end + 2;
    let desc_end: usize = scan_run(s, Class::NotSemicolon, p2);
    if desc_end == p2 || !starts_with_at(s, desc_end, SEMI.as_slice()) {
        return None;
    }
    assert(desc_end + 2 <= s.len());
    let description = match utf8_text(vstd::slice::slice_subrange(s, p2, desc_end)) {
        Some(t) => t.to_owned(),
        None => {
            return None;
        },
    };
    let (transmit, p4) = match read_number(s, desc_end + 2, SPACE.as_slice(), 0x7fffffff) {
        Some(v) => v,
        None => {
            return None;
        },
    };
    let (n_fields, p5) = match read_number(s, p4, SPACE.as_slice(), usize::MAX as u64) {
        Some(v) => v,
        None => {
            return None;
        },
    };
    let (variable, p6) = match read_number(s, p5, LINE_END.as_slice(), 0x7fffffff) {
        Some(v) => v,
        None => {
            return None;
        },
    };
    let end: usize = scan_field_lines(s, p6);
    Some(
        (
            RawType {
                node_type,
                node_name: latin1_string(vstd::slice::slice_subrange(s, p1, name_end)),
                description,
                transmit,
                n_fields,
                variable: variable != 0,
                fields: vstd::slice::slice_subrange(s, p6, end),
            },
            end,
        ),
    )
}

/// The transmitted fields from `pos` on, behind those in `before`; `None` where
/// one has an unknown type code.
pub open spec fn fields_from(s: Seq<u8>, pos: int, before: Seq<FieldDefView>) -> Option<
    Seq<FieldDefView>,
>
    decreases s.len() - pos,
    when 0 <= pos <= s.len()
    via fields_from_decreases
{
    if pos >= s.len() {
        Some(before)
    } else {
        match field_at(s, pos) {
            None => fields_from(s, pos + 1, before),
            Some((f, end)) => if f.transmit == 0 {
                fields_from(s, end, before)
            } else {
                match type_of_code(f.type_code) {
                    None => None,
                    Some(ft) => fields_from(
                        s,
                        end,
                        before.push(
                            FieldDefView {
                                name: f.name,
                                field_type: ft,
                                node_class: f.node_class,
                                n_elements: f.n_elements,
                            },
                        ),
                    ),
                }
            },
        }
    }
}

#[via_fn]
proof fn fields_from_decreases(s: Seq<u8>, pos: int, before: Seq<FieldDefView>) {
    lemma_field_at_end(s, pos);
}

/// A number with its tail lies inside the bytes.
proof fn lemma_number_then_end(s: Seq<u8>, at: int, tail: Seq<u8>, max: int)
    requires
        0 <= at <= s.len(),
    ensures
        crate::bytes::number_then(s, at, tail, max) matches Some((v, end)) ==> at < end <= s.len(),
{
    crate::bytes::lemma_run_end(s, Class::Digit, at);
}

/// A field definition takes up some bytes and ends inside the text.
proof fn lemma_field_at_end(s: Seq<u8>, at: int)
    requires
        0 <= at <= s.len(),
    ensures
        field_at(s, at) matches Some((f, end)) ==> at < end <= s.len(),
{
    let name_end = crate::bytes::run_end(s, Class::Word, at);
    crate::bytes::lemma_run_end(s, Class::Word, at);
    let code = name_end + 2;
    if code + 3 <= s.len() {
        lemma_number_then_end(s, code + 3, SPACE@, i32::MAX as int);
        if let Some((_, p1)) = crate::bytes::number_then(s, code + 3, SPACE@, i32::MAX as int) {
            lemma_number_then_end(s, p1, SPACE@, i32::MAX as int);
            if let Some((_, p2)) = crate::bytes::number_then(s, p1, SPACE@, i32::MAX as int) {
                lemma_number_then_end(s, p2, SPACE@, i32::MAX as int);
            }
        }
    }
}

/// Collect the transmitted fields of a type; `None` where one has an unknown
/// type code.
fn collect_fields(s: &[u8]) -> (r: Option<Vec<FieldDef>>)
    ensures
        match r {
            Some(v) => fields_from(s@, 0, Seq::empty()) == Some(def_views(v@)),
            None => fields_from(s@, 0, Seq::empty()) is None,
        },
{
    let mut fields: Vec<FieldDef> = Vec::new();
    let mut pos: usize = 0;
    assert(def_views(fields@) =~= Seq::<FieldDefView>::empty());
    while pos < s.len()
        invariant
            pos <= s@.len(),
            fields_from(s@, 0, Seq::empty()) == fields_from(s@, pos as int, def_views(fields@)),
        decreases s@.len() - pos,
    {
        match match_field(s, pos) {
            None => {
                pos += 1;
            },
            Some((f, end)) => {
                pos = end;
                if f.transmit != 0 {
                    match FieldType::from_code(f.type_code.as_str()) {
                        Some(ft) => {
                            let def = FieldDef {
                                name: f.name,
                                field_type: ft,
                                node_class: f.node_class,
                                n_elements: f.n_elements,
                            };
                            let ghost before = fields@;
                            fields.push(def);
                            assert(def_views(fields@) =~= def_views(before).push(def@));
                        },
                        None => {
                            return None;
                        },
                    }
                }
            },
        }
    }
    Some(fields)
}

/// Where the line that `pos` lies on ends.
pub open spec fn line_end(s: Seq<u8>, pos: int) -> int {
    let nl = crate::bytes::run_end(s, Class::NotNewline, pos);
    if nl < s.len() {
        nl + 1
    } else {
        s.len() as int
    }
}

/// The node types from `pos` on, added to those in `types`. A type that is not
/// transmitted, whose number does not fit, or one of whose transmitted fields
/// has an unknown type code is left out.
pub open spec fn types_from(s: Seq<u8>, pos: int, types: Map<i16, TypeDefView>) -> Map<
    i16,
    TypeDefView,
>
    decreases s.len() - pos,
    when 0 <= pos <= s.len()
    via types_from_decreases
{
    if pos >= s.len() {
        types
    } else {
        match type_at(s, pos) {
            None => types_from(s, line_end(s, pos), types),
            Some((raw, end)) => {
                let next = if end > line_end(s, pos) {
                    end
                } else {
                    line_end(s, pos)
                };
                match fields_from(raw.fields, 0, Seq::empty()) {
                    Some(fields) if raw.transmit != 0 && raw.node_type <= i16::MAX => types_from(
                        s,
                        next,
                        types.insert(
                            raw.node_type as i16,
                            TypeDefView {
                                node_type: raw.node_type as i16,
                                node_name: raw.node_name,
                                description: raw.description,
                                variable: raw.variable,
                                fields,
                            },
                        ),
                    ),
                    _ => types_from(s, next, types),
                }
            },
        }
    }
}

#[via_fn]
proof fn types_from_decreases(s: Seq<u8>, pos: int, types: Map<i16, TypeDefView>) {
    crate::bytes::lemma_run_end(s, Class::NotNewline, pos);
    lemma_type_at_end(s, pos);
}

/// Field lines end inside the text.
proof fn lemma_field_lines_end(s: Seq<u8>, at: int)
    requires
        0 <= at <= s.len(),
    ensures
        at <= field_lines_end(s, at) <= s.len(),
    decreases s.len() - at,
{
    let nl = crate::bytes::run_end(s, Class::NotNewline, at);
    crate::bytes::lemma_run_end(s, Class::NotNewline, at);
    if !(at >= s.len() || crate::bytes::digit_byte(s[at]) || nl >= s.len() || nl - at < 2) {
        lemma_field_lines_end(s, nl + 1);
    }
}

/// A type description ends inside the text.
proof fn lemma_type_at_end(s: Seq<u8>, at: int)
    requires
        0 <= at <= s.len(),
    ensures
        type_at(s, at) matches Some((t, end)) ==> at < end <= s.len(),
{
    lemma_number_then_end(s, at, SPACE@, i64::MAX as int);
    if let Some((_, p1)) = crate::bytes::number_then(s, at, SPACE@, i64::MAX as int) {
        let name_end = crate::bytes::run_end(s, Class::Upper, p1);
        crate::bytes::lemma_run_end(s, Class::Upper, p1);
        let p2 = name_end + 2;
        if p2 <= s.len() {
            let desc_end = crate::bytes::run_end(s, Class::NotSemicolon, p2);
            crate::bytes::lemma_run_end(s, Class::NotSemicolon, p2);
            let p3 = desc_end + 2;
            if p3 <= s.len() {
                lemma_number_then_end(s, p3, SPACE@, i32::MAX as int);
                if let Some((_, p4)) = crate::bytes::number_then(s, p3, SPACE@, i32::MAX as int) {
                    lemma_number_then_end(s, p4, SPACE@, usize::MAX as int);
                    if let Some((_, p5)) = crate::bytes::number_then(
                        s,
                        p4,
                        SPACE@,
                        usize::MAX as int,
                    ) {
                        lemma_number_then_end(s, p5, LINE_END@, i32::MAX as int);
                        if let Some((_, p6)) = crate::bytes::number_then(
                            s,
                            p5,
                            LINE_END@,
                            i32::MAX as int,
                        ) {
                            lemma_field_lines_end(s, p6);
                        }
                    }
                }
            }
        }
    }
}

/// Parse base schema text into transmitted type definitions.
///
/// Non-transmitted types are dropped, so are non-transmitted *fields*, and a
/// type whose transmitted fields hold an unknown type code is dropped entirely
/// (e.g. TAG_VALUES, which has a `t` field).
pub fn parse_base_schema(text: &str) -> (r: HashMap<i16, TypeDef>)
    ensures
        type_views(r@) == types_from(vstd::utf8::encode_utf8(text@), 0, Map::empty()),
{
    let s = text.as_bytes();
    let mut out: HashMap<i16, TypeDef> = HashMap::new();
    let mut pos: usize = 0;
    assert(type_views(out@) =~= Map::<i16, TypeDefView>::empty());
    while pos < s.len()
        invariant
            pos <= s@.len(),
            types_from(s@, 0, Map::empty()) == types_from(s@, pos as int, type_views(out@)),
        decreases s@.len() - pos,
    {
        let nl: usize = scan_run(s, Class::NotNewline, pos);
        let line: usize = if nl < s.len() {
            nl + 1
        } else {
            s.len()
        };
        match match_type(s, pos) {
            None => {
                pos = line;
            },
            Some((raw, end)) => {
                pos = if end > line {
                    end
                } else {
                    line
                };
                if raw.transmit != 0 && raw.node_type <= 0x7fff {
                    if let Some(fields) = collect_fields(raw.fields) {
                        let node_type: i16 = raw.node_type as i16;
                        let def = TypeDef {
                            node_type,
                            node_name: raw.node_name,
                            description: raw.description,
                            variable: raw.variable,
                            fields,
                        };
                        let ghost before = out@;
                        out.insert(node_type, def);
                        assert(type_views(out@) =~= type_views(before).insert(node_type, def@));
                    }
                }
            },
        }
    }
    out
}

/// `KEY=SCH_`.
pub const KEY_MARK: [u8; 8] = [75, 69, 89, 61, 83, 67, 72, 95];

/// The name behind `KEY=SCH_` in the first 1024 bytes of a schema text; 13006
/// where there is none.
pub open spec fn name_in(s: Seq<u8>) -> Seq<char> {
    let head = if s.len() < 1024 {
        s
    } else {
        s.take(1024)
    };
    match crate::bytes::first_at(head, KEY_MARK@, 0) {
        Some(i) => crate::text::latin1(
            head.subrange(i + 8, crate::bytes::run_end(head, Class::Word, i + 8)),
        ),
        None => "13006"@,
    }
}

/// Schema name from the text header (`KEY=SCH_13006`), used to check that a
/// transmit's schema matches the base schema.
pub fn base_schema_name(text: &str) -> (r: String)
    ensures
        r@ == name_in(vstd::utf8::encode_utf8(text@)),
{
    let s = text.as_bytes();
    let n: usize = if s.len() < 1024 {
        s.len()
    } else {
        1024
    };
    let head = vstd::slice::slice_subrange(s, 0, n);
    assert(s@.len() < 1024 ==> head@ =~= s@);
    assert(s@.len() >= 1024 ==> head@ =~= s@.take(1024));
    match find(head, KEY_MARK.as_slice(), 0) {
        Some(i) => {
            assert(i + 8 <= head.len());
            let end: usize = scan_run(head, Class::Word, i + 8);
            latin1_string(vstd::slice::slice_subrange(head, i + 8, end))
        },
        None => "13006".to_owned(),
    }
}

/// A base schema: its name, and the node types it describes.
pub struct BaseSchema {
    pub name: String,
    pub types: HashMap<i16, TypeDef>,
}

/// The base schema that a schema text holds.
pub fn base_schema(text: &str) -> (r: BaseSchema)
    ensures
        r.name@ == name_in(vstd::utf8::encode_utf8(text@)),
        type_views(r.types@) == types_from(vstd::utf8::encode_utf8(text@), 0, Map::empty()),
{
    BaseSchema { name: base_schema_name(text), types: parse_base_schema(text) }
}

} // verus!
