//! Decoded Parasolid XT field values and node records.
//!
//! Real numbers are held as their IEEE-754 bits.

use vstd::prelude::*;

use crate::double::{from_int, truncate};
use crate::text::same_text;

verus! {

/// Node ids are the i16 pointer targets used throughout an XT transmit.
pub type NodeId = i16;

/// One decoded field value, one variant per XT primitive type code.
#[derive(Debug, PartialEq)]
pub enum Value {
    Null,
    U8(u8),
    Char(String),
    Bool(bool),
    I16(i16),
    I32(i32),
    F64(u64),
    Utf16(String),
    /// Pointer field: `None` when the XT null pointer (value 1) was stored.
    Ptr(Option<NodeId>),
    Vec3([u64; 3]),
    Interval([u64; 2]),
    Box3([[u64; 2]; 3]),
    Array(Vec<Value>),
}

/// The contents of a value.
#[verifier::ext_equal]
pub enum ValueView {
    Null,
    U8(u8),
    Char(Seq<char>),
    Bool(bool),
    I16(i16),
    I32(i32),
    F64(u64),
    Utf16(Seq<char>),
    Ptr(Option<NodeId>),
    Vec3(Seq<u64>),
    Interval(Seq<u64>),
    Box3(Seq<Seq<u64>>),
    Array(Seq<ValueView>),
}

/// The contents of a value.
pub open spec fn value_view(v: Value) -> ValueView
    decreases v,
{
    match v {
        Value::Null => ValueView::Null,
        Value::U8(b) => ValueView::U8(b),
        Value::Char(s) => ValueView::Char(s@),
        Value::Bool(b) => ValueView::Bool(b),
        Value::I16(i) => ValueView::I16(i),
        Value::I32(i) => ValueView::I32(i),
        Value::F64(x) => ValueView::F64(x),
        Value::Utf16(s) => ValueView::Utf16(s@),
        Value::Ptr(p) => ValueView::Ptr(p),
        Value::Vec3(a) => ValueView::Vec3(a@),
        Value::Interval(a) => ValueView::Interval(a@),
        Value::Box3(a) => ValueView::Box3(seq![a@[0]@, a@[1]@, a@[2]@]),
        Value::Array(items) => ValueView::Array(
            Seq::new(
                items@.len(),
                |i: int|
                    if 0 <= i < items@.len() {
                        value_view(items@[i])
                    } else {
                        ValueView::Null
                    },
            ),
        ),
    }
}

impl View for Value {
    type V = ValueView;

    open spec fn view(&self) -> ValueView {
        value_view(*self)
    }
}

/// The contents of each value.
pub open spec fn value_views(items: Seq<Value>) -> Seq<ValueView> {
    items.map_values(|v: Value| v@)
}

/// An array's contents are those of its items.
pub broadcast proof fn lemma_array_view(items: Vec<Value>)
    ensures
        #[trigger] value_view(Value::Array(items)) == ValueView::Array(value_views(items@)),
{
    assert(value_view(Value::Array(items))->Array_0 =~= value_views(items@));
}

impl ValueView {
    /// The bits of a scalar number.
    pub open spec fn real_number(self) -> Option<u64> {
        match self {
            ValueView::F64(x) => Some(x),
            ValueView::I16(v) => Some(crate::double::of_int(v as int)),
            ValueView::I32(v) => Some(crate::double::of_int(v as int)),
            ValueView::U8(v) => Some(crate::double::of_int(v as int)),
            _ => None,
        }
    }

    /// A scalar as an integer.
    pub open spec fn integer(self) -> Option<i64> {
        match self {
            ValueView::I16(v) => Some(v as i64),
            ValueView::I32(v) => Some(v as i64),
            ValueView::U8(v) => Some(v as i64),
            ValueView::F64(x) => Some(crate::double::truncated(x)),
            ValueView::Bool(b) => Some(
                if b {
                    1
                } else {
                    0
                },
            ),
            _ => None,
        }
    }

    /// A scalar as a truth value.
    pub open spec fn truth(self) -> Option<bool> {
        match self {
            ValueView::Bool(b) => Some(b),
            ValueView::U8(v) => Some(v != 0),
            ValueView::I16(v) => Some(v != 0),
            _ => None,
        }
    }

    /// The characters of a text value.
    pub open spec fn text(self) -> Option<Seq<char>> {
        match self {
            ValueView::Char(s) => Some(s),
            ValueView::Utf16(s) => Some(s),
            _ => None,
        }
    }

    /// The target of a non-null pointer.
    pub open spec fn pointer(self) -> Option<NodeId> {
        match self {
            ValueView::Ptr(p) => p,
            _ => None,
        }
    }

    /// Three coordinates: a vector, or an array of three scalars.
    pub open spec fn coordinates(self) -> Option<Seq<u64>> {
        match self {
            ValueView::Vec3(a) => Some(a),
            ValueView::Array(items) => if items.len() == 3 && items[0].real_number() is Some
                && items[1].real_number() is Some && items[2].real_number() is Some {
                Some(
                    seq![
                        items[0].real_number()->0,
                        items[1].real_number()->0,
                        items[2].real_number()->0,
                    ],
                )
            } else {
                None
            },
            _ => None,
        }
    }

    /// The numbers that one item of an array adds to a flat list.
    pub open spec fn flat(self) -> Option<Seq<u64>> {
        match self {
            ValueView::Vec3(a) => Some(a),
            ValueView::Interval(a) => Some(a),
            _ => match self.real_number() {
                Some(x) => Some(seq![x]),
                None => None,
            },
        }
    }

    /// The numbers as one flat list.
    pub open spec fn reals(self) -> Option<Seq<u64>> {
        match self {
            ValueView::Array(items) => flat_reals(items),
            ValueView::Vec3(a) => Some(a),
            ValueView::F64(x) => Some(seq![x]),
            _ => None,
        }
    }

    /// The integers of an array, or of one scalar.
    pub open spec fn integers(self) -> Option<Seq<i64>> {
        match self {
            ValueView::Array(items) => all_integers(items),
            _ => match self.integer() {
                Some(v) => Some(seq![v]),
                None => None,
            },
        }
    }

    /// The pointer targets of an array, or of one pointer.
    pub open spec fn pointers(self) -> Seq<NodeId> {
        match self {
            ValueView::Ptr(Some(p)) => seq![p],
            ValueView::Array(items) => all_pointers(items),
            _ => Seq::empty(),
        }
    }
}

/// The numbers of all items in a row; `None` where one holds no number.
pub open spec fn flat_reals(items: Seq<ValueView>) -> Option<Seq<u64>>
    decreases items.len(),
{
    if items.len() == 0 {
        Some(Seq::empty())
    } else {
        match (flat_reals(items.drop_last()), items.last().flat()) {
            (Some(before), Some(more)) => Some(before + more),
            _ => None,
        }
    }
}

/// The integers of all items in a row; `None` where one is no integer.
pub open spec fn all_integers(items: Seq<ValueView>) -> Option<Seq<i64>>
    decreases items.len(),
{
    if items.len() == 0 {
        Some(Seq::empty())
    } else {
        match (all_integers(items.drop_last()), items.last().integer()) {
            (Some(before), Some(v)) => Some(before.push(v)),
            _ => None,
        }
    }
}

/// The targets of the non-null pointers among the items.
pub open spec fn all_pointers(items: Seq<ValueView>) -> Seq<NodeId>
    decreases items.len(),
{
    if items.len() == 0 {
        Seq::empty()
    } else {
        let before = all_pointers(items.drop_last());
        match items.last().pointer() {
            Some(p) => before.push(p),
            None => before,
        }
    }
}

/// Where an item holds no number, neither do the items up to any later one.
proof fn lemma_reals_fail(items: Seq<ValueView>, i: int)
    requires
        0 <= i < items.len(),
        items[i].flat() is None,
    ensures
        flat_reals(items) is None,
    decreases items.len(),
{
    if i < items.len() - 1 {
        lemma_reals_fail(items.drop_last(), i);
    }
}

/// Where an item is no integer, neither are the items up to any later one.
proof fn lemma_integers_fail(items: Seq<ValueView>, i: int)
    requires
        0 <= i < items.len(),
        items[i].integer() is None,
    ensures
        all_integers(items) is None,
    decreases items.len(),
{
    if i < items.len() - 1 {
        lemma_integers_fail(items.drop_last(), i);
    }
}

/// The same optional list, once as a vector and once as its contents.
pub open spec fn same_list<T>(r: Option<Vec<T>>, s: Option<Seq<T>>) -> bool {
    match r {
        Some(v) => s == Some(v@),
        None => s is None,
    }
}

/// The same optional coordinates, once as an array and once as its contents.
pub open spec fn same_triple(r: Option<[u64; 3]>, s: Option<Seq<u64>>) -> bool {
    match r {
        Some(v) => s == Some(v@),
        None => s is None,
    }
}

/// The same optional text.
pub open spec fn same_words(r: Option<&str>, s: Option<Seq<char>>) -> bool {
    match r {
        Some(v) => s == Some(v@),
        None => s is None,
    }
}

impl Value {
    pub fn as_f64(&self) -> (r: Option<u64>)
        ensures
            r == self@.real_number(),
    {
        match self {
            Value::F64(v) => Some(*v),
            Value::I16(v) => Some(from_int(*v as i32)),
            Value::I32(v) => Some(from_int(*v)),
            Value::U8(v) => Some(from_int(*v as i32)),
            _ => None,
        }
    }

    pub fn as_i64(&self) -> (r: Option<i64>)
        ensures
            r == self@.integer(),
    {
        match self {
            Value::I16(v) => Some(*v as i64),
            Value::I32(v) => Some(*v as i64),
            Value::U8(v) => Some(*v as i64),
            Value::F64(v) => Some(truncate(*v)),
            Value::Bool(b) => Some(
                if *b {
                    1
                } else {
                    0
                },
            ),
            _ => None,
        }
    }

    pub fn as_bool(&self) -> (r: Option<bool>)
        ensures
            r == self@.truth(),
    {
        match self {
            Value::Bool(b) => Some(*b),
            Value::U8(v) => Some(*v != 0),
            Value::I16(v) => Some(*v != 0),
            _ => None,
        }
    }

    pub fn as_str(&self) -> (r: Option<&str>)
        ensures
            same_words(r, self@.text()),
    {
        match self {
            Value::Char(s) => Some(s.as_str()),
            Value::Utf16(s) => Some(s.as_str()),
            _ => None,
        }
    }

    /// Pointer target, if this is a non-null pointer.
    pub fn as_ptr(&self) -> (r: Option<NodeId>)
        ensures
            r == self@.pointer(),
    {
        match self {
            Value::Ptr(p) => *p,
            _ => None,
        }
    }

    pub fn as_vec3(&self) -> (r: Option<[u64; 3]>)
        ensures
            same_triple(r, self@.coordinates()),
    {
        broadcast use lemma_array_view;

        match self {
            Value::Vec3(v) => Some(*v),
            Value::Array(items) => {
                if items.len() != 3 {
                    return None;
                }
                assert(self@ == ValueView::Array(value_views(items@)));
                match (items[0].as_f64(), items[1].as_f64(), items[2].as_f64()) {
                    (Some(a), Some(b), Some(c)) => {
                        let out: [u64; 3] = [a, b, c];
                        assert(out@ =~= seq![a, b, c]);
                        Some(out)
                    },
                    _ => None,
                }
            },
            _ => None,
        }
    }

    /// Flatten to a list of numbers (handles `Array` of scalars or of vectors).
    pub fn as_f64_vec(&self) -> (r: Option<Vec<u64>>)
        ensures
            same_list(r, self@.reals()),
    {
        broadcast use lemma_array_view;

        match self {
            Value::Array(items) => {
                let ghost views = value_views(items@);
                assert(self@ == ValueView::Array(views));
                let mut out: Vec<u64> = Vec::new();
                let mut i: usize = 0;
                while i < items.len()
                    invariant
                        i <= items@.len(),
                        views == value_views(items@),
                        self@ == ValueView::Array(views),
                        flat_reals(views.take(i as int)) == Some(out@),
                    decreases items@.len() - i,
                {
                    let ghost before = out@;
                    proof {
                        assert(views.take(i + 1).drop_last() =~= views.take(i as int));
                        assert(views.take(i + 1).last() == items@[i as int]@);
                    }
                    match &items[i] {
                        Value::Vec3(v) => {
                            out.extend_from_slice(v.as_slice());
                            assert(out@ =~= before + v@);
                        },
                        Value::Interval(v) => {
                            out.extend_from_slice(v.as_slice());
                            assert(out@ =~= before + v@);
                        },
                        other => {
                            match other.as_f64() {
                                Some(x) => {
                                    out.push(x);
                                    assert(out@ =~= before + seq![x]);
                                },
                                None => {
                                    proof {
                                        lemma_reals_fail(views, i as int);
                                    }
                                    return None;
                                },
                            }
                        },
                    }
                    i += 1;
                }
                assert(views.take(i as int) =~= views);
                Some(out)
            },
            Value::Vec3(v) => {
                let mut out: Vec<u64> = Vec::new();
                out.extend_from_slice(v.as_slice());
                assert(out@ =~= v@);
                Some(out)
            },
            Value::F64(v) => {
                let out: Vec<u64> = vec![*v];
                assert(out@ =~= seq![*v]);
                Some(out)
            },
            _ => None,
        }
    }

    pub fn as_i64_vec(&self) -> (r: Option<Vec<i64>>)
        ensures
            same_list(r, self@.integers()),
    {
        broadcast use lemma_array_view;

        match self {
            Value::Array(items) => {
                let ghost views = value_views(items@);
                assert(self@ == ValueView::Array(views));
                let mut out: Vec<i64> = Vec::new();
                let mut i: usize = 0;
                while i < items.len()
                    invariant
                        i <= items@.len(),
                        views == value_views(items@),
                        self@ == ValueView::Array(views),
                        all_integers(views.take(i as int)) == Some(out@),
                    decreases items@.len() - i,
                {
                    proof {
                        assert(views.take(i + 1).drop_last() =~= views.take(i as int));
                        assert(views.take(i + 1).last() == items@[i as int]@);
                    }
                    match items[i].as_i64() {
                        Some(x) => {
                            out.push(x);
                        },
                        None => {
                            proof {
                                lemma_integers_fail(views, i as int);
                            }
                            return None;
                        },
                    }
                    i += 1;
                }
                assert(views.take(i as int) =~= views);
                Some(out)
            },
            other => {
                match other.as_i64() {
                    Some(v) => {
                        let out: Vec<i64> = vec![v];
                        assert(out@ =~= seq![v]);
                        Some(out)
                    },
                    None => None,
                }
            },
        }
    }

    /// Pointer list: a pointer field that may hold one or several targets.
    pub fn as_ptr_vec(&self) -> (r: Vec<NodeId>)
        ensures
            r@ == self@.pointers(),
    {
        broadcast use lemma_array_view;

        let mut out: Vec<NodeId> = Vec::new();
        match self {
            Value::Ptr(Some(p)) => {
                out.push(*p);
                assert(out@ =~= seq![*p]);
            },
            Value::Array(items) => {
                let ghost views = value_views(items@);
                assert(self@ == ValueView::Array(views));
                let mut i: usize = 0;
                while i < items.len()
                    invariant
                        i <= items@.len(),
                        views == value_views(items@),
                        out@ == all_pointers(views.take(i as int)),
                    decreases items@.len() - i,
                {
                    proof {
                        assert(views.take(i + 1).drop_last() =~= views.take(i as int));
                        assert(views.take(i + 1).last() == items@[i as int]@);
                    }
                    if let Some(p) = items[i].as_ptr() {
                        out.push(p);
                    }
                    i += 1;
                }
                assert(views.take(i as int) =~= views);
            },
            _ => {},
        }
        out
    }

    pub fn is_null(&self) -> (r: bool)
        ensures
            r == (self@ == ValueView::Null || self@ == ValueView::Ptr(None)),
    {
        match self {
            Value::Null => true,
            Value::Ptr(None) => true,
            _ => false,
        }
    }
}

impl Clone for Value {
    fn clone(&self) -> (r: Self)
        ensures
            r@ == self@,
        decreases self,
    {
        broadcast use lemma_array_view;

        match self {
            Value::Null => Value::Null,
            Value::U8(v) => Value::U8(*v),
            Value::Char(s) => Value::Char(s.clone()),
            Value::Bool(b) => Value::Bool(*b),
            Value::I16(v) => Value::I16(*v),
            Value::I32(v) => Value::I32(*v),
            Value::F64(v) => Value::F64(*v),
            Value::Utf16(s) => Value::Utf16(s.clone()),
            Value::Ptr(p) => Value::Ptr(*p),
            Value::Vec3(v) => Value::Vec3(*v),
            Value::Interval(v) => Value::Interval(*v),
            Value::Box3(v) => Value::Box3(*v),
            Value::Array(items) => {
                let mut out: Vec<Value> = Vec::new();
                let mut i: usize = 0;
                while i < items.len()
                    invariant
                        i <= items@.len(),
                        self == Value::Array(*items),
                        value_views(out@) == value_views(items@).take(i as int),
                    decreases items@.len() - i,
                {
                    assert(decreases_to!(*self => self->Array_0));
                    assert(decreases_to!(*items => items[i as int]));
                    let v = items[i].clone();
                    let ghost before = out@;
                    out.push(v);
                    i += 1;
                    assert(value_views(out@) =~= value_views(before).push(v@));
                    assert(value_views(out@) =~= value_views(items@).take(i as int));
                }
                assert(value_views(out@) =~= value_views(items@));
                Value::Array(out)
            },
        }
    }
}

/// One decoded node record.
#[derive(Debug)]
pub struct Node {
    pub node_type: i16,
    pub name: String,
    pub id: NodeId,
    /// Repeat count for variable-length node types.
    pub count: Option<i32>,
    /// Fields in schema order. Nodes have few fields, so a Vec with linear
    /// lookup beats a map here.
    pub fields: Vec<(String, Value)>,
}

/// The contents of a node.
#[verifier::ext_equal]
pub struct NodeView {
    pub node_type: i16,
    pub name: Seq<char>,
    pub id: NodeId,
    pub count: Option<i32>,
    pub fields: Seq<(Seq<char>, ValueView)>,
}

/// The contents of each field.
pub open spec fn field_views(fields: Seq<(String, Value)>) -> Seq<(Seq<char>, ValueView)> {
    fields.map_values(|f: (String, Value)| (f.0@, f.1@))
}

impl View for Node {
    type V = NodeView;

    open spec fn view(&self) -> NodeView {
        NodeView {
            node_type: self.node_type,
            name: self.name@,
            id: self.id,
            count: self.count,
            fields: field_views(self.fields@),
        }
    }
}

/// The contents of each node.
pub open spec fn node_views(nodes: Seq<Node>) -> Seq<NodeView> {
    nodes.map_values(|n: Node| n@)
}

/// The value of the first field called `name`.
pub open spec fn first_field(fields: Seq<(Seq<char>, ValueView)>, name: Seq<char>) -> Option<
    ValueView,
>
    decreases fields.len(),
{
    if fields.len() == 0 {
        None
    } else if fields[0].0 == name {
        Some(fields[0].1)
    } else {
        first_field(fields.drop_first(), name)
    }
}

impl NodeView {
    /// The value of the first field called `name`, unless it is null.
    pub open spec fn field(self, name: Seq<char>) -> Option<ValueView> {
        match first_field(self.fields, name) {
            Some(ValueView::Null) => None,
            v => v,
        }
    }

    /// The text in a field.
    pub open spec fn text(self, name: Seq<char>) -> Option<Seq<char>> {
        match self.field(name) {
            Some(v) => v.text(),
            None => None,
        }
    }

    /// The pointer target in a field.
    pub open spec fn pointer(self, name: Seq<char>) -> Option<NodeId> {
        match self.field(name) {
            Some(v) => v.pointer(),
            None => None,
        }
    }

    /// The pointer targets in a field.
    pub open spec fn pointers(self, name: Seq<char>) -> Seq<NodeId> {
        match self.field(name) {
            Some(v) => v.pointers(),
            None => Seq::empty(),
        }
    }

    /// The sense flag: '+' unless the text in `sense` begins with '-'.
    pub open spec fn positive(self) -> bool {
        match self.text("sense"@) {
            Some(s) => !(s.len() > 0 && s[0] == '-'),
            None => true,
        }
    }
}

impl Node {
    /// The value of the first field of that name, unless it is null.
    pub fn field(&self, name: &str) -> (r: Option<&Value>)
        ensures
            match r {
                Some(v) => self@.field(name@) == Some(v@),
                None => self@.field(name@) is None,
            },
    {
        let ghost views = field_views(self.fields@);
        let mut i: usize = 0;
        assert(views.skip(0) =~= views);
        while i < self.fields.len()
            invariant
                i <= self.fields@.len(),
                views == field_views(self.fields@),
                first_field(views, name@) == first_field(views.skip(i as int), name@),
            decreases self.fields@.len() - i,
        {
            assert(views.skip(i as int)[0] == (self.fields@[i as int].0@, self.fields@[i as int].1@));
            if same_text(self.fields[i].0.as_str(), name) {
                return match &self.fields[i].1 {
                    Value::Null => None,
                    v => Some(v),
                };
            }
            assert(views.skip(i as int).drop_first() =~= views.skip(i + 1));
            i += 1;
        }
        None
    }

    pub fn f64_bits(&self, name: &str) -> (r: Option<u64>)
        ensures
            r == match self@.field(name@) {
                Some(v) => v.real_number(),
                None => None,
            },
    {
        match self.field(name) {
            Some(v) => v.as_f64(),
            None => None,
        }
    }

    pub fn i64(&self, name: &str) -> (r: Option<i64>)
        ensures
            r == match self@.field(name@) {
                Some(v) => v.integer(),
                None => None,
            },
    {
        match self.field(name) {
            Some(v) => v.as_i64(),
            None => None,
        }
    }

    pub fn bool(&self, name: &str) -> (r: bool)
        ensures
            r == match self@.field(name@) {
                Some(v) => v.truth() == Some(true),
                None => false,
            },
    {
        match self.field(name) {
            Some(v) => match v.as_bool() {
                Some(b) => b,
                None => false,
            },
            None => false,
        }
    }

    pub fn str(&self, name: &str) -> (r: Option<&str>)
        ensures
            same_words(r, self@.text(name@)),
    {
        match self.field(name) {
            Some(v) => v.as_str(),
            None => None,
        }
    }

    pub fn vec3(&self, name: &str) -> (r: Option<[u64; 3]>)
        ensures
            same_triple(
                r,
                match self@.field(name@) {
                    Some(v) => v.coordinates(),
                    None => None,
                },
            ),
    {
        match self.field(name) {
            Some(v) => v.as_vec3(),
            None => None,
        }
    }

    pub fn ptr(&self, name: &str) -> (r: Option<NodeId>)
        ensures
            r == self@.pointer(name@),
    {
        match self.field(name) {
            Some(v) => v.as_ptr(),
            None => None,
        }
    }

    pub fn ptrs(&self, name: &str) -> (r: Vec<NodeId>)
        ensures
            r@ == self@.pointers(name@),
    {
        match self.field(name) {
            Some(v) => v.as_ptr_vec(),
            None => Vec::new(),
        }
    }

    pub fn f64_vec(&self, name: &str) -> (r: Option<Vec<u64>>)
        ensures
            same_list(
                r,
                match self@.field(name@) {
                    Some(v) => v.reals(),
                    None => None,
                },
            ),
    {
        match self.field(name) {
            Some(v) => v.as_f64_vec(),
            None => None,
        }
    }

    pub fn i64_vec(&self, name: &str) -> (r: Option<Vec<i64>>)
        ensures
            same_list(
                r,
                match self@.field(name@) {
                    Some(v) => v.integers(),
                    None => None,
                },
            ),
    {
        match self.field(name) {
            Some(v) => v.as_i64_vec(),
            None => None,
        }
    }

    /// XT `sense` field: `true` for '+', `false` for '-'. Absent means '+'.
    pub fn sense_positive(&self) -> (r: bool)
        ensures
            r == self@.positive(),
    {
        match self.str("sense") {
            Some(s) => !(s.unicode_len() > 0 && s.get_char(0) == '-'),
            None => true,
        }
    }
}


/// Of several fields of one name the first is found.
pub proof fn lemma_first_field_is_found(
    fields: Seq<(Seq<char>, ValueView)>,
    name: Seq<char>,
    k: int,
)
    requires
        0 <= k < fields.len(),
        fields[k].0 == name,
        forall|i: int| 0 <= i < k ==> (#[trigger] fields[i]).0 != name,
    ensures
        first_field(fields, name) == Some(fields[k].1),
    decreases k,
{
    if k > 0 {
        assert(fields[0].0 != name);
        let rest = fields.drop_first();
        assert forall|i: int| 0 <= i < k - 1 implies (#[trigger] rest[i]).0 != name by {
            assert(fields[i + 1].0 != name);
        }
        lemma_first_field_is_found(rest, name, k - 1);
    }
}

/// A name that no field has is not found.
pub proof fn lemma_no_field_is_found(fields: Seq<(Seq<char>, ValueView)>, name: Seq<char>)
    requires
        forall|i: int| 0 <= i < fields.len() ==> (#[trigger] fields[i]).0 != name,
    ensures
        first_field(fields, name) is None,
    decreases fields.len(),
{
    if fields.len() > 0 {
        assert(fields[0].0 != name);
        let rest = fields.drop_first();
        assert forall|i: int| 0 <= i < rest.len() implies (#[trigger] rest[i]).0 != name by {
            assert(fields[i + 1].0 != name);
        }
        lemma_no_field_is_found(rest, name);
    }
}

} // verus!
