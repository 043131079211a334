//! What is written is read back: the bytes that stand for values, field
//! definitions, nodes and whole transmits, and what is read where they stand.
//!
//! The bytes are stated here by the type codes and the letters of the format,
//! without a word of how they are read.

use vstd::prelude::*;

use super::reader::{
    be_i16, be_i32, be_u64, read_chars, read_f64, read_i16, read_i16_raw, read_i32,
    read_pointer, read_reals, read_str_i32, read_str_u8, read_u8, read_utf16, taken, utf16_text,
    utf16_units,
};
use super::schema::{
    read_embedded, read_field, read_items, read_scalar, type_of_code, EmbeddedFieldView,
    FieldDefView, FieldType, TypeDefView,
};
use super::{
    all_defs, document, edited_fields, header_fields, nodes_from, read_embeddeds, read_first_use,
    read_header, read_node_fields, read_payload, read_record, read_type, DocumentView, Progress,
    Record,
};
use crate::double::NAN_BITS;
use crate::value::{NodeView, ValueView};

verus! {

/// The bytes `b` stand in `d` at offset `p`.
pub open spec fn stands(d: Seq<u8>, p: int, b: Seq<u8>) -> bool {
    &&& 0 <= p
    &&& p + b.len() <= d.len() <= usize::MAX
    &&& d.subrange(p, p + b.len()) == b
}

/// Bytes that stand somewhere stand there piece by piece.
proof fn lemma_pieces(d: Seq<u8>, p: int, a: Seq<u8>, b: Seq<u8>)
    ensures
        stands(d, p, a + b) <==> stands(d, p, a) && stands(d, p + a.len(), b),
{
    if stands(d, p, a + b) {
        assert forall|i: int| 0 <= i < a.len() implies d[p + i] == a[i] by {
            assert(d.subrange(p, p + (a + b).len())[i] == (a + b)[i]);
        }
        assert forall|i: int| 0 <= i < b.len() implies d[p + a.len() + i] == b[i] by {
            assert(d.subrange(p, p + (a + b).len())[a.len() + i] == (a + b)[a.len() + i]);
        }
        assert(d.subrange(p, p + a.len()) =~= a);
        assert(d.subrange(p + a.len(), p + a.len() + b.len()) =~= b);
    }
    if stands(d, p, a) && stands(d, p + a.len(), b) {
        assert forall|i: int| 0 <= i < (a + b).len() implies d[p + i] == (a + b)[i] by {
            if i < a.len() {
                assert(d.subrange(p, p + a.len())[i] == a[i]);
            } else {
                assert(d.subrange(p + a.len(), p + a.len() + b.len())[i - a.len()] == b[i
                    - a.len()]);
            }
        }
        assert(d.subrange(p, p + (a + b).len()) =~= a + b);
    }
}

/// A number in `k` bytes, the highest first.
pub open spec fn big_endian(n: int, k: nat) -> Seq<u8>
    decreases k,
{
    if k == 0 {
        Seq::empty()
    } else {
        big_endian(n / 256, (k - 1) as nat).push((n % 256) as u8)
    }
}

/// A signed number as an unsigned one below `span`: the negative ones are
/// counted down from `span`.
pub open spec fn complement(n: int, span: int) -> int {
    if n < 0 {
        n + span
    } else {
        n
    }
}

/// A number of 16 bits.
pub open spec fn short_bytes(n: i16) -> Seq<u8> {
    big_endian(complement(n as int, 0x10000), 2)
}

/// A number of 32 bits.
pub open spec fn long_bytes(n: i32) -> Seq<u8> {
    big_endian(complement(n as int, 0x100000000), 4)
}

/// The bits of a real number.
pub open spec fn real_bytes(x: u64) -> Seq<u8> {
    big_endian(x as int, 8)
}

/// Real numbers in a row.
pub open spec fn row_bytes(xs: Seq<u64>) -> Seq<u8>
    decreases xs.len(),
{
    if xs.len() == 0 {
        Seq::empty()
    } else {
        row_bytes(xs.drop_last()) + real_bytes(xs.last())
    }
}

/// A real number that is not the one that stands for no number.
pub open spec fn not_null(x: u64) -> bool {
    x != 0xC2BC928F996E0000
}

/// Characters that one byte holds each.
pub open spec fn plain(s: Seq<char>) -> bool {
    forall|i: int| 0 <= i < s.len() ==> (#[trigger] s[i] as int) < 128
}

/// The bytes of plain text.
pub open spec fn text_bytes(s: Seq<char>) -> Seq<u8> {
    Seq::new(s.len(), |i: int| s[i] as u8)
}

/// The UTF-16 code units of a text: a character above 0xFFFF takes a pair.
pub open spec fn code_units(s: Seq<char>) -> Seq<u16>
    decreases s.len(),
{
    if s.len() == 0 {
        Seq::empty()
    } else if s[0] as int <= 0xFFFF {
        seq![s[0] as u16] + code_units(s.skip(1))
    } else {
        seq![
            (0xD800 + (s[0] as int - 0x10000) / 0x400) as u16,
            (0xDC00 + (s[0] as int - 0x10000) % 0x400) as u16,
        ] + code_units(s.skip(1))
    }
}

/// Code units in bytes, the high byte of each first.
pub open spec fn unit_bytes(u: Seq<u16>) -> Seq<u8> {
    Seq::new(
        2 * u.len(),
        |i: int|
            (if i % 2 == 0 {
                u[i / 2] / 256
            } else {
                u[i / 2] % 256
            }) as u8,
    )
}

/// The bytes of one value in a field of a type code; `None` where a field of
/// that type does not hold such a value.
pub open spec fn scalar_bytes(code: char, v: ValueView) -> Option<Seq<u8>> {
    if code == 'u' && v is U8 {
        Some(seq![v->U8_0])
    } else if code == 'c' && v is Char && v->Char_0.len() == 1 && plain(v->Char_0) {
        Some(seq![v->Char_0[0] as u8])
    } else if code == 'l' && v is Bool {
        Some(
            seq![
                if v->Bool_0 {
                    1u8
                } else {
                    0u8
                },
            ],
        )
    } else if code == 'n' && v is I16 && v->I16_0 != -32764 {
        Some(short_bytes(v->I16_0))
    } else if code == 'n' && v is Null {
        Some(seq![0x80u8, 0x04u8])
    } else if code == 'w' && v is Utf16 && code_units(v->Utf16_0).len() == 1 {
        Some(unit_bytes(code_units(v->Utf16_0)))
    } else if code == 'd' && v is I32 {
        Some(long_bytes(v->I32_0))
    } else if code == 'p' && v == ValueView::Ptr(None) {
        Some(seq![0u8, 1u8])
    } else if code == 'p' && v is Ptr && v->Ptr_0 is Some && v->Ptr_0->0 != 1 {
        Some(short_bytes(v->Ptr_0->0))
    } else if code == 'f' && v is F64 && not_null(v->F64_0) {
        Some(real_bytes(v->F64_0))
    } else if code == 'f' && v is Null {
        Some(seq![0xC2u8, 0xBCu8, 0x92u8, 0x8Fu8, 0x99u8, 0x6Eu8, 0u8, 0u8])
    } else if code == 'i' && v is Interval && v->Interval_0.len() == 2 && v->Interval_0.all(
        |x: u64| not_null(x),
    ) {
        Some(row_bytes(v->Interval_0))
    } else if (code == 'v' || code == 'h') && v is Vec3 && v->Vec3_0.len() == 3 && v->Vec3_0.all(
        |x: u64| not_null(x),
    ) {
        Some(row_bytes(v->Vec3_0))
    } else if code == 'b' && v is Box3 && v->Box3_0.len() == 3 && v->Box3_0.all(
        |a: Seq<u64>| a.len() == 2 && a.all(|x: u64| not_null(x)),
    ) {
        Some(row_bytes(v->Box3_0[0]) + row_bytes(v->Box3_0[1]) + row_bytes(v->Box3_0[2]))
    } else {
        None
    }
}

/// The bytes of values in a row.
pub open spec fn item_bytes(code: char, items: Seq<ValueView>) -> Option<Seq<u8>>
    decreases items.len(),
{
    if items.len() == 0 {
        Some(Seq::empty())
    } else {
        match (item_bytes(code, items.drop_last()), scalar_bytes(code, items.last())) {
            (Some(a), Some(b)) => Some(a + b),
            _ => None,
        }
    }
}

/// The bytes of the value of a field of `n` elements. Several characters are one
/// text.
pub open spec fn field_bytes(code: char, n: int, v: ValueView) -> Option<Seq<u8>> {
    if n <= 1 {
        scalar_bytes(code, v)
    } else if code == 'c' {
        if v is Char && v->Char_0.len() == n && plain(v->Char_0) {
            Some(text_bytes(v->Char_0))
        } else {
            None
        }
    } else if code == 'w' {
        if v is Utf16 && code_units(v->Utf16_0).len() == n {
            Some(unit_bytes(code_units(v->Utf16_0)))
        } else {
            None
        }
    } else {
        if v is Array && v->Array_0.len() == n {
            item_bytes(code, v->Array_0)
        } else {
            None
        }
    }
}

/// The type code of each type of field.
proof fn lemma_codes()
    ensures
        type_of_code(seq!['u']) == Some(FieldType::U8),
        type_of_code(seq!['c']) == Some(FieldType::Char),
        type_of_code(seq!['l']) == Some(FieldType::Logical),
        type_of_code(seq!['n']) == Some(FieldType::I16),
        type_of_code(seq!['w']) == Some(FieldType::Utf16),
        type_of_code(seq!['d']) == Some(FieldType::I32),
        type_of_code(seq!['p']) == Some(FieldType::Pointer),
        type_of_code(seq!['f']) == Some(FieldType::F64),
        type_of_code(seq!['i']) == Some(FieldType::Interval),
        type_of_code(seq!['v']) == Some(FieldType::Vector),
        type_of_code(seq!['b']) == Some(FieldType::Box),
        type_of_code(seq!['h']) == Some(FieldType::H),
        forall|c: char| #[trigger] type_of_code(seq![c]) is Some ==> c == 'u' || c == 'c' || c
            == 'l' || c == 'n' || c == 'w' || c == 'd' || c == 'p' || c == 'f' || c == 'i' || c
            == 'v' || c == 'b' || c == 'h',
{
    reveal_strlit("u");
    reveal_strlit("c");
    reveal_strlit("l");
    reveal_strlit("n");
    reveal_strlit("w");
    reveal_strlit("d");
    reveal_strlit("p");
    reveal_strlit("f");
    reveal_strlit("i");
    reveal_strlit("v");
    reveal_strlit("b");
    reveal_strlit("h");
    assert forall|c: char| seq![c][0] == c && (#[trigger] seq![c]).len() == 1 by {}
    assert("u"@ =~= seq!['u']);
    assert("c"@ =~= seq!['c']);
    assert("l"@ =~= seq!['l']);
    assert("n"@ =~= seq!['n']);
    assert("w"@ =~= seq!['w']);
    assert("d"@ =~= seq!['d']);
    assert("p"@ =~= seq!['p']);
    assert("f"@ =~= seq!['f']);
    assert("i"@ =~= seq!['i']);
    assert("v"@ =~= seq!['v']);
    assert("b"@ =~= seq!['b']);
    assert("h"@ =~= seq!['h']);
    assert(seq!['u'][0] == 'u' && seq!['c'][0] == 'c' && seq!['l'][0] == 'l' && seq!['n'][0] == 'n'
        && seq!['w'][0] == 'w' && seq!['d'][0] == 'd' && seq!['p'][0] == 'p' && seq!['f'][0] == 'f'
        && seq!['i'][0] == 'i' && seq!['v'][0] == 'v' && seq!['b'][0] == 'b' && seq!['h'][0]
        == 'h');
}

proof fn lemma_short(n: i16)
    ensures
        short_bytes(n).len() == 2,
        be_i16(short_bytes(n)) == n,
{
    reveal_with_fuel(big_endian, 3);
}

proof fn lemma_long(n: i32)
    ensures
        long_bytes(n).len() == 4,
        be_i32(long_bytes(n)) == n,
{
    reveal_with_fuel(big_endian, 5);
}

proof fn lemma_real(x: u64)
    ensures
        real_bytes(x).len() == 8,
        be_u64(real_bytes(x)) == x,
{
    reveal_with_fuel(big_endian, 9);
}

proof fn lemma_short_read(d: Seq<u8>, p: int, n: i16)
    requires
        stands(d, p, short_bytes(n)),
    ensures
        read_i16_raw(d, p) == (Ok::<i16, super::fault::Fault>(n), p + 2),
{
    lemma_short(n);
}

proof fn lemma_long_read(d: Seq<u8>, p: int, n: i32)
    requires
        stands(d, p, long_bytes(n)),
    ensures
        read_i32(d, p) == (Ok::<i32, super::fault::Fault>(n), p + 4),
{
    lemma_long(n);
}

proof fn lemma_row_read(d: Seq<u8>, p: int, xs: Seq<u64>)
    requires
        stands(d, p, row_bytes(xs)),
        xs.all(|x: u64| not_null(x)),
    ensures
        row_bytes(xs).len() == 8 * xs.len(),
        read_reals(d, p, xs.len()) == (
            Ok::<Seq<u64>, super::fault::Fault>(xs),
            p + 8 * xs.len(),
        ),
    decreases xs.len(),
{
    if xs.len() > 0 {
        let few = xs.drop_last();
        let f = |x: u64| not_null(x);
        assert forall|i: int| 0 <= i < few.len() implies f(few[i]) by {
            assert(f(xs[i]));
        }
        assert(f(xs[xs.len() - 1]));
        lemma_pieces(d, p, row_bytes(few), real_bytes(xs.last()));
        lemma_row_read(d, p, few);
        lemma_real(xs.last());
        assert(few.push(xs.last()) =~= xs);
    } else {
        assert(xs =~= Seq::empty());
    }
}

proof fn lemma_text_read(d: Seq<u8>, p: int, s: Seq<char>)
    requires
        stands(d, p, text_bytes(s)),
        plain(s),
    ensures
        read_chars(d, p, s.len() as int) == (
            Ok::<Seq<char>, super::fault::Fault>(s),
            p + s.len(),
        ),
{
    let b = text_bytes(s);
    assert(taken(d, p, s.len() as int) == (
        Ok::<Seq<u8>, super::fault::Fault>(b),
        p + s.len(),
    ));
    assert forall|i: int| 0 <= i < b.len() implies (#[trigger] b[i]) < 0x80 && b[i] as char
        == s[i] by {
        assert((s[i] as int) < 128);
        lemma_char(s[i]);
    }
    assert(crate::text::latin1(b) =~= s);
}

/// A character's number is not negative, at most 0x10FFFF and no surrogate.
proof fn lemma_char(c: char)
    ensures
        0 <= c as int <= 0x10FFFF,
        !(0xD800 <= c as int <= 0xDFFF),
        c as int <= 0xFFFF ==> (c as u16) as int == c as int,
        (c as int) < 128 ==> (c as u8) as int == c as int,
{
}

/// A text is what its code units stand for.
proof fn lemma_units(s: Seq<char>)
    ensures
        utf16_text(code_units(s)) == Some(s),
    decreases s.len(),
{
    if s.len() == 0 {
        assert(s =~= Seq::empty());
    } else {
        lemma_units(s.skip(1));
        let rest = code_units(s.skip(1));
        assert(seq![s[0]] + s.skip(1) =~= s);
        let units = code_units(s);
        let c = s[0] as int;
        lemma_char(s[0]);
        if c <= 0xFFFF {
            assert(units.skip(1) =~= rest);
            assert(units[0] as int == c);
            assert(units[0] as char == s[0]);
        } else {
            assert(units.skip(2) =~= rest);
            assert(units[0] as int == 0xD800 + (c - 0x10000) / 0x400);
            assert(units[1] as int == 0xDC00 + (c - 0x10000) % 0x400);
            assert((0x10000 + (units[0] - 0xD800) * 0x400 + (units[1] - 0xDC00)) == c);
            assert((0x10000 + (units[0] - 0xD800) * 0x400 + (units[1] - 0xDC00)) as char == s[0]);
        }
    }
}

proof fn lemma_unit_bytes(u: Seq<u16>)
    ensures
        unit_bytes(u).len() == 2 * u.len(),
        utf16_units(unit_bytes(u)) == u,
{
    let b = unit_bytes(u);
    assert forall|i: int| 0 <= i < u.len() implies utf16_units(b)[i] == u[i] by {
        assert((2 * i) / 2 == i && (2 * i + 1) / 2 == i && (2 * i) % 2 == 0 && (2 * i + 1) % 2
            == 1);
        assert(b[2 * i] == (u[i] / 256) as u8);
        assert(b[2 * i + 1] == (u[i] % 256) as u8);
    }
    assert(utf16_units(b) =~= u);
}

proof fn lemma_real_read(d: Seq<u8>, p: int, x: u64)
    requires
        stands(d, p, real_bytes(x)),
        not_null(x),
    ensures
        read_f64(d, p) == (Ok::<Option<u64>, super::fault::Fault>(Some(x)), p + 8),
{
    lemma_real(x);
}

proof fn lemma_no_real_read(d: Seq<u8>, p: int)
    requires
        stands(d, p, seq![0xC2u8, 0xBCu8, 0x92u8, 0x8Fu8, 0x99u8, 0x6Eu8, 0u8, 0u8]),
    ensures
        read_f64(d, p) == (Ok::<Option<u64>, super::fault::Fault>(None), p + 8),
{
}

proof fn lemma_no_short_read(d: Seq<u8>, p: int)
    ensures
        stands(d, p, seq![0x80u8, 0x04u8]) ==> read_i16(d, p) == (
            Ok::<Option<i16>, super::fault::Fault>(None),
            p + 2,
        ),
        stands(d, p, seq![0u8, 1u8]) ==> read_pointer(d, p) == (
            Ok::<Option<i16>, super::fault::Fault>(None),
            p + 2,
        ),
{
}

proof fn lemma_byte_read(d: Seq<u8>, p: int, b: u8)
    requires
        stands(d, p, seq![b]),
    ensures
        read_u8(d, p) == (Ok::<u8, super::fault::Fault>(b), p + 1),
{
    assert(seq![b][0] == b);
}

proof fn lemma_units_read(d: Seq<u8>, p: int, s: Seq<char>)
    requires
        stands(d, p, unit_bytes(code_units(s))),
    ensures
        unit_bytes(code_units(s)).len() == 2 * code_units(s).len(),
        read_utf16(d, p, code_units(s).len() as int) == (
            Ok::<Seq<char>, super::fault::Fault>(s),
            p + 2 * code_units(s).len(),
        ),
{
    lemma_units(s);
    lemma_unit_bytes(code_units(s));
}

proof fn lemma_box_read(d: Seq<u8>, p: int, a: Seq<Seq<u64>>)
    requires
        a.len() == 3,
        a.all(|a: Seq<u64>| a.len() == 2 && a.all(|x: u64| not_null(x))),
        stands(d, p, row_bytes(a[0]) + row_bytes(a[1]) + row_bytes(a[2])),
    ensures
        (row_bytes(a[0]) + row_bytes(a[1]) + row_bytes(a[2])).len() == 48,
        super::reader::read_box(d, p) == (
            Ok::<Seq<Seq<u64>>, super::fault::Fault>(a),
            p + 48,
        ),
{
    let f = |a: Seq<u64>| a.len() == 2 && a.all(|x: u64| not_null(x));
    assert(f(a[0]) && f(a[1]) && f(a[2]));
    lemma_pieces(d, p, row_bytes(a[0]) + row_bytes(a[1]), row_bytes(a[2]));
    lemma_pieces(d, p, row_bytes(a[0]), row_bytes(a[1]));
    lemma_row_read(d, p, a[0]);
    lemma_row_read(d, p + 16, a[1]);
    lemma_row_read(d, p + 32, a[2]);
    assert(seq![a[0], a[1], a[2]] =~= a);
}

/// One value that is written in a field of some type code is read back as it was,
/// its kind included, and the reading ends where the value does.
pub proof fn lemma_scalars_read_back(code: char, v: ValueView, d: Seq<u8>, p: int)
    requires
        scalar_bytes(code, v) is Some,
        stands(d, p, scalar_bytes(code, v)->0),
    ensures
        type_of_code(seq![code]) is Some,
        read_scalar(type_of_code(seq![code])->0, d, p) == (
            Ok::<ValueView, super::fault::Fault>(v),
            p + scalar_bytes(code, v)->0.len(),
        ),
{
    lemma_codes();
    let b = scalar_bytes(code, v)->0;
    if code == 'u' {
        lemma_byte_read(d, p, b[0]);
    } else if code == 'c' {
        assert(text_bytes(v->Char_0) =~= b);
        lemma_text_read(d, p, v->Char_0);
    } else if code == 'l' {
        lemma_byte_read(d, p, b[0]);
    } else if code == 'n' {
        lemma_no_short_read(d, p);
        if v is I16 {
            lemma_short(v->I16_0);
            lemma_short_read(d, p, v->I16_0);
        }
    } else if code == 'w' {
        lemma_units_read(d, p, v->Utf16_0);
    } else if code == 'd' {
        lemma_long(v->I32_0);
        lemma_long_read(d, p, v->I32_0);
    } else if code == 'p' {
        lemma_no_short_read(d, p);
        if v->Ptr_0 is Some {
            lemma_short(v->Ptr_0->0);
            lemma_short_read(d, p, v->Ptr_0->0);
        }
    } else if code == 'f' {
        if v is F64 {
            lemma_real(v->F64_0);
            lemma_real_read(d, p, v->F64_0);
        } else {
            lemma_no_real_read(d, p);
        }
    } else if code == 'i' {
        lemma_row_read(d, p, v->Interval_0);
    } else if code == 'v' || code == 'h' {
        lemma_row_read(d, p, v->Vec3_0);
    } else {
        lemma_box_read(d, p, v->Box3_0);
    }
}


/// A vector with a component that is no number reads back with a NaN there.
pub proof fn lemma_missing_components_read_as_nan(d: Seq<u8>, p: int, x: u64, z: u64)
    requires
        not_null(x),
        not_null(z),
        stands(
            d,
            p,
            real_bytes(x) + seq![0xC2u8, 0xBCu8, 0x92u8, 0x8Fu8, 0x99u8, 0x6Eu8, 0u8, 0u8]
                + real_bytes(z),
        ),
    ensures
        read_scalar(FieldType::Vector, d, p) == (
            Ok::<ValueView, super::fault::Fault>(ValueView::Vec3(seq![x, NAN_BITS, z])),
            p + 24,
        ),
{
    let none = seq![0xC2u8, 0xBCu8, 0x92u8, 0x8Fu8, 0x99u8, 0x6Eu8, 0u8, 0u8];
    lemma_pieces(d, p, real_bytes(x) + none, real_bytes(z));
    lemma_pieces(d, p, real_bytes(x), none);
    lemma_real(x);
    lemma_real(z);
    lemma_real_read(d, p, x);
    lemma_no_real_read(d, p + 8);
    lemma_real_read(d, p + 16, z);
    reveal_with_fuel(read_reals, 4);
    assert(Seq::<u64>::empty().push(x).push(NAN_BITS).push(z) =~= seq![x, NAN_BITS, z]);
}

proof fn lemma_items_read(code: char, items: Seq<ValueView>, d: Seq<u8>, p: int)
    requires
        item_bytes(code, items) is Some,
        items.len() > 0,
        stands(d, p, item_bytes(code, items)->0),
    ensures
        type_of_code(seq![code]) is Some,
        read_items(type_of_code(seq![code])->0, items.len(), d, p) == (
            Ok::<Seq<ValueView>, super::fault::Fault>(items),
            p + item_bytes(code, items)->0.len(),
        ),
    decreases items.len(),
{
    let few = items.drop_last();
    let a = item_bytes(code, few)->0;
    let b = scalar_bytes(code, items.last())->0;
    lemma_pieces(d, p, a, b);
    lemma_scalars_read_back(code, items.last(), d, p + a.len());
    if few.len() > 0 {
        lemma_items_read(code, few, d, p);
    } else {
        assert(few =~= Seq::empty());
        reveal_with_fuel(read_items, 2);
    }
    assert(few.push(items.last()) =~= items);
}

/// How many elements a field holds: as many as are asked for where that is more
/// than one, or else as many as its definition says.
pub open spec fn elements(def: FieldDefView, count: int) -> int {
    if count > 1 {
        count
    } else {
        def.n_elements as int
    }
}

/// What is written in a field is read back as it was: one value, several in a
/// row as an array, several characters as one text.
pub proof fn lemma_fields_read_back(
    code: char,
    def: FieldDefView,
    count: int,
    v: ValueView,
    d: Seq<u8>,
    p: int,
)
    requires
        type_of_code(seq![code]) == Some(def.field_type),
        field_bytes(code, elements(def, count), v) is Some,
        stands(d, p, field_bytes(code, elements(def, count), v)->0),
    ensures
        read_field(def, d, p, count) == (
            Ok::<ValueView, super::fault::Fault>(v),
            p + field_bytes(code, elements(def, count), v)->0.len(),
        ),
{
    lemma_codes();
    let n = elements(def, count);
    if n <= 1 {
        lemma_scalars_read_back(code, v, d, p);
    } else if code == 'c' {
        lemma_text_read(d, p, v->Char_0);
    } else if code == 'w' {
        lemma_units_read(d, p, v->Utf16_0);
    } else {
        lemma_items_read(code, v->Array_0, d, p);
        assert(def.field_type != FieldType::Char && def.field_type != FieldType::Utf16);
    }
}

/// A text behind its length in one byte.
pub open spec fn short_text(s: Seq<char>) -> Seq<u8> {
    seq![s.len() as u8] + text_bytes(s)
}

/// A text behind its length in four bytes.
pub open spec fn long_text(s: Seq<char>) -> Seq<u8> {
    long_bytes(s.len() as i32) + text_bytes(s)
}

/// A text behind its length is read back, whichever way the length is written.
pub proof fn lemma_texts_read_back(d: Seq<u8>, p: int, s: Seq<char>)
    requires
        plain(s),
    ensures
        s.len() <= 255 && stands(d, p, short_text(s)) ==> read_str_u8(d, p) == (
            Ok::<Seq<char>, super::fault::Fault>(s),
            p + 1 + s.len(),
        ),
        s.len() <= i32::MAX && stands(d, p, long_text(s)) ==> read_str_i32(d, p) == (
            Ok::<Seq<char>, super::fault::Fault>(s),
            p + 4 + s.len(),
        ),
{
    if s.len() <= 255 && stands(d, p, short_text(s)) {
        lemma_pieces(d, p, seq![s.len() as u8], text_bytes(s));
        lemma_byte_read(d, p, s.len() as u8);
        lemma_text_read(d, p + 1, s);
    }
    if s.len() <= i32::MAX && stands(d, p, long_text(s)) {
        lemma_long(s.len() as i32);
        lemma_pieces(d, p, long_bytes(s.len() as i32), text_bytes(s));
        lemma_long_read(d, p, s.len() as i32);
        lemma_text_read(d, p + 4, s);
    }
}

/// A text that its length fits one byte with.
pub open spec fn brief(s: Seq<char>) -> bool {
    plain(s) && s.len() <= 255
}

/// A field definition that a transmit can hold: only one with pointer class 0 has
/// a type code of its own, only one of two elements can be marked.
pub open spec fn storable(e: EmbeddedFieldView) -> bool {
    &&& brief(e.name)
    &&& brief(e.field_type)
    &&& e.ptr_class != 0 ==> e.field_type == seq!['p']
    &&& e.n_elements != 2 ==> !e.xmt_code
}

/// The bytes of a field definition.
pub open spec fn definition_bytes(e: EmbeddedFieldView) -> Seq<u8> {
    short_text(e.name) + short_bytes(e.ptr_class) + short_bytes(e.n_elements) + (if e.ptr_class
        == 0 {
        short_text(e.field_type)
    } else {
        Seq::empty()
    }) + (if e.n_elements == 2 {
        seq![
            if e.xmt_code {
                1u8
            } else {
                0u8
            },
        ]
    } else {
        Seq::empty()
    })
}

/// A field definition is read back.
pub proof fn lemma_definitions_read_back(d: Seq<u8>, p: int, e: EmbeddedFieldView)
    requires
        storable(e),
        stands(d, p, definition_bytes(e)),
    ensures
        read_embedded(d, p) == (
            Ok::<EmbeddedFieldView, super::fault::Fault>(e),
            p + definition_bytes(e).len(),
        ),
{
    let a = short_text(e.name);
    let b = short_bytes(e.ptr_class);
    let c = short_bytes(e.n_elements);
    let code = if e.ptr_class == 0 {
        short_text(e.field_type)
    } else {
        Seq::empty()
    };
    let mark: u8 = if e.xmt_code {
        1
    } else {
        0
    };
    let marks = if e.n_elements == 2 {
        seq![mark]
    } else {
        Seq::empty()
    };
    lemma_pieces(d, p, a + b + c + code, marks);
    lemma_pieces(d, p, a + b + c, code);
    lemma_pieces(d, p, a + b, c);
    lemma_pieces(d, p, a, b);
    lemma_short(e.ptr_class);
    lemma_short(e.n_elements);
    let p1 = p + a.len();
    lemma_texts_read_back(d, p, e.name);
    lemma_short_read(d, p1, e.ptr_class);
    lemma_short_read(d, p1 + 2, e.n_elements);
    if e.ptr_class == 0 {
        lemma_texts_read_back(d, p1 + 4, e.field_type);
    } else {
        reveal_strlit("p");
        assert("p"@ =~= seq!['p']);
    }
    if e.n_elements == 2 {
        lemma_byte_read(d, p1 + 4 + code.len(), mark);
    }
}

/// The bytes of field definitions in a row.
pub open spec fn definitions_bytes(fields: Seq<EmbeddedFieldView>) -> Seq<u8>
    decreases fields.len(),
{
    if fields.len() == 0 {
        Seq::empty()
    } else {
        definitions_bytes(fields.drop_last()) + definition_bytes(fields.last())
    }
}

proof fn lemma_definitions_in_a_row(d: Seq<u8>, p: int, fields: Seq<EmbeddedFieldView>)
    requires
        0 <= p,
        stands(d, p, definitions_bytes(fields)),
        forall|i: int| 0 <= i < fields.len() ==> storable(#[trigger] fields[i]),
    ensures
        read_embeddeds(d, p, fields.len()) == (
            Ok::<Seq<EmbeddedFieldView>, super::fault::Fault>(fields),
            p + definitions_bytes(fields).len(),
        ),
    decreases fields.len(),
{
    if fields.len() > 0 {
        let few = fields.drop_last();
        assert forall|i: int| 0 <= i < few.len() implies storable(#[trigger] few[i]) by {
            assert(storable(fields[i]));
        }
        lemma_pieces(d, p, definitions_bytes(few), definition_bytes(fields.last()));
        lemma_definitions_in_a_row(d, p, few);
        lemma_definitions_read_back(d, p + definitions_bytes(few).len(), fields.last());
        assert(few.push(fields.last()) =~= fields);
    } else {
        assert(fields =~= Seq::empty());
    }
}

/// What a field definition says of the field: its name, the type of its code, its
/// class and its number of elements.
pub open spec fn defines(e: EmbeddedFieldView, f: FieldDefView) -> bool {
    &&& f.name == e.name
    &&& type_of_code(e.field_type) == Some(f.field_type)
    &&& f.node_class == e.ptr_class
    &&& f.n_elements == e.n_elements
}

proof fn lemma_defines(fields: Seq<EmbeddedFieldView>, defs: Seq<FieldDefView>)
    requires
        fields.len() == defs.len(),
        forall|i: int| 0 <= i < fields.len() ==> defines(#[trigger] fields[i], defs[i]),
    ensures
        all_defs(fields) == Ok::<Seq<FieldDefView>, super::fault::Fault>(defs),
    decreases fields.len(),
{
    if fields.len() > 0 {
        assert forall|i: int| 0 <= i < fields.len() - 1 implies defines(
            #[trigger] fields.drop_last()[i],
            defs.drop_last()[i],
        ) by {
            assert(defines(fields[i], defs[i]));
        }
        lemma_defines(fields.drop_last(), defs.drop_last());
        assert(defines(fields[fields.len() - 1], defs[defs.len() - 1]));
        assert(defs.drop_last().push(defs.last()) =~= defs);
    } else {
        assert(defs =~= Seq::empty());
    }
}

/// The description of a type that a transmit brings along is read back: its name,
/// its text and its fields. The type is of variable length exactly where its last
/// field is marked so.
pub proof fn lemma_types_read_back(
    d: Seq<u8>,
    p: int,
    node_type: i16,
    name: Seq<char>,
    text: Seq<char>,
    fields: Seq<EmbeddedFieldView>,
    defs: Seq<FieldDefView>,
)
    requires
        brief(name),
        brief(text),
        fields.len() == defs.len(),
        forall|i: int|
            0 <= i < fields.len() ==> storable(#[trigger] fields[i]) && defines(fields[i], defs[i]),
        stands(d, p, short_text(name) + short_text(text) + definitions_bytes(fields)),
    ensures
        read_type(d, p, node_type, fields.len()) == (
            Ok::<TypeDefView, super::fault::Fault>(
                TypeDefView {
                    node_type,
                    node_name: name,
                    description: text,
                    variable: fields.len() > 0 && fields.last().xmt_code,
                    fields: defs,
                },
            ),
            p + short_text(name).len() + short_text(text).len() + definitions_bytes(fields).len(),
        ),
{
    let a = short_text(name);
    let b = short_text(text);
    lemma_pieces(d, p, a + b, definitions_bytes(fields));
    lemma_pieces(d, p, a, b);
    lemma_texts_read_back(d, p, name);
    lemma_texts_read_back(d, p + a.len(), text);
    lemma_definitions_in_a_row(d, p + a.len() + b.len(), fields);
    lemma_defines(fields, defs);
}

/// One step of turning the layout of the base schema into that of a transmit.
pub enum Edit {
    /// Keep the next field of the base layout.
    Keep,
    /// Leave the next field of the base layout out.
    Leave,
    /// A new field among those of the base layout.
    Among(EmbeddedFieldView, FieldDefView),
    /// A new field behind those of the base layout.
    Behind(EmbeddedFieldView, FieldDefView),
}

/// The bytes of an edit. The number of elements of a field that goes among the
/// others is written one too high where it is above two.
pub open spec fn edit_bytes(e: Edit) -> Seq<u8> {
    match e {
        Edit::Keep => seq![67u8],
        Edit::Leave => seq![68u8],
        Edit::Among(f, _) => seq![73u8] + definition_bytes(f),
        Edit::Behind(f, _) => seq![65u8] + definition_bytes(f),
    }
}

/// An edit that a transmit can hold, with the field that its definition gives.
pub open spec fn sound(e: Edit) -> bool {
    match e {
        Edit::Among(f, def) => {
            &&& storable(f)
            &&& def.name == f.name
            &&& type_of_code(f.field_type) == Some(def.field_type)
            &&& def.node_class == f.ptr_class
            &&& def.n_elements == if f.n_elements > 2 {
                f.n_elements - 1
            } else {
                f.n_elements as int
            }
        },
        Edit::Behind(f, def) => storable(f) && defines(f, def),
        _ => true,
    }
}

/// The bytes of edits, and the letter that ends them.
pub open spec fn script_bytes(edits: Seq<Edit>) -> Seq<u8>
    decreases edits.len(),
{
    if edits.len() == 0 {
        seq![90u8]
    } else {
        edit_bytes(edits[0]) + script_bytes(edits.skip(1))
    }
}

/// The layout behind edits of a base layout of which `at` fields are used up.
pub open spec fn layout_of(edits: Seq<Edit>, base: Seq<FieldDefView>, at: nat) -> Seq<FieldDefView>
    decreases edits.len(),
{
    if edits.len() == 0 {
        Seq::empty()
    } else {
        let rest = edits.skip(1);
        match edits[0] {
            Edit::Keep => seq![base[at as int]] + layout_of(rest, base, at + 1),
            Edit::Leave => layout_of(rest, base, at + 1),
            Edit::Among(_, def) => seq![def] + layout_of(rest, base, at),
            Edit::Behind(_, def) => seq![def] + layout_of(rest, base, at),
        }
    }
}

/// No edit keeps a field that the base layout does not have.
pub open spec fn within(edits: Seq<Edit>, base: Seq<FieldDefView>, at: nat) -> bool
    decreases edits.len(),
{
    edits.len() > 0 ==> {
        let rest = edits.skip(1);
        match edits[0] {
            Edit::Keep => at < base.len() && within(rest, base, at + 1),
            Edit::Leave => within(rest, base, at + 1),
            _ => within(rest, base, at),
        }
    }
}

/// A script of edits is read as the layout that they make of the base layout, and
/// the reading ends behind the letter that ends the script.
pub proof fn lemma_edits_read_back(
    d: Seq<u8>,
    p: int,
    node_type: i16,
    edits: Seq<Edit>,
    base: Seq<FieldDefView>,
    at: nat,
    before: Seq<FieldDefView>,
)
    requires
        stands(d, p, script_bytes(edits)),
        within(edits, base, at),
        forall|i: int| 0 <= i < edits.len() ==> sound(#[trigger] edits[i]),
    ensures
        edited_fields(d, p, node_type, base, at, before) == (
            Ok::<Seq<FieldDefView>, super::fault::Fault>(before + layout_of(edits, base, at)),
            p + script_bytes(edits).len(),
        ),
    decreases edits.len(),
{
    if edits.len() == 0 {
        lemma_byte_read(d, p, 90);
        assert(before + layout_of(edits, base, at) =~= before);
    } else {
        let rest = edits.skip(1);
        assert forall|i: int| 0 <= i < rest.len() implies sound(#[trigger] rest[i]) by {
            assert(sound(edits[i + 1]));
        }
        let e = edits[0];
        assert(sound(e));
        lemma_pieces(d, p, edit_bytes(e), script_bytes(rest));
        let q = p + edit_bytes(e).len();
        match e {
            Edit::Keep => {
                lemma_byte_read(d, p, 67);
                let more = before.push(base[at as int]);
                lemma_edits_read_back(d, q, node_type, rest, base, at + 1, more);
                assert(more + layout_of(rest, base, at + 1) =~= before + layout_of(
                    edits,
                    base,
                    at,
                ));
            },
            Edit::Leave => {
                lemma_byte_read(d, p, 68);
                lemma_edits_read_back(d, q, node_type, rest, base, at + 1, before);
            },
            Edit::Among(f, def) => {
                lemma_pieces(d, p, seq![73u8], definition_bytes(f));
                lemma_byte_read(d, p, 73);
                lemma_definitions_read_back(d, p + 1, f);
                assert(super::inserted(f).def() == Ok::<FieldDefView, super::fault::Fault>(def));
                let more = before.push(def);
                lemma_edits_read_back(d, q, node_type, rest, base, at, more);
                assert(more + layout_of(rest, base, at) =~= before + layout_of(edits, base, at));
            },
            Edit::Behind(f, def) => {
                lemma_pieces(d, p, seq![65u8], definition_bytes(f));
                lemma_byte_read(d, p, 65);
                lemma_definitions_read_back(d, p + 1, f);
                assert(f.def() == Ok::<FieldDefView, super::fault::Fault>(def));
                let more = before.push(def);
                lemma_edits_read_back(d, q, node_type, rest, base, at, more);
                assert(more + layout_of(rest, base, at) =~= before + layout_of(edits, base, at));
            },
        }
    }
}


/// The bytes of the first `n` fields of a node, whose types have the codes. The
/// last field of a node of variable length is there `repeat` times.
pub open spec fn node_field_bytes(
    codes: Seq<char>,
    layout: Seq<FieldDefView>,
    variable: bool,
    repeat: int,
    fields: Seq<(Seq<char>, ValueView)>,
    n: nat,
) -> Option<Seq<u8>>
    decreases n,
{
    if n == 0 {
        Some(Seq::empty())
    } else {
        let count = if variable && n == layout.len() {
            repeat
        } else {
            1
        };
        match (
            node_field_bytes(codes, layout, variable, repeat, fields, (n - 1) as nat),
            field_bytes(codes[n - 1], elements(layout[n - 1], count), fields[n - 1].1),
        ) {
            (Some(a), Some(b)) => Some(a + b),
            _ => None,
        }
    }
}

/// The codes stand for the types of the fields of a layout.
pub open spec fn codes_of(codes: Seq<char>, layout: Seq<FieldDefView>) -> bool {
    &&& codes.len() == layout.len()
    &&& forall|i: int|
        0 <= i < layout.len() ==> type_of_code(seq![#[trigger] codes[i]]) == Some(
            layout[i].field_type,
        )
}

/// The node is of the type: it bears its name and has its fields in their order,
/// and a repeat count exactly where the type is of variable length.
pub open spec fn of_type(node: NodeView, def: TypeDefView, layout: Seq<FieldDefView>) -> bool {
    &&& node.name == def.node_name
    &&& node.count is Some <==> def.variable
    &&& node.fields.len() == layout.len()
    &&& forall|i: int| 0 <= i < layout.len() ==> (#[trigger] node.fields[i]).0 == layout[i].name
}

/// The bytes of a node behind its type: the repeat count where there is one, the
/// id, and the fields.
pub open spec fn payload_bytes(
    codes: Seq<char>,
    layout: Seq<FieldDefView>,
    node: NodeView,
) -> Option<Seq<u8>> {
    let (variable, repeat) = match node.count {
        Some(n) => (true, n),
        None => (false, 0i32),
    };
    match node_field_bytes(codes, layout, variable, repeat as int, node.fields, layout.len()) {
        Some(fields) => Some(
            (if variable {
                long_bytes(repeat)
            } else {
                Seq::empty()
            }) + short_bytes(node.id) + fields,
        ),
        None => None,
    }
}

proof fn lemma_node_fields_read(
    d: Seq<u8>,
    p: int,
    codes: Seq<char>,
    layout: Seq<FieldDefView>,
    variable: bool,
    repeat: int,
    fields: Seq<(Seq<char>, ValueView)>,
    n: nat,
)
    requires
        n <= layout.len(),
        fields.len() == layout.len(),
        codes_of(codes, layout),
        forall|i: int| 0 <= i < layout.len() ==> (#[trigger] fields[i]).0 == layout[i].name,
        node_field_bytes(codes, layout, variable, repeat, fields, n) is Some,
        stands(d, p, node_field_bytes(codes, layout, variable, repeat, fields, n)->0),
    ensures
        read_node_fields(d, p, layout, variable, repeat, n) == (
            Ok::<Seq<(Seq<char>, ValueView)>, super::fault::Fault>(fields.take(n as int)),
            p + node_field_bytes(codes, layout, variable, repeat, fields, n)->0.len(),
        ),
    decreases n,
{
    if n == 0 {
        assert(fields.take(0) =~= Seq::empty());
    } else {
        let few = (n - 1) as nat;
        let count = if variable && n == layout.len() {
            repeat
        } else {
            1
        };
        let def = layout[n - 1];
        let a = node_field_bytes(codes, layout, variable, repeat, fields, few)->0;
        let b = field_bytes(codes[n - 1], elements(def, count), fields[n - 1].1)->0;
        lemma_pieces(d, p, a, b);
        lemma_node_fields_read(d, p, codes, layout, variable, repeat, fields, few);
        assert(type_of_code(seq![codes[n - 1]]) == Some(def.field_type));
        lemma_fields_read_back(codes[n - 1], def, count, fields[n - 1].1, d, p + a.len());
        assert(fields[n - 1].0 == def.name);
        assert(fields.take(few as int).push(fields[n - 1]) =~= fields.take(n as int));
    }
}

/// A node that is written is read back as it was: its id, its repeat count and
/// every field under its name.
pub proof fn lemma_nodes_read_back(
    d: Seq<u8>,
    p: int,
    codes: Seq<char>,
    def: TypeDefView,
    layout: Seq<FieldDefView>,
    node: NodeView,
)
    requires
        codes_of(codes, layout),
        of_type(node, def, layout),
        payload_bytes(codes, layout, node) is Some,
        stands(d, p, payload_bytes(codes, layout, node)->0),
    ensures
        read_payload(d, p, def, node.node_type, layout) == (
            Ok::<NodeView, super::fault::Fault>(node),
            p + payload_bytes(codes, layout, node)->0.len(),
        ),
{
    let (variable, repeat) = match node.count {
        Some(n) => (true, n),
        None => (false, 0i32),
    };
    let head = if variable {
        long_bytes(repeat)
    } else {
        Seq::empty()
    };
    let n = layout.len();
    let fields = node_field_bytes(codes, layout, variable, repeat as int, node.fields, n)->0;
    lemma_pieces(d, p, head + short_bytes(node.id), fields);
    lemma_pieces(d, p, head, short_bytes(node.id));
    lemma_short(node.id);
    lemma_long(repeat);
    if variable {
        lemma_long_read(d, p, repeat);
    }
    lemma_short_read(d, p + head.len(), node.id);
    lemma_node_fields_read(
        d,
        p + head.len() + 2,
        codes,
        layout,
        variable,
        repeat as int,
        node.fields,
        n,
    );
    assert(node.fields.take(n as int) =~= node.fields);
}

/// A node whose layout has a one-character field `sense` that is written with the
/// byte of a minus sign reads back with a negative sense, and with a positive one
/// for any other byte.
pub proof fn lemma_a_written_sense_is_read(
    d: Seq<u8>,
    p: int,
    layout: Seq<FieldDefView>,
    variable: bool,
    repeat: int,
    k: int,
    node: NodeView,
    b: u8,
)
    requires
        0 <= k < layout.len(),
        !variable || k < layout.len() - 1,
        layout[k].name == "sense"@,
        layout[k].n_elements <= 1,
        type_of_code(seq!['c']) == Some(layout[k].field_type),
        forall|i: int| 0 <= i < k ==> (#[trigger] layout[i]).name != "sense"@,
        read_node_fields(d, p, layout, variable, repeat, layout.len()).0 == Ok::<
            Seq<(Seq<char>, ValueView)>,
            super::fault::Fault,
        >(node.fields),
        b < 128,
        stands(d, read_node_fields(d, p, layout, variable, repeat, k as nat).1, seq![b]),
    ensures
        node.field("sense"@) == Some(ValueView::Char(seq![b as char])),
        node.positive() == (b != 0x2D),
{
    let at = read_node_fields(d, p, layout, variable, repeat, k as nat).1;
    lemma_named_fields(d, p, layout, variable, repeat, layout.len(), node.fields);
    let s = seq![b as char];
    assert(scalar_bytes('c', ValueView::Char(s)) == Some(seq![b])) by {
        assert(seq![s[0] as u8] =~= seq![b]);
    }
    lemma_scalars_read_back('c', ValueView::Char(s), d, at);
    lemma_node_fields_prefix(d, p, layout, variable, repeat, (k + 1) as nat, layout.len());
    lemma_node_fields_prefix(d, p, layout, variable, repeat, k as nat, layout.len());
    let upto = read_node_fields(d, p, layout, variable, repeat, (k + 1) as nat).0->Ok_0;
    assert(upto[k] == ("sense"@, ValueView::Char(s)));
    assert(node.fields.take(k + 1)[k] == node.fields[k]);
    assert forall|i: int| 0 <= i < k implies (#[trigger] node.fields[i]).0 != "sense"@ by {
        assert(layout[i].name != "sense"@);
    }
    crate::value::lemma_first_field_is_found(node.fields, "sense"@, k);
}

/// The fields that are read bear the names of the layout, in its order.
proof fn lemma_named_fields(
    d: Seq<u8>,
    p: int,
    layout: Seq<FieldDefView>,
    variable: bool,
    repeat: int,
    n: nat,
    fields: Seq<(Seq<char>, ValueView)>,
)
    requires
        read_node_fields(d, p, layout, variable, repeat, n).0 == Ok::<
            Seq<(Seq<char>, ValueView)>,
            super::fault::Fault,
        >(fields),
    ensures
        fields.len() == n,
        forall|i: int| 0 <= i < n ==> (#[trigger] fields[i]).0 == layout[i].name,
    decreases n,
{
    if n > 0 {
        let few = read_node_fields(d, p, layout, variable, repeat, (n - 1) as nat).0->Ok_0;
        lemma_named_fields(d, p, layout, variable, repeat, (n - 1) as nat, few);
        assert forall|i: int| 0 <= i < n implies (#[trigger] fields[i]).0 == layout[i].name by {
            if i < n - 1 {
                assert(fields[i] == few[i]);
            }
        }
    }
}

/// The first fields that are read are those that all of them begin with.
proof fn lemma_node_fields_prefix(
    d: Seq<u8>,
    p: int,
    layout: Seq<FieldDefView>,
    variable: bool,
    repeat: int,
    n: nat,
    m: nat,
)
    requires
        n <= m,
        read_node_fields(d, p, layout, variable, repeat, m).0 is Ok,
    ensures
        read_node_fields(d, p, layout, variable, repeat, n).0 is Ok,
        read_node_fields(d, p, layout, variable, repeat, m).0->Ok_0.len() == m,
        read_node_fields(d, p, layout, variable, repeat, n).0->Ok_0 == read_node_fields(
            d,
            p,
            layout,
            variable,
            repeat,
            m,
        ).0->Ok_0.take(n as int),
    decreases m,
{
    let all = read_node_fields(d, p, layout, variable, repeat, m).0->Ok_0;
    lemma_named_fields(d, p, layout, variable, repeat, m, all);
    if n < m {
        lemma_node_fields_prefix(d, p, layout, variable, repeat, n, (m - 1) as nat);
        let few = read_node_fields(d, p, layout, variable, repeat, (m - 1) as nat).0->Ok_0;
        assert(all.take(n as int) =~= few.take(n as int));
    } else {
        assert(all.take(n as int) =~= all);
    }
}

/// The node type occurs among the first `n` nodes.
pub open spec fn occurs(nodes: Seq<NodeView>, n: int, node_type: i16) -> bool {
    exists|i: int| 0 <= i < n && (#[trigger] nodes[i]).node_type == node_type
}

/// The bytes of the first `n` records: the type of each node, 255 behind it where
/// the type occurs for the first time, and the node.
pub open spec fn record_bytes(
    codes: Map<i16, Seq<char>>,
    types: Map<i16, TypeDefView>,
    nodes: Seq<NodeView>,
    n: nat,
) -> Option<Seq<u8>>
    decreases n,
{
    if n == 0 {
        Some(Seq::empty())
    } else {
        let node = nodes[n - 1];
        let t = node.node_type;
        match (
            record_bytes(codes, types, nodes, (n - 1) as nat),
            payload_bytes(codes[t], types[t].fields, node),
        ) {
            (Some(a), Some(b)) => Some(
                a + (short_bytes(t) + (if occurs(nodes, n - 1, t) {
                    Seq::empty()
                } else {
                    seq![255u8]
                }) + b),
            ),
            _ => None,
        }
    }
}

/// A node of a type of the base schema, which is no terminator.
pub open spec fn ordinary(
    node: NodeView,
    codes: Map<i16, Seq<char>>,
    types: Map<i16, TypeDefView>,
    max: i16,
) -> bool {
    &&& node.node_type != 1
    &&& node.node_type <= max
    &&& types.contains_key(node.node_type)
    &&& codes_of(codes[node.node_type], types[node.node_type].fields)
    &&& of_type(node, types[node.node_type], types[node.node_type].fields)
}

/// The bytes of the header: `PS`, two texts, the highest and the lowest type, and
/// two bytes more.
pub open spec fn header_bytes(
    version: Seq<char>,
    schema: Seq<char>,
    max: i16,
    min: i16,
    more: Seq<u8>,
) -> Seq<u8> {
    seq![80u8, 83u8] + long_text(version) + long_text(schema) + short_bytes(max) + short_bytes(
        min,
    ) + more
}

proof fn lemma_header_reads_back(
    d: Seq<u8>,
    version: Seq<char>,
    schema: Seq<char>,
    max: i16,
    min: i16,
    more: Seq<u8>,
)
    requires
        plain(version) && version.len() <= i32::MAX,
        plain(schema) && schema.len() <= i32::MAX,
        more.len() == 2,
        stands(d, 0, header_bytes(version, schema, max, min, more)),
    ensures
        read_header(d, 0) == (
            Ok::<(Seq<char>, Seq<char>, i16, i16), super::fault::Fault>(
                (version, schema, min, max),
            ),
            header_bytes(version, schema, max, min, more).len() as int,
        ),
{
    let m = seq![80u8, 83u8];
    let a = long_text(version);
    let b = long_text(schema);
    let c = short_bytes(max);
    let e = short_bytes(min);
    lemma_pieces(d, 0, m + a + b + c + e, more);
    lemma_pieces(d, 0, m + a + b + c, e);
    lemma_pieces(d, 0, m + a + b, c);
    lemma_pieces(d, 0, m + a, b);
    lemma_pieces(d, 0, m, a);
    lemma_short(max);
    lemma_short(min);
    lemma_long(version.len() as i32);
    lemma_long(schema.len() as i32);
    assert(d.subrange(0, 2) == m);
    assert(d[0] == d.subrange(0, 2)[0] && d[1] == d.subrange(0, 2)[1]);
    assert(d[0] == 80 && d[1] == 83);
    assert(!crate::bytes::has_at(d, 0, super::STARS@)) by {
        assert(super::STARS@[0] == 42);
        if crate::bytes::has_at(d, 0, super::STARS@) {
            assert(d.subrange(0, 2)[0] == 42);
        }
    }
    assert(crate::bytes::has_at(d, 0, super::MAGIC@)) by {
        assert(d.subrange(0, 2) =~= super::MAGIC@);
    }
    lemma_texts_read_back(d, 2, version);
    lemma_texts_read_back(d, 2 + a.len() as int, schema);
    let q: int = 2 + a.len() + b.len() as int;
    lemma_short_read(d, q, max);
    lemma_short_read(d, q + 2, min);
    assert(more =~= seq![more[0]] + seq![more[1]]);
    lemma_pieces(d, q + 4, seq![more[0]], seq![more[1]]);
    lemma_byte_read(d, q + 4, more[0]);
    lemma_byte_read(d, q + 5, more[1]);
    assert(header_fields(d, 2).1 == q + 6);
}

/// The layouts of the types of the first `n` nodes.
spec fn met(types: Map<i16, TypeDefView>, nodes: Seq<NodeView>, n: int) -> Map<
    i16,
    Seq<FieldDefView>,
> {
    Map::new(|t: i16| occurs(nodes, n, t), |t: i16| types[t].fields)
}

proof fn lemma_met(types: Map<i16, TypeDefView>, nodes: Seq<NodeView>, n: int)
    requires
        0 < n <= nodes.len(),
    ensures
        ({
            let t = nodes[n - 1].node_type;
            let before = met(types, nodes, n - 1);
            &&& before.contains_key(t) <==> occurs(nodes, n - 1, t)
            &&& met(types, nodes, n) == before.insert(t, types[t].fields)
            &&& before.contains_key(t) ==> met(types, nodes, n) == before
        }),
{
    let t = nodes[n - 1].node_type;
    let before = met(types, nodes, n - 1);
    assert forall|u: i16| #[trigger] occurs(nodes, n, u) == (occurs(nodes, n - 1, u) || u == t) by {
        if occurs(nodes, n, u) {
            let i = choose|i: int| 0 <= i < n && (#[trigger] nodes[i]).node_type == u;
            if i < n - 1 {
                assert(nodes[i].node_type == u);
            }
        }
        if occurs(nodes, n - 1, u) {
            let i = choose|i: int| 0 <= i < n - 1 && (#[trigger] nodes[i]).node_type == u;
            assert(nodes[i].node_type == u);
        }
        if u == t {
            assert(nodes[n - 1].node_type == u);
        }
    }
    assert(met(types, nodes, n) =~= before.insert(t, types[t].fields));
    if before.contains_key(t) {
        assert(before.insert(t, types[t].fields) =~= before);
    }
}

/// One record is read, and what is known behind it.
proof fn lemma_record_read(
    d: Seq<u8>,
    st: Progress,
    codes: Seq<char>,
    max: i16,
    node: NodeView,
    first: Seq<u8>,
)
    requires
        node.node_type != 1,
        node.node_type <= max,
        st.types.contains_key(node.node_type),
        codes_of(codes, st.types[node.node_type].fields),
        of_type(node, st.types[node.node_type], st.types[node.node_type].fields),
        st.layouts.contains_key(node.node_type) ==> st.layouts[node.node_type]
            == st.types[node.node_type].fields,
        first == if st.layouts.contains_key(node.node_type) {
            Seq::empty()
        } else {
            seq![255u8]
        },
        payload_bytes(codes, st.types[node.node_type].fields, node) is Some,
        stands(
            d,
            st.pos,
            short_bytes(node.node_type) + first + payload_bytes(
                codes,
                st.types[node.node_type].fields,
                node,
            )->0,
        ),
    ensures
        read_record(d, st, max) == Ok::<Record, super::fault::Fault>(
            Record::Node {
                node,
                next: Progress {
                    pos: st.pos + 2 + first.len() + payload_bytes(
                        codes,
                        st.types[node.node_type].fields,
                        node,
                    )->0.len(),
                    types: st.types,
                    layouts: st.layouts.insert(
                        node.node_type,
                        st.types[node.node_type].fields,
                    ),
                },
            },
        ),
{
    let t = node.node_type;
    let q = st.pos;
    let layout = st.types[t].fields;
    let b = payload_bytes(codes, layout, node)->0;
    lemma_pieces(d, q, short_bytes(t) + first, b);
    lemma_pieces(d, q, short_bytes(t), first);
    lemma_short(t);
    lemma_short_read(d, q, t);
    if st.layouts.contains_key(t) {
        assert(st.layouts.insert(t, layout) =~= st.layouts);
    } else {
        lemma_byte_read(d, q + 2, 255);
    }
    lemma_nodes_read_back(d, q + 2 + first.len(), codes, st.types[t], layout, node);
}

proof fn lemma_records_read(
    d: Seq<u8>,
    p: int,
    codes: Map<i16, Seq<char>>,
    types: Map<i16, TypeDefView>,
    max: i16,
    nodes: Seq<NodeView>,
    n: nat,
)
    requires
        n <= nodes.len(),
        forall|i: int| 0 <= i < nodes.len() ==> ordinary(#[trigger] nodes[i], codes, types, max),
        record_bytes(codes, types, nodes, n) is Some,
        stands(d, p, record_bytes(codes, types, nodes, n)->0),
    ensures
        nodes_from(
            d,
            (Progress { pos: p, types, layouts: Map::empty() }),
            max,
            Seq::empty(),
        ) == nodes_from(
            d,
            (Progress {
                pos: p + record_bytes(codes, types, nodes, n)->0.len(),
                types,
                layouts: met(types, nodes, n as int),
            }),
            max,
            nodes.take(n as int),
        ),
    decreases n,
{
    if n == 0 {
        assert(nodes.take(0) =~= Seq::empty());
        assert forall|t: i16| !#[trigger] occurs(nodes, 0, t) by {}
        assert(met(types, nodes, 0) =~= Map::empty());
    } else {
        let few = (n - 1) as nat;
        let node = nodes[n - 1];
        let t = node.node_type;
        assert(ordinary(node, codes, types, max));
        let a = record_bytes(codes, types, nodes, few)->0;
        let b = payload_bytes(codes[t], types[t].fields, node)->0;
        let first = if occurs(nodes, n - 1, t) {
            Seq::empty()
        } else {
            seq![255u8]
        };
        lemma_pieces(d, p, a, short_bytes(t) + first + b);
        lemma_records_read(d, p, codes, types, max, nodes, few);
        lemma_met(types, nodes, n as int);
        lemma_short(t);
        let st = Progress { pos: p + a.len(), types, layouts: met(types, nodes, n - 1) };
        lemma_record_read(d, st, codes[t], max, node, first);
        assert(nodes.take(n - 1).push(node) =~= nodes.take(n as int));
    }
}

/// A whole transmit is read back: with its header, the records of nodes of the
/// base schema's types and the terminator, it is read as exactly these nodes in
/// their order, each as it was.
pub proof fn lemma_transmits_read_back(
    codes: Map<i16, Seq<char>>,
    types: Map<i16, TypeDefView>,
    base_name: Seq<char>,
    doc: DocumentView,
    more: Seq<u8>,
    last: i16,
    d: Seq<u8>,
)
    requires
        plain(doc.modeler_version) && doc.modeler_version.len() <= i32::MAX,
        plain(doc.schema_name) && doc.schema_name.len() <= i32::MAX,
        base_name.is_suffix_of(doc.schema_name),
        more.len() == 2,
        forall|i: int|
            0 <= i < doc.nodes.len() ==> ordinary(
                #[trigger] doc.nodes[i],
                codes,
                types,
                doc.schema_max_type,
            ),
        record_bytes(codes, types, doc.nodes, doc.nodes.len()) is Some,
        d == header_bytes(
            doc.modeler_version,
            doc.schema_name,
            doc.schema_max_type,
            doc.schema_min_type,
            more,
        ) + record_bytes(codes, types, doc.nodes, doc.nodes.len())->0 + (seq![0u8, 1u8]
            + short_bytes(last)),
        d.len() <= usize::MAX,
    ensures
        document(d, base_name, types) == Ok::<DocumentView, super::fault::Fault>(doc),
{
    let h = header_bytes(
        doc.modeler_version,
        doc.schema_name,
        doc.schema_max_type,
        doc.schema_min_type,
        more,
    );
    let n = doc.nodes.len();
    let r = record_bytes(codes, types, doc.nodes, n)->0;
    let e = seq![0u8, 1u8] + short_bytes(last);
    assert(d.subrange(0, d.len() as int) =~= d);
    assert(stands(d, 0, h + r + e));
    lemma_pieces(d, 0, h + r, e);
    lemma_pieces(d, 0, h, r);
    lemma_header_reads_back(
        d,
        doc.modeler_version,
        doc.schema_name,
        doc.schema_max_type,
        doc.schema_min_type,
        more,
    );
    lemma_records_read(d, h.len() as int, codes, types, doc.schema_max_type, doc.nodes, n);
    let q: int = h.len() + r.len() as int;
    lemma_pieces(d, q, seq![0u8, 1u8], short_bytes(last));
    assert(short_bytes(1) =~= seq![0u8, 1u8]) by {
        reveal_with_fuel(big_endian, 3);
    }
    lemma_short_read(d, q, 1);
    lemma_short_read(d, q + 2, last);
    lemma_short(last);
    assert(doc.nodes.take(n as int) =~= doc.nodes);
    assert(doc.schema_name.skip(doc.schema_name.len() - base_name.len()) =~= base_name);
}


/// A type that occurs again is followed by nothing but its nodes. One that occurs
/// for the first time is followed by 255 where it has the layout of the base
/// schema, which it then keeps; that is a fault where the base schema lacks it.
pub proof fn lemma_base_layouts_are_kept(d: Seq<u8>, st: Progress, p: int, t: i16)
    ensures
        st.layouts.contains_key(t) ==> read_first_use(d, st, p, t) == Ok::<
            Progress,
            super::fault::Fault,
        >(Progress { pos: p, ..st }),
        !st.layouts.contains_key(t) && stands(d, p, seq![255u8]) ==> match read_first_use(
            d,
            st,
            p,
            t,
        ) {
            Ok(known) => {
                &&& st.types.contains_key(t)
                &&& known.pos == p + 1
                &&& known.types == st.types
                &&& known.layouts == st.layouts.insert(t, st.types[t].fields)
            },
            Err(_) => !st.types.contains_key(t),
        },
{
    if stands(d, p, seq![255u8]) {
        lemma_byte_read(d, p, 255);
    }
}

/// A known type that occurs for the first time with edits has from then on the
/// layout that they make of the one it had; what is known of the type stays.
pub proof fn lemma_edited_layouts_are_kept(
    d: Seq<u8>,
    st: Progress,
    p: int,
    t: i16,
    count: u8,
    edits: Seq<Edit>,
)
    requires
        !st.layouts.contains_key(t),
        st.types.contains_key(t),
        count != 255,
        within(edits, st.types[t].fields, 0),
        forall|i: int| 0 <= i < edits.len() ==> sound(#[trigger] edits[i]),
        stands(d, p, seq![count] + script_bytes(edits)),
    ensures
        read_first_use(d, st, p, t) == Ok::<Progress, super::fault::Fault>(
            Progress {
                pos: p + 1 + script_bytes(edits).len(),
                types: st.types,
                layouts: st.layouts.insert(t, layout_of(edits, st.types[t].fields, 0)),
            },
        ),
{
    lemma_pieces(d, p, seq![count], script_bytes(edits));
    lemma_byte_read(d, p, count);
    let base = st.types[t].fields;
    lemma_edits_read_back(d, p + 1, t, edits, base, 0, Seq::empty());
    assert(Seq::<FieldDefView>::empty() + layout_of(edits, base, 0) =~= layout_of(edits, base, 0));
}

/// A type that is not known is described where it occurs for the first time, and
/// is known by that description from then on.
pub proof fn lemma_described_types_are_known(
    d: Seq<u8>,
    st: Progress,
    p: int,
    t: i16,
    name: Seq<char>,
    text: Seq<char>,
    fields: Seq<EmbeddedFieldView>,
    defs: Seq<FieldDefView>,
)
    requires
        !st.layouts.contains_key(t),
        !st.types.contains_key(t),
        fields.len() < 255,
        brief(name),
        brief(text),
        fields.len() == defs.len(),
        forall|i: int|
            0 <= i < fields.len() ==> storable(#[trigger] fields[i]) && defines(fields[i], defs[i]),
        stands(
            d,
            p,
            seq![fields.len() as u8] + (short_text(name) + short_text(text) + definitions_bytes(
                fields,
            )),
        ),
    ensures
        read_first_use(d, st, p, t) is Ok,
        ({
            let known = read_first_use(d, st, p, t)->Ok_0;
            &&& known.types == st.types.insert(
                t,
                TypeDefView {
                    node_type: t,
                    node_name: name,
                    description: text,
                    variable: fields.len() > 0 && fields.last().xmt_code,
                    fields: defs,
                },
            )
            &&& known.layouts == st.layouts.insert(t, defs)
            &&& known.pos == p + 1 + short_text(name).len() + short_text(text).len()
                + definitions_bytes(fields).len()
        }),
{
    let rest = short_text(name) + short_text(text) + definitions_bytes(fields);
    lemma_pieces(d, p, seq![fields.len() as u8], rest);
    lemma_byte_read(d, p, fields.len() as u8);
    lemma_types_read_back(d, p + 1, t, name, text, fields, defs);
}

} // verus!
