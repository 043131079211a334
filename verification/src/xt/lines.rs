//! The lines of a schema text are read as they are written.

use vstd::prelude::*;

use super::schema::{
    field_at, fields_from, type_at, type_of_code, FieldDefView, RawFieldView, LINE_END, SEMI,
    SPACE,
};
use super::written::{stands, text_bytes};
use crate::bytes::{digits_value, has_at, number_then, run_end, Class};
use crate::text::{decimal, lemma_decimal_reads_back, number_of};

verus! {

/// Bytes that stand somewhere stand there piece by piece.
pub(crate) proof fn lemma_pieces(d: Seq<u8>, p: int, a: Seq<u8>, b: Seq<u8>)
    requires
        stands(d, p, a + b),
    ensures
        stands(d, p, a),
        stands(d, p + a.len(), b),
{
    assert(d.subrange(p, p + a.len()) =~= a) by {
        assert forall|i: int| 0 <= i < a.len() implies d[p + i] == a[i] by {
            assert(d.subrange(p, p + (a + b).len())[i] == (a + b)[i]);
        }
    }
    assert(d.subrange(p + a.len(), p + a.len() + b.len()) =~= b) by {
        assert forall|i: int| 0 <= i < b.len() implies d[p + a.len() + i] == b[i] by {
            assert(d.subrange(p, p + (a + b).len())[a.len() + i] == (a + b)[a.len() + i]);
        }
    }
}

/// A byte of what stands somewhere.
pub(crate) proof fn lemma_byte(d: Seq<u8>, p: int, b: Seq<u8>, i: int)
    requires
        stands(d, p, b),
        0 <= i < b.len(),
    ensures
        d[p + i] == b[i],
{
    assert(d.subrange(p, p + b.len())[i] == b[i]);
}

/// A run ends where the first byte of another class stands.
pub(crate) proof fn lemma_run(s: Seq<u8>, class: Class, at: int, end: int)
    requires
        0 <= at <= end < s.len(),
        forall|i: int| at <= i < end ==> class.has(#[trigger] s[i]),
        !class.has(s[end]),
    ensures
        run_end(s, class, at) == end,
    decreases end - at,
{
    if at < end {
        assert(class.has(s[at]));
        lemma_run(s, class, at + 1, end);
    }
}

proof fn lemma_value(s: Seq<char>)
    requires
        forall|i: int| 0 <= i < s.len() ==> '0' <= #[trigger] s[i] <= '9',
    ensures
        digits_value(text_bytes(s)) == number_of(s),
    decreases s.len(),
{
    if s.len() > 0 {
        let few = s.drop_last();
        assert forall|i: int| 0 <= i < few.len() implies '0' <= #[trigger] few[i] <= '9' by {
            assert('0' <= s[i] <= '9');
        }
        lemma_value(few);
        assert(text_bytes(s).drop_last() =~= text_bytes(few));
        assert('0' <= s[s.len() - 1] <= '9');
        assert(text_bytes(s).last() == s.last() as u8);
    }
}

/// A number with something behind it that begins with no digit is read.
proof fn lemma_number(s: Seq<u8>, at: int, n: nat, tail: Seq<u8>, max: int)
    requires
        stands(s, at, text_bytes(decimal(n)) + tail),
        tail.len() > 0,
        !(48 <= tail[0] <= 57),
        n <= max,
    ensures
        number_then(s, at, tail, max) == Some((n, at + decimal(n).len() + tail.len())),
{
    let b = text_bytes(decimal(n));
    lemma_decimal_reads_back(n);
    lemma_pieces(s, at, b, tail);
    let end = at + b.len();
    assert forall|i: int| at <= i < end implies Class::Digit.has(#[trigger] s[i]) by {
        lemma_byte(s, at, b, i - at);
        assert('0' <= decimal(n)[i - at] <= '9');
    }
    lemma_byte(s, end, tail, 0);
    lemma_run(s, Class::Digit, at, end);
    assert(s.subrange(at, end) == b);
    lemma_value(decimal(n));
    assert(has_at(s, end, tail));
}

/// A character of a word: a letter, a digit or an underscore.
pub open spec fn word_char(c: char) -> bool {
    'a' <= c <= 'z' || 'A' <= c <= 'Z' || '0' <= c <= '9' || c == '_'
}

/// The bytes of a field line: the name, the type code, whether it is transmitted,
/// the class of nodes that it points to, and how many elements it has.
pub open spec fn field_line(
    name: Seq<char>,
    code: char,
    transmit: nat,
    class: nat,
    elements: nat,
) -> Seq<u8> {
    text_bytes(name) + (seq![59u8, 32u8] + (seq![code as u8] + (seq![59u8, 32u8] + (text_bytes(
        decimal(transmit),
    ) + seq![32u8] + (text_bytes(decimal(class)) + seq![32u8] + (text_bytes(decimal(elements))
        + seq![32u8]))))))
}

/// A field line is read as the field that it describes.
pub proof fn lemma_field_lines_are_read(
    s: Seq<u8>,
    at: int,
    name: Seq<char>,
    code: char,
    transmit: nat,
    class: nat,
    elements: nat,
)
    requires
        name.len() > 0,
        'a' <= name[0] <= 'z',
        forall|i: int| 0 <= i < name.len() ==> word_char(#[trigger] name[i]),
        word_char(code),
        transmit <= i32::MAX && class <= i32::MAX && elements <= i32::MAX,
        stands(s, at, field_line(name, code, transmit, class, elements)),
    ensures
        field_at(s, at) == Some(
            (
                RawFieldView {
                    name,
                    type_code: seq![code],
                    transmit: transmit as i32,
                    node_class: class as i32,
                    n_elements: elements as i32,
                },
                at + field_line(name, code, transmit, class, elements).len(),
            ),
        ),
{
    let semi = seq![59u8, 32u8];
    let space = seq![32u8];
    let n3 = text_bytes(decimal(elements)) + space;
    let n2 = text_bytes(decimal(class)) + space;
    let n1 = text_bytes(decimal(transmit)) + space;
    let b = text_bytes(name);
    lemma_pieces(s, at, b, semi + (seq![code as u8] + (semi + (n1 + (n2 + n3)))));
    let end = at + b.len();
    lemma_pieces(s, end, semi, seq![code as u8] + (semi + (n1 + (n2 + n3))));
    lemma_pieces(s, end + 2, seq![code as u8], semi + (n1 + (n2 + n3)));
    lemma_pieces(s, end + 3, semi, n1 + (n2 + n3));
    lemma_pieces(s, end + 5, n1, n2 + n3);
    lemma_pieces(s, end + 5 + n1.len(), n2, n3);
    assert(SEMI@ =~= semi);
    assert(SPACE@ =~= space);
    assert forall|i: int| at <= i < end implies Class::Word.has(#[trigger] s[i]) by {
        lemma_byte(s, at, b, i - at);
        assert(word_char(name[i - at]));
    }
    lemma_byte(s, end, semi, 0);
    lemma_run(s, Class::Word, at, end);
    lemma_byte(s, at, b, 0);
    lemma_byte(s, end + 2, seq![code as u8], 0);
    assert(has_at(s, end, SEMI@));
    assert(has_at(s, end + 3, SEMI@));
    lemma_number(s, end + 5, transmit, space, i32::MAX as int);
    lemma_number(s, end + 5 + n1.len(), class, space, i32::MAX as int);
    lemma_number(s, end + 5 + n1.len() + n2.len(), elements, space, i32::MAX as int);
    assert(crate::text::latin1(s.subrange(at, end)) =~= name) by {
        assert forall|i: int| 0 <= i < name.len() implies s.subrange(at, end)[i] as char
            == name[i] by {
            lemma_byte(s, at, b, i);
            assert(word_char(name[i]));
        }
    }
    assert(crate::text::latin1(s.subrange(end + 2, end + 3)) =~= seq![code]);
}

/// A field that is not transmitted is left out, and any other is kept behind those
/// before it, with the type that its code stands for.
pub proof fn lemma_transmitted_fields_are_kept(
    s: Seq<u8>,
    at: int,
    f: RawFieldView,
    end: int,
    before: Seq<FieldDefView>,
)
    requires
        0 <= at < s.len(),
        field_at(s, at) == Some((f, end)),
    ensures
        f.transmit == 0 ==> fields_from(s, at, before) == fields_from(s, end, before),
        f.transmit != 0 ==> match type_of_code(f.type_code) {
            Some(t) => fields_from(s, at, before) == fields_from(
                s,
                end,
                before.push(
                    FieldDefView {
                        name: f.name,
                        field_type: t,
                        node_class: f.node_class,
                        n_elements: f.n_elements,
                    },
                ),
            ),
            None => fields_from(s, at, before) is None,
        },
{
}

/// The bytes of a type line: its number, its name, what it is, whether it is
/// transmitted, how many fields it has, and whether it is of variable length.
pub open spec fn type_line(
    number: nat,
    name: Seq<char>,
    text: Seq<u8>,
    transmit: nat,
    fields: nat,
    variable: nat,
) -> Seq<u8> {
    text_bytes(decimal(number)) + seq![32u8] + (text_bytes(name) + (seq![59u8, 32u8] + (text + (
    seq![59u8, 32u8] + (text_bytes(decimal(transmit)) + seq![32u8] + (text_bytes(decimal(fields))
        + seq![32u8] + (text_bytes(decimal(variable)) + seq![32u8, 10u8])))))))
}

/// A type line is read as the type that it describes, and its field lines begin
/// behind it.
pub proof fn lemma_type_lines_are_read(
    s: Seq<u8>,
    at: int,
    number: nat,
    name: Seq<char>,
    text: Seq<u8>,
    transmit: nat,
    fields: nat,
    variable: nat,
)
    requires
        number <= i64::MAX && transmit <= i32::MAX && fields <= usize::MAX && variable <= i32::MAX,
        name.len() > 0,
        forall|i: int| 0 <= i < name.len() ==> 'A' <= #[trigger] name[i] <= 'Z' || name[i] == '_',
        text.len() > 0,
        forall|i: int| 0 <= i < text.len() ==> #[trigger] text[i] != 59,
        vstd::utf8::valid_utf8(text),
        stands(s, at, type_line(number, name, text, transmit, fields, variable)),
    ensures
        type_at(s, at) is Some,
        ({
            let t = (type_at(s, at)->0).0;
            &&& t.node_type == number
            &&& t.node_name == name
            &&& t.description == vstd::utf8::decode_utf8(text)
            &&& t.transmit == transmit
            &&& t.n_fields == fields
            &&& t.variable == (variable != 0)
            &&& t.fields == s.subrange(
                at + type_line(number, name, text, transmit, fields, variable).len(),
                (type_at(s, at)->0).1,
            )
        }),
{
    let semi = seq![59u8, 32u8];
    let space = seq![32u8];
    let end = seq![32u8, 10u8];
    let n1 = text_bytes(decimal(number)) + space;
    let b = text_bytes(name);
    let n2 = text_bytes(decimal(transmit)) + space;
    let n3 = text_bytes(decimal(fields)) + space;
    let n4 = text_bytes(decimal(variable)) + end;
    lemma_pieces(s, at, n1, b + (semi + (text + (semi + (n2 + (n3 + n4))))));
    let p1 = at + n1.len();
    lemma_pieces(s, p1, b, semi + (text + (semi + (n2 + (n3 + n4)))));
    let q = p1 + b.len();
    lemma_pieces(s, q, semi, text + (semi + (n2 + (n3 + n4))));
    let p2 = q + 2;
    lemma_pieces(s, p2, text, semi + (n2 + (n3 + n4)));
    let r = p2 + text.len();
    lemma_pieces(s, r, semi, n2 + (n3 + n4));
    lemma_pieces(s, r + 2, n2, n3 + n4);
    lemma_pieces(s, r + 2 + n2.len(), n3, n4);
    assert(SEMI@ =~= semi);
    assert(SPACE@ =~= space);
    assert(LINE_END@ =~= end);
    lemma_number(s, at, number, space, i64::MAX as int);
    assert forall|i: int| p1 <= i < q implies Class::Upper.has(#[trigger] s[i]) by {
        lemma_byte(s, p1, b, i - p1);
        assert('A' <= name[i - p1] <= 'Z' || name[i - p1] == '_');
    }
    lemma_byte(s, q, semi, 0);
    lemma_run(s, Class::Upper, p1, q);
    assert forall|i: int| p2 <= i < r implies Class::NotSemicolon.has(#[trigger] s[i]) by {
        lemma_byte(s, p2, text, i - p2);
    }
    lemma_byte(s, r, semi, 0);
    lemma_run(s, Class::NotSemicolon, p2, r);
    assert(has_at(s, q, SEMI@));
    assert(has_at(s, r, SEMI@));
    assert(s.subrange(p2, r) == text);
    lemma_number(s, r + 2, transmit, space, i32::MAX as int);
    lemma_number(s, r + 2 + n2.len(), fields, space, usize::MAX as int);
    lemma_number(s, r + 2 + n2.len() + n3.len(), variable, end, i32::MAX as int);
    assert(crate::text::latin1(s.subrange(p1, q)) =~= name) by {
        assert forall|i: int| 0 <= i < name.len() implies s.subrange(p1, q)[i] as char
            == name[i] by {
            lemma_byte(s, p1, b, i);
            assert('A' <= name[i] <= 'Z' || name[i] == '_');
        }
    }
}

} // verus!
