//! What can be wrong with a transmit, and how it is put into words.

use vstd::prelude::*;

use crate::text::{push_decimal, push_signed};

verus! {

/// A transmit that could not be read; holds the reason in words.
#[derive(Debug)]
pub struct XtError(pub String);

/// The reasons for which reading a transmit fails.
pub enum Fault {
    /// An offset past what the machine can address.
    Overflow,
    /// Fewer bytes left than a field takes up.
    Truncated { want: int, at: int, left: int },
    /// A byte above 0x7F in a text field.
    NonAscii,
    /// A truth value that is neither 0 nor 1.
    BadBool { value: int },
    /// A surrogate without its partner.
    BadUtf16,
    /// A text length below zero.
    NegativeLength { length: int },
    /// A field type code that is not known.
    BadFieldType { code: Seq<char> },
    /// An ASCII banner without its last line.
    NoHeaderMarker,
    /// An ASCII banner whose last line does not end.
    NoHeaderNewline,
    /// Bytes that do not begin with `PS`.
    NotBinary,
    /// A schema edit that copies more fields than the base layout has.
    PastBaseFields { node_type: int },
    /// A schema edit that is not known.
    UnknownEdit { letter: char },
    /// A schema other than the base schema.
    SchemaMismatch { found: Seq<char>, base: Seq<char> },
    /// Bytes behind the end mark.
    TrailingBytes { left: int },
    /// A node type above the largest that the header allows.
    TypeTooLarge { node_type: int, max: int },
    /// A node type that is to be read by a base layout that does not exist.
    NotInBase { node_type: int },
}

/// What formatting a character with `{:?}` gives.
pub uninterp spec fn char_debug(c: char) -> Seq<char>;

/// `{:?}` of `format!`: the character in single quotes, with escapes where it
/// needs them. The result depends on the character alone.
#[verifier::external_body]
fn debug_text(c: char) -> (r: String)
    ensures
        r@ == char_debug(c),
{
    format!("{:?}", c)
}

impl Fault {
    /// The reason in words.
    pub open spec fn text(self) -> Seq<char> {
        match self {
            Fault::Overflow => "overflow"@,
            Fault::Truncated { want, at, left } => "unexpected end of transmit: want "@
                + crate::text::signed_decimal(want) + " bytes at offset "@
                + crate::text::signed_decimal(at) + ", "@ + crate::text::signed_decimal(left)
                + " left"@,
            Fault::NonAscii => "non-ASCII byte in char field"@,
            Fault::BadBool { value } => "invalid boolean value: "@ + crate::text::signed_decimal(
                value,
            ),
            Fault::BadUtf16 => "bad utf-16: invalid utf-16: lone surrogate found"@,
            Fault::NegativeLength { length } => "negative string length "@
                + crate::text::signed_decimal(length),
            Fault::BadFieldType { code } => "'"@ + code + "' is not a valid field type"@,
            Fault::NoHeaderMarker => "invalid file: missing **END_OF_HEADER** marker"@,
            Fault::NoHeaderNewline => "invalid file: missing newline after header marker"@,
            Fault::NotBinary => "invalid file: only PS binary format is supported"@,
            Fault::PastBaseFields { node_type } =>
            "delta-schema 'C' past end of base fields for node type "@
                + crate::text::signed_decimal(node_type),
            Fault::UnknownEdit { letter } => "unknown delta-schema instruction: "@ + char_debug(
                letter,
            ),
            Fault::SchemaMismatch { found, base } => "file schema name '"@ + found
                + "' does not match expected base schema '"@ + base + "'"@,
            Fault::TrailingBytes { left } => "expected end of file after termination node ("@
                + crate::text::signed_decimal(left) + " bytes left)"@,
            Fault::TypeTooLarge { node_type, max } => "invalid node type "@
                + crate::text::signed_decimal(node_type) + "; max allowed is "@
                + crate::text::signed_decimal(max),
            Fault::NotInBase { node_type } => "node type #"@ + crate::text::signed_decimal(
                node_type,
            ) + " missing from base schema and no embedded schema provided"@,
        }
    }
}

/// A result and what it should be: the same contents, or the same fault.
pub open spec fn agrees<T: View>(r: Result<T, XtError>, s: Result<T::V, Fault>) -> bool {
    match (r, s) {
        (Ok(a), Ok(b)) => a@ == b,
        (Err(e), Err(f)) => e.0@ == f.text(),
        _ => false,
    }
}

/// An error with fixed words.
fn plain(words: &str) -> (r: XtError)
    ensures
        r.0@ == words@,
{
    XtError(words.to_owned())
}

/// An error whose words end in a number.
fn with_number(words: &str, n: i64, rest: &str) -> (r: XtError)
    ensures
        r.0@ == words@ + crate::text::signed_decimal(n as int) + rest@,
{
    let mut s = words.to_owned();
    push_signed(&mut s, n);
    s.append(rest);
    XtError(s)
}

pub(crate) fn overflow() -> (r: XtError)
    ensures
        r.0@ == Fault::Overflow.text(),
{
    plain("overflow")
}

pub(crate) fn truncated(want: usize, at: usize, left: usize) -> (r: XtError)
    ensures
        r.0@ == (Fault::Truncated { want: want as int, at: at as int, left: left as int }).text(),
{
    let mut s = "unexpected end of transmit: want ".to_owned();
    push_decimal(&mut s, want as u64);
    s.append(" bytes at offset ");
    push_decimal(&mut s, at as u64);
    s.append(", ");
    push_decimal(&mut s, left as u64);
    s.append(" left");
    XtError(s)
}

pub(crate) fn non_ascii() -> (r: XtError)
    ensures
        r.0@ == Fault::NonAscii.text(),
{
    plain("non-ASCII byte in char field")
}

pub(crate) fn bad_bool(value: u8) -> (r: XtError)
    ensures
        r.0@ == (Fault::BadBool { value: value as int }).text(),
{
    let r = with_number("invalid boolean value: ", value as i64, "");
    proof {
        reveal_strlit("");
        assert(r.0@ =~= (Fault::BadBool { value: value as int }).text());
    }
    r
}

pub(crate) fn bad_utf16() -> (r: XtError)
    ensures
        r.0@ == Fault::BadUtf16.text(),
{
    plain("bad utf-16: invalid utf-16: lone surrogate found")
}

pub(crate) fn negative_length(length: i32) -> (r: XtError)
    ensures
        r.0@ == (Fault::NegativeLength { length: length as int }).text(),
{
    let r = with_number("negative string length ", length as i64, "");
    proof {
        reveal_strlit("");
        assert(r.0@ =~= (Fault::NegativeLength { length: length as int }).text());
    }
    r
}

pub(crate) fn bad_field_type(code: &str) -> (r: XtError)
    ensures
        r.0@ == (Fault::BadFieldType { code: code@ }).text(),
{
    let mut s = "'".to_owned();
    s.append(code);
    s.append("' is not a valid field type");
    XtError(s)
}

pub(crate) fn no_header_marker() -> (r: XtError)
    ensures
        r.0@ == Fault::NoHeaderMarker.text(),
{
    plain("invalid file: missing **END_OF_HEADER** marker")
}

pub(crate) fn no_header_newline() -> (r: XtError)
    ensures
        r.0@ == Fault::NoHeaderNewline.text(),
{
    plain("invalid file: missing newline after header marker")
}

pub(crate) fn not_binary() -> (r: XtError)
    ensures
        r.0@ == Fault::NotBinary.text(),
{
    plain("invalid file: only PS binary format is supported")
}

pub(crate) fn past_base_fields(node_type: i16) -> (r: XtError)
    ensures
        r.0@ == (Fault::PastBaseFields { node_type: node_type as int }).text(),
{
    let r = with_number(
        "delta-schema 'C' past end of base fields for node type ",
        node_type as i64,
        "",
    );
    proof {
        reveal_strlit("");
        assert(r.0@ =~= (Fault::PastBaseFields { node_type: node_type as int }).text());
    }
    r
}

pub(crate) fn unknown_edit(letter: char) -> (r: XtError)
    ensures
        r.0@ == (Fault::UnknownEdit { letter }).text(),
{
    let mut s = "unknown delta-schema instruction: ".to_owned();
    let d = debug_text(letter);
    s.append(d.as_str());
    XtError(s)
}

pub(crate) fn schema_mismatch(found: &str, base: &str) -> (r: XtError)
    ensures
        r.0@ == (Fault::SchemaMismatch { found: found@, base: base@ }).text(),
{
    let mut s = "file schema name '".to_owned();
    s.append(found);
    s.append("' does not match expected base schema '");
    s.append(base);
    s.append("'");
    XtError(s)
}

pub(crate) fn trailing_bytes(left: usize) -> (r: XtError)
    ensures
        r.0@ == (Fault::TrailingBytes { left: left as int }).text(),
{
    let mut s = "expected end of file after termination node (".to_owned();
    push_decimal(&mut s, left as u64);
    s.append(" bytes left)");
    XtError(s)
}

pub(crate) fn type_too_large(node_type: i16, max: i16) -> (r: XtError)
    ensures
        r.0@ == (Fault::TypeTooLarge { node_type: node_type as int, max: max as int }).text(),
{
    let mut s = "invalid node type ".to_owned();
    push_signed(&mut s, node_type as i64);
    s.append("; max allowed is ");
    push_signed(&mut s, max as i64);
    XtError(s)
}

pub(crate) fn not_in_base(node_type: i16) -> (r: XtError)
    ensures
        r.0@ == (Fault::NotInBase { node_type: node_type as int }).text(),
{
    with_number(
        "node type #",
        node_type as i64,
        " missing from base schema and no embedded schema provided",
    )
}

} // verus!
