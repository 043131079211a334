//! Text built character by character: decimal numbers and comparison of strings.
//!
//! A string is modelled by the sequence of its characters.

use vstd::prelude::*;

verus! {

/// `String::push` appends one character to the end of the string.
pub assume_specification[ String::push ](s: &mut String, c: char)
    ensures
        final(s)@ == old(s)@.push(c),
;

/// Both strings have the same characters. Their bytes are compared: no two texts
/// have the same encoding.
pub(crate) fn same_text(a: &str, b: &str) -> (r: bool)
    ensures
        r == (a@ == b@),
{
    broadcast use vstd::utf8::encode_utf8_decode_utf8;

    let x = a.as_bytes();
    let y = b.as_bytes();
    assert(x@ == vstd::utf8::encode_utf8(a@));
    assert(y@ == vstd::utf8::encode_utf8(b@));
    if x.len() != y.len() {
        return false;
    }
    let mut i: usize = 0;
    while i < x.len()
        invariant
            i <= x@.len(),
            x@.len() == y@.len(),
            x@ == vstd::utf8::encode_utf8(a@),
            y@ == vstd::utf8::encode_utf8(b@),
            forall|k: int| 0 <= k < i ==> x@[k] == y@[k],
        decreases x@.len() - i,
    {
        if x[i] != y[i] {
            return false;
        }
        i += 1;
    }
    proof {
        assert(x@ =~= y@);
        assert(vstd::utf8::decode_utf8(vstd::utf8::encode_utf8(a@)) == a@);
        assert(vstd::utf8::decode_utf8(vstd::utf8::encode_utf8(b@)) == b@);
    }
    true
}

/// `text` ends in `tail`.
pub open spec fn has_tail(text: Seq<char>, tail: Seq<char>) -> bool {
    tail.len() <= text.len() && text.skip(text.len() - tail.len()) == tail
}

/// `text` begins with `head`.
pub open spec fn has_head(text: Seq<char>, head: Seq<char>) -> bool {
    head.len() <= text.len() && text.take(head.len() as int) == head
}

/// The text ends in `tail`.
pub(crate) fn ends_in(text: &str, tail: &str) -> (r: bool)
    ensures
        r == has_tail(text@, tail@),
{
    let x = chars_of(text);
    let y = chars_of(tail);
    if y.len() > x.len() {
        return false;
    }
    assert(x@.skip(x@.len() - y@.len()) =~= x@.subrange(x@.len() - y@.len(), x@.len() as int));
    stands_at(x.as_slice(), x.len() - y.len(), y.as_slice())
}

/// The text begins with `head`.
pub(crate) fn begins_with(text: &str, head: &str) -> (r: bool)
    ensures
        r == has_head(text@, head@),
{
    let x = chars_of(text);
    let y = chars_of(head);
    if y.len() > x.len() {
        return false;
    }
    assert(x@.take(y@.len() as int) =~= x@.subrange(0, y@.len() as int));
    stands_at(x.as_slice(), 0, y.as_slice())
}

/// `std::str::from_utf8`: the text that the bytes encode, or an error where
/// they are not valid UTF-8.
#[verifier::external_body]
pub(crate) fn utf8_text(bytes: &[u8]) -> (r: Option<&str>)
    ensures
        match r {
            Some(s) => vstd::utf8::valid_utf8(bytes@) && s@ == vstd::utf8::decode_utf8(bytes@),
            None => !vstd::utf8::valid_utf8(bytes@),
        },
{
    std::str::from_utf8(bytes).ok()
}

/// The character of the decimal digit `d`.
pub open spec fn digit_char(d: int) -> char {
    (d + 48) as char
}

/// `n` in decimal, without leading zeros.
pub open spec fn decimal(n: nat) -> Seq<char>
    decreases n,
{
    if n < 10 {
        seq![digit_char(n as int)]
    } else {
        decimal(n / 10).push(digit_char((n % 10) as int))
    }
}

/// `i` in decimal, with a leading minus sign when it is negative.
pub open spec fn signed_decimal(i: int) -> Seq<char> {
    if i < 0 {
        seq!['-'] + decimal((-i) as nat)
    } else {
        decimal(i as nat)
    }
}

/// Append `n` in decimal.
pub fn push_decimal(out: &mut String, n: u64)
    ensures
        final(out)@ == old(out)@ + decimal(n as nat),
    decreases n,
{
    if n >= 10 {
        push_decimal(out, n / 10);
    }
    let d: u8 = 48 + (n % 10) as u8;
    out.push(d as char);
}

/// Append `i` in decimal.
pub fn push_signed(out: &mut String, i: i64)
    ensures
        final(out)@ == old(out)@ + signed_decimal(i as int),
{
    if i < 0 {
        out.push('-');
        let m: u64 = (-(i + 1)) as u64 + 1;
        push_decimal(out, m);
        assert(out@ =~= old(out)@ + signed_decimal(i as int));
    } else {
        push_decimal(out, i as u64);
    }
}

/// A string holding the characters of ASCII bytes.
pub open spec fn latin1(bytes: Seq<u8>) -> Seq<char> {
    bytes.map_values(|b: u8| b as char)
}

/// One character per byte, the byte being the character's code.
pub fn latin1_string(bytes: &[u8]) -> (r: String)
    ensures
        r@ == latin1(bytes@),
{
    let mut out = String::new();
    let mut i: usize = 0;
    while i < bytes.len()
        invariant
            i <= bytes.len(),
            out@ == latin1(bytes@.take(i as int)),
        decreases bytes.len() - i,
    {
        out.push(bytes[i] as char);
        i += 1;
        assert(out@ =~= latin1(bytes@.take(i as int)));
    }
    assert(bytes@.take(i as int) =~= bytes@);
    out
}

/// The characters of a string.
pub fn chars_of(s: &str) -> (r: Vec<char>)
    ensures
        r@ == s@,
{
    let mut out: Vec<char> = Vec::new();
    for c in it: s.chars()
        invariant
            it.seq() == s@,
            out@ == s@.take(it.index() as int),
    {
        out.push(c);
        assert(out@ =~= s@.take(it.index() + 1));
    }
    assert(s@.take(s@.len() as int) =~= s@);
    out
}

/// The string of some characters.
pub fn string_of(chars: &[char]) -> (r: String)
    ensures
        r@ == chars@,
{
    let mut out = String::new();
    let mut i: usize = 0;
    while i < chars.len()
        invariant
            i <= chars@.len(),
            out@ == chars@.take(i as int),
        decreases chars@.len() - i,
    {
        out.push(chars[i]);
        i += 1;
        assert(out@ =~= chars@.take(i as int));
    }
    assert(chars@.take(i as int) =~= chars@);
    out
}

/// `a` comes before `b` in alphabetical order of the character codes.
pub open spec fn text_less(a: Seq<char>, b: Seq<char>) -> bool
    decreases a.len(),
{
    if b.len() == 0 {
        false
    } else if a.len() == 0 {
        true
    } else if a[0] != b[0] {
        (a[0] as int) < (b[0] as int)
    } else {
        text_less(a.drop_first(), b.drop_first())
    }
}

/// True when `a` comes before `b`.
pub fn comes_before(a: &str, b: &str) -> (r: bool)
    ensures
        r == text_less(a@, b@),
{
    let x = chars_of(a);
    let y = chars_of(b);
    let mut i: usize = 0;
    assert(x@.skip(0) =~= x@);
    assert(y@.skip(0) =~= y@);
    while i < x.len() && i < y.len()
        invariant
            x@ == a@,
            y@ == b@,
            i <= x@.len(),
            i <= y@.len(),
            text_less(a@, b@) == text_less(x@.skip(i as int), y@.skip(i as int)),
        decreases x@.len() - i,
    {
        if x[i] != y[i] {
            return x[i] < y[i];
        }
        assert(x@.skip(i as int).drop_first() =~= x@.skip(i + 1));
        assert(y@.skip(i as int).drop_first() =~= y@.skip(i + 1));
        i += 1;
    }
    i < y.len()
}

/// Two texts neither of which comes before the other are the same.
pub proof fn lemma_text_order_total(a: Seq<char>, b: Seq<char>)
    ensures
        !text_less(a, b) && !text_less(b, a) ==> a == b,
        !(text_less(a, b) && text_less(b, a)),
        a == b ==> !text_less(a, b),
    decreases a.len(),
{
    if a.len() > 0 && b.len() > 0 && a[0] == b[0] {
        lemma_text_order_total(a.drop_first(), b.drop_first());
        if a.drop_first() == b.drop_first() {
            assert(a =~= seq![a[0]] + a.drop_first());
            assert(b =~= seq![b[0]] + b.drop_first());
        }
    } else if a.len() == 0 && b.len() == 0 {
        assert(a =~= b);
    }
}

/// What comes before something comes before all that follows it.
pub proof fn lemma_text_order_transitive(a: Seq<char>, b: Seq<char>, c: Seq<char>)
    requires
        text_less(a, b),
        text_less(b, c),
    ensures
        text_less(a, c),
    decreases a.len(),
{
    if a.len() > 0 && b.len() > 0 && c.len() > 0 && a[0] == b[0] && b[0] == c[0] {
        lemma_text_order_transitive(a.drop_first(), b.drop_first(), c.drop_first());
    }
}

/// `needle` stands in `s` at position `at`.
pub open spec fn text_at(s: Seq<char>, at: int, needle: Seq<char>) -> bool {
    0 <= at && at + needle.len() <= s.len() && s.subrange(at, at + needle.len()) == needle
}

/// The lowest position from `from` on at which `needle` stands.
pub open spec fn first_text(s: Seq<char>, needle: Seq<char>, from: int) -> Option<int>
    decreases s.len() + 1 - from,
{
    if from + needle.len() > s.len() {
        None
    } else if text_at(s, from, needle) {
        Some(from)
    } else {
        first_text(s, needle, from + 1)
    }
}

/// The highest position up to `to` at which `needle` stands.
pub open spec fn last_text(s: Seq<char>, needle: Seq<char>, to: int) -> Option<int>
    decreases to + 1,
{
    if to < 0 {
        None
    } else if text_at(s, to, needle) {
        Some(to)
    } else {
        last_text(s, needle, to - 1)
    }
}

/// True when `needle` stands in `s` at position `at`.
pub fn stands_at(s: &[char], at: usize, needle: &[char]) -> (r: bool)
    ensures
        r == text_at(s@, at as int, needle@),
{
    if at > s.len() || s.len() - at < needle.len() {
        return false;
    }
    let mut i: usize = 0;
    while i < needle.len()
        invariant
            i <= needle.len(),
            at + needle.len() <= s.len(),
            forall|j: int| 0 <= j < i ==> s@[at + j] == needle@[j],
        decreases needle.len() - i,
    {
        if s[at + i] != needle[i] {
            assert(s@.subrange(at as int, at + needle.len())[i as int] != needle@[i as int]);
            return false;
        }
        i += 1;
    }
    assert(s@.subrange(at as int, at + needle.len()) =~= needle@);
    true
}

/// The first position of `needle` at or after `from`.
pub fn find_text(s: &[char], needle: &[char], from: usize) -> (r: Option<usize>)
    requires
        from <= s@.len(),
    ensures
        match r {
            Some(i) => first_text(s@, needle@, from as int) == Some(i as int) && text_at(
                s@,
                i as int,
                needle@,
            ) && from <= i,
            None => first_text(s@, needle@, from as int) is None,
        },
{
    let mut i: usize = from;
    while i <= s.len() && needle.len() <= s.len() - i
        invariant
            from <= i <= s@.len() + 1,
            first_text(s@, needle@, from as int) == first_text(s@, needle@, i as int),
        decreases s@.len() + 1 - i,
    {
        if stands_at(s, i, needle) {
            return Some(i);
        }
        if i == s.len() {
            assert(first_text(s@, needle@, i + 1) is None);
            return None;
        }
        i += 1;
    }
    None
}

/// The last position of `needle`.
pub fn find_last_text(s: &[char], needle: &[char]) -> (r: Option<usize>)
    ensures
        match r {
            Some(i) => last_text(s@, needle@, s@.len() as int) == Some(i as int) && text_at(
                s@,
                i as int,
                needle@,
            ),
            None => last_text(s@, needle@, s@.len() as int) is None,
        },
{
    let mut i: usize = s.len();
    loop
        invariant
            i <= s@.len(),
            last_text(s@, needle@, s@.len() as int) == last_text(s@, needle@, i as int),
        decreases i,
    {
        if stands_at(s, i, needle) {
            return Some(i);
        }
        if i == 0 {
            assert(last_text(s@, needle@, -1) is None);
            return None;
        }
        i -= 1;
    }
}


/// The number that decimal digits stand for, the highest first.
pub open spec fn number_of(digits: Seq<char>) -> int {
    digits.fold_left(0int, |n: int, c: char| 10 * n + (c as int - '0' as int))
}

/// A decimal text is made of digits, does not begin with a zero unless it is that
/// one digit, and stands for the number that it was made from.
pub proof fn lemma_decimal_reads_back(n: nat)
    ensures
        decimal(n).len() > 0,
        forall|i: int| 0 <= i < decimal(n).len() ==> '0' <= (#[trigger] decimal(n)[i]) <= '9',
        decimal(n)[0] == '0' ==> decimal(n).len() == 1,
        number_of(decimal(n)) == n,
    decreases n,
{
    if n < 10 {
        assert(seq![digit_char(n as int)].drop_last() =~= Seq::empty());
        reveal_with_fuel(Seq::fold_left, 2);
    } else {
        lemma_decimal_reads_back(n / 10);
        assert(decimal(n).drop_last() =~= decimal(n / 10));
        if decimal(n)[0] == '0' {
            assert(decimal(n / 10)[0] == '0');
            assert(decimal(n / 10).drop_last() =~= Seq::empty());
            reveal_with_fuel(Seq::fold_left, 2);
            assert(number_of(decimal(n / 10)) == 0);
        }
    }
}

/// A signed text has a minus sign exactly where the number is negative, and what
/// follows the sign stands for how far the number is from zero.
pub proof fn lemma_signed_decimal_reads_back(i: int)
    ensures
        i < 0 ==> signed_decimal(i)[0] == '-' && number_of(signed_decimal(i).skip(1)) == -i,
        i >= 0 ==> signed_decimal(i)[0] != '-' && number_of(signed_decimal(i)) == i,
{
    if i < 0 {
        lemma_decimal_reads_back((-i) as nat);
        assert(signed_decimal(i).skip(1) =~= decimal((-i) as nat));
    } else {
        lemma_decimal_reads_back(i as nat);
    }
}

/// The position that a search finds holds the needle, and none before it from
/// where the search began does. Where the search finds nothing, none does.
pub proof fn lemma_first_text_is_first(s: Seq<char>, needle: Seq<char>, from: int)
    requires
        0 <= from,
    ensures
        match first_text(s, needle, from) {
            Some(at) => {
                &&& from <= at
                &&& at + needle.len() <= s.len()
                &&& text_at(s, at, needle)
                &&& forall|k: int|
                    0 <= k < needle.len() ==> s[at + k] == #[trigger] needle[k]
                &&& forall|i: int| from <= i < at ==> !#[trigger] text_at(s, i, needle)
            },
            None => forall|i: int| from <= i ==> !#[trigger] text_at(s, i, needle),
        },
    decreases s.len() + 1 - from,
{
    if from + needle.len() <= s.len() {
        if text_at(s, from, needle) {
            assert forall|k: int| 0 <= k < needle.len() implies s[from + k]
                == #[trigger] needle[k] by {
                assert(s.subrange(from, from + needle.len())[k] == s[from + k]);
            }
        } else {
            lemma_first_text_is_first(s, needle, from + 1);
        }
    }
}

/// The position that a search from the end finds holds the needle, and none after
/// it up to where the search began does. Where it finds nothing, none does.
pub proof fn lemma_last_text_is_last(s: Seq<char>, needle: Seq<char>, to: int)
    ensures
        match last_text(s, needle, to) {
            Some(at) => {
                &&& 0 <= at <= to
                &&& at + needle.len() <= s.len()
                &&& text_at(s, at, needle)
                &&& forall|k: int|
                    0 <= k < needle.len() ==> s[at + k] == #[trigger] needle[k]
                &&& forall|i: int| at < i <= to ==> !#[trigger] text_at(s, i, needle)
            },
            None => forall|i: int| i <= to ==> !#[trigger] text_at(s, i, needle),
        },
    decreases to + 1,
{
    if to >= 0 {
        if text_at(s, to, needle) {
            assert forall|k: int| 0 <= k < needle.len() implies s[to + k]
                == #[trigger] needle[k] by {
                assert(s.subrange(to, to + needle.len())[k] == s[to + k]);
            }
        } else {
            lemma_last_text_is_last(s, needle, to - 1);
        }
    }
}

/// A needle that stands somewhere is what the characters there spell.
pub proof fn lemma_spelt_text_stands(s: Seq<char>, at: int, needle: Seq<char>)
    requires
        0 <= at,
        at + needle.len() <= s.len(),
        forall|k: int| 0 <= k < needle.len() ==> s[at + k] == #[trigger] needle[k],
    ensures
        text_at(s, at, needle),
{
    assert(s.subrange(at, at + needle.len()) =~= needle);
}

/// Of two texts that agree up to some place, the one with the lower character
/// there comes first; a text comes before every longer one that begins with it.
pub proof fn lemma_text_order_goes_by_the_first_difference(a: Seq<char>, b: Seq<char>, k: int)
    requires
        0 <= k < b.len(),
        k <= a.len(),
        forall|i: int| 0 <= i < k ==> a[i] == b[i],
        k < a.len() ==> (a[k] as int) < (b[k] as int),
    ensures
        text_less(a, b),
    decreases k,
{
    if k > 0 {
        assert forall|i: int| 0 <= i < k - 1 implies a.drop_first()[i] == b.drop_first()[i] by {
            assert(a[i + 1] == b[i + 1]);
        }
        lemma_text_order_goes_by_the_first_difference(a.drop_first(), b.drop_first(), k - 1);
    }
}

} // verus!
