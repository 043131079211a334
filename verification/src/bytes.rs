//! Searching byte strings.

use vstd::prelude::*;

verus! {

/// `needle` stands in `s` at offset `at`.
pub open spec fn has_at(s: Seq<u8>, at: int, needle: Seq<u8>) -> bool {
    0 <= at && at + needle.len() <= s.len() && s.subrange(at, at + needle.len()) == needle
}

/// The lowest offset from `from` on at which a non-empty `needle` stands in `s`.
pub open spec fn first_at(s: Seq<u8>, needle: Seq<u8>, from: int) -> Option<int>
    decreases s.len() - from,
{
    if needle.len() == 0 || from + needle.len() > s.len() {
        None
    } else if has_at(s, from, needle) {
        Some(from)
    } else {
        first_at(s, needle, from + 1)
    }
}

/// True when `needle` stands in `data` at offset `off`.
pub fn starts_with_at(data: &[u8], off: usize, needle: &[u8]) -> (r: bool)
    ensures
        r == has_at(data@, off as int, needle@),
{
    if off > data.len() || data.len() - off < needle.len() {
        return false;
    }
    let mut i: usize = 0;
    while i < needle.len()
        invariant
            i <= needle.len(),
            off + needle.len() <= data.len(),
            forall|j: int| 0 <= j < i ==> data@[off + j] == needle@[j],
        decreases needle.len() - i,
    {
        if data[off + i] != needle[i] {
            assert(data@.subrange(off as int, off + needle.len())[i as int] != needle@[i as int]);
            return false;
        }
        i += 1;
    }
    assert(data@.subrange(off as int, off + needle.len()) =~= needle@);
    true
}

/// The first offset of `needle` in `haystack` at or after `from`.
pub fn find(haystack: &[u8], needle: &[u8], from: usize) -> (r: Option<usize>)
    ensures
        match r {
            Some(i) => first_at(haystack@, needle@, from as int) == Some(i as int),
            None => first_at(haystack@, needle@, from as int) is None,
        },
        r matches Some(i) ==> from <= i && has_at(haystack@, i as int, needle@),
{
    if needle.len() == 0 || haystack.len() < needle.len() || from > haystack.len() - needle.len() {
        return None;
    }
    let last: usize = haystack.len() - needle.len();
    let mut i: usize = from;
    while i <= last
        invariant
            needle.len() > 0,
            last + needle.len() == haystack.len(),
            from <= i <= last + 1,
            first_at(haystack@, needle@, from as int) == first_at(haystack@, needle@, i as int),
        decreases last + 1 - i,
    {
        if starts_with_at(haystack, i, needle) {
            return Some(i);
        }
        i += 1;
    }
    None
}

/// An ASCII letter, digit or underscore.
pub open spec fn word_byte(b: u8) -> bool {
    digit_byte(b) || (65 <= b <= 90) || (97 <= b <= 122) || b == 95
}

/// An ASCII decimal digit.
pub open spec fn digit_byte(b: u8) -> bool {
    48 <= b <= 57
}

/// True for an ASCII letter, digit or underscore.
pub fn is_word(b: u8) -> (r: bool)
    ensures
        r == word_byte(b),
{
    (48 <= b && b <= 57) || (65 <= b && b <= 90) || (97 <= b && b <= 122) || b == 95
}

/// Classes of bytes that a run is made of.
#[derive(Clone, Copy)]
pub enum Class {
    /// ASCII letters, digits and the underscore.
    Word,
    /// ASCII digits.
    Digit,
    /// ASCII capital letters and the underscore.
    Upper,
    /// Anything but a semicolon.
    NotSemicolon,
    /// Anything but a line feed.
    NotNewline,
}

impl Class {
    /// `b` belongs to the class.
    pub open spec fn has(self, b: u8) -> bool {
        match self {
            Class::Word => word_byte(b),
            Class::Digit => digit_byte(b),
            Class::Upper => (65 <= b <= 90) || b == 95,
            Class::NotSemicolon => b != 59,
            Class::NotNewline => b != 10,
        }
    }

    /// True when `b` belongs to the class.
    pub fn contains(self, b: u8) -> (r: bool)
        ensures
            r == self.has(b),
    {
        match self {
            Class::Word => is_word(b),
            Class::Digit => 48 <= b && b <= 57,
            Class::Upper => (65 <= b && b <= 90) || b == 95,
            Class::NotSemicolon => b != 59,
            Class::NotNewline => b != 10,
        }
    }
}

/// Where the run of bytes of `class` that begins at `from` ends.
pub open spec fn run_end(s: Seq<u8>, class: Class, from: int) -> int
    decreases s.len() - from,
{
    if 0 <= from < s.len() && class.has(s[from]) {
        run_end(s, class, from + 1)
    } else {
        from
    }
}

/// The end of the run of bytes of `class` that begins at `from`.
pub fn scan_run(s: &[u8], class: Class, from: usize) -> (r: usize)
    requires
        from <= s@.len(),
    ensures
        r == run_end(s@, class, from as int),
        from <= r <= s@.len(),
        forall|i: int| from <= i < r ==> class.has(#[trigger] s@[i]),
        r < s@.len() ==> !class.has(s@[r as int]),
{
    let mut i: usize = from;
    while i < s.len() && class.contains(s[i])
        invariant
            from <= i <= s@.len(),
            run_end(s@, class, from as int) == run_end(s@, class, i as int),
            forall|j: int| from <= j < i ==> class.has(#[trigger] s@[j]),
        decreases s@.len() - i,
    {
        i += 1;
    }
    i
}

/// A run ends no earlier than it begins, and inside the bytes.
pub proof fn lemma_run_end(s: Seq<u8>, class: Class, from: int)
    requires
        0 <= from <= s.len(),
    ensures
        from <= run_end(s, class, from) <= s.len(),
    decreases s.len() - from,
{
    if from < s.len() && class.has(s[from]) {
        lemma_run_end(s, class, from + 1);
    }
}

/// The number that decimal digits spell.
pub open spec fn digits_value(b: Seq<u8>) -> nat
    decreases b.len(),
{
    if b.len() == 0 {
        0
    } else {
        digits_value(b.drop_last()) * 10 + (b.last() - 48) as nat
    }
}

/// More digits never make a smaller number.
proof fn lemma_digits_grow(b: Seq<u8>, n: int)
    requires
        0 <= n <= b.len(),
        forall|i: int| 0 <= i < b.len() ==> digit_byte(#[trigger] b[i]),
    ensures
        digits_value(b.take(n)) <= digits_value(b),
    decreases b.len(),
{
    if n == b.len() {
        assert(b.take(n) =~= b);
    } else {
        assert forall|i: int| 0 <= i < b.drop_last().len() implies digit_byte(
            #[trigger] b.drop_last()[i],
        ) by {
            assert(digit_byte(b[i]));
        }
        lemma_digits_grow(b.drop_last(), n);
        assert(b.drop_last().take(n) =~= b.take(n));
        assert(digit_byte(b[b.len() - 1]));
    }
}

/// The number that decimal digits spell, if it is at most `max`.
fn parse_digits(b: &[u8], max: u64) -> (r: Option<u64>)
    requires
        forall|i: int| 0 <= i < b@.len() ==> digit_byte(#[trigger] b@[i]),
    ensures
        match r {
            Some(v) => v == digits_value(b@) && v <= max,
            None => digits_value(b@) > max,
        },
{
    let mut v: u64 = 0;
    let mut i: usize = 0;
    while i < b.len()
        invariant
            i <= b@.len(),
            forall|j: int| 0 <= j < b@.len() ==> digit_byte(#[trigger] b@[j]),
            v == digits_value(b@.take(i as int)),
            v <= max,
        decreases b@.len() - i,
    {
        assert(digit_byte(b@[i as int]));
        let d: u64 = (b[i] - 48) as u64;
        proof {
            assert(b@.take(i + 1).drop_last() =~= b@.take(i as int));
            lemma_digits_grow(b@, i + 1);
        }
        if v > max / 10 || (v == max / 10 && d > max % 10) {
            return None;
        }
        v = v * 10 + d;
        i += 1;
    }
    assert(b@.take(i as int) =~= b@);
    Some(v)
}

/// A number of at most `max` in decimal digits at `at`, with `tail` behind it:
/// the number, and the offset behind the tail.
pub open spec fn number_then(s: Seq<u8>, at: int, tail: Seq<u8>, max: int) -> Option<(nat, int)> {
    let end = run_end(s, Class::Digit, at);
    let value = digits_value(s.subrange(at, end));
    if end > at && has_at(s, end, tail) && value <= max {
        Some((value, end + tail.len()))
    } else {
        None
    }
}

/// Read a number of at most `max` that stands at `at` with `tail` behind it.
pub fn read_number(s: &[u8], at: usize, tail: &[u8], max: u64) -> (r: Option<(u64, usize)>)
    requires
        at <= s@.len(),
    ensures
        match r {
            Some((v, end)) => number_then(s@, at as int, tail@, max as int) == Some(
                (v as nat, end as int),
            ) && at < end <= s@.len() && v <= max,
            None => number_then(s@, at as int, tail@, max as int) is None,
        },
{
    let end: usize = scan_run(s, Class::Digit, at);
    if end == at || !starts_with_at(s, end, tail) {
        return None;
    }
    assert(end + tail@.len() <= s.len());
    let digits = vstd::slice::slice_subrange(s, at, end);
    assert forall|i: int| 0 <= i < digits@.len() implies digit_byte(#[trigger] digits@[i]) by {
        assert(Class::Digit.has(s@[at + i]));
    }
    match parse_digits(digits, max) {
        Some(v) => Some((v, end + tail.len())),
        None => None,
    }
}


// ---- laws ----

/// What stands first is found: no earlier place is a hit, and that one is.
pub proof fn lemma_first_is_first(s: Seq<u8>, needle: Seq<u8>, from: int, at: int)
    requires
        0 <= from <= at,
        needle.len() > 0,
        has_at(s, at, needle),
        forall|i: int| from <= i < at ==> !has_at(s, i, needle),
    ensures
        first_at(s, needle, from) == Some(at),
    decreases at - from,
{
    if from < at {
        assert(!has_at(s, from, needle));
        lemma_first_is_first(s, needle, from + 1, at);
    }
}

/// What stands nowhere is not found.
pub proof fn lemma_none_is_found(s: Seq<u8>, needle: Seq<u8>, from: int)
    requires
        0 <= from,
        forall|i: int| from <= i ==> !has_at(s, i, needle),
    ensures
        first_at(s, needle, from) is None,
    decreases s.len() - from,
{
    if needle.len() > 0 && from + needle.len() <= s.len() {
        assert(!has_at(s, from, needle));
        lemma_none_is_found(s, needle, from + 1);
    }
}

/// What stands somewhere is found, there or before.
pub proof fn lemma_a_hit_is_found(s: Seq<u8>, needle: Seq<u8>, from: int, at: int)
    requires
        0 <= from <= at,
        needle.len() > 0,
        has_at(s, at, needle),
    ensures
        first_at(s, needle, from) is Some,
        from <= first_at(s, needle, from)->0 <= at,
        has_at(s, first_at(s, needle, from)->0, needle),
    decreases at - from,
{
    if from < at && !has_at(s, from, needle) {
        lemma_a_hit_is_found(s, needle, from + 1, at);
    }
}

} // verus!
