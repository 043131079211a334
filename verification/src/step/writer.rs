//! Numbers, lists and entities as STEP writes them.

use std::collections::HashMap;

use vstd::prelude::*;

use crate::sample::Point;
use crate::text::{chars_of, push_decimal, string_of};

verus! {

broadcast use vstd::std_specs::hash::group_hash_axioms;

// ---- reals ----

/// Where the exponent mark stands in a number.
pub open spec fn mark_at(s: Seq<char>, n: int) -> Option<int>
    decreases s.len() - n,
{
    if n < 0 || n >= s.len() {
        None
    } else if s[n] == 'E' {
        Some(n)
    } else {
        mark_at(s, n + 1)
    }
}

/// The value of decimal digits; `None` where there are none or another
/// character stands among them.
pub open spec fn digits_value(s: Seq<char>) -> Option<nat>
    decreases s.len(),
{
    if s.len() == 0 {
        None
    } else if !('0' <= s.last() <= '9') {
        None
    } else {
        let d = (s.last() as int - '0' as int) as nat;
        if s.len() == 1 {
            Some(d)
        } else {
            match digits_value(s.drop_last()) {
                Some(v) => Some(v * 10 + d),
                None => None,
            }
        }
    }
}

/// The value of an exponent, with or without a sign.
pub open spec fn exponent_value(e: Seq<char>) -> Option<int> {
    if e.len() > 0 && e[0] == '-' {
        match digits_value(e.skip(1)) {
            Some(v) => Some(-(v as int)),
            None => None,
        }
    } else if e.len() > 0 && e[0] == '+' {
        match digits_value(e.skip(1)) {
            Some(v) => Some(v as int),
            None => None,
        }
    } else {
        match digits_value(e) {
            Some(v) => Some(v as int),
            None => None,
        }
    }
}

/// An exponent that reads better written out.
pub open spec fn small_exponent(e: Seq<char>) -> bool {
    exponent_value(e) is Some && -4 <= exponent_value(e)->0 <= 6
}

/// A real the way ISO 10303-21 wants it: always with a decimal point, even in
/// exponent form (`1.0E-7`, never `1E-7`). `scientific` is the number with an
/// exponent, `plain` the number without.
pub open spec fn real_form(finite: bool, scientific: Seq<char>, plain: Seq<char>) -> Seq<char> {
    if !finite {
        "0.0"@
    } else {
        match mark_at(scientific, 0) {
            None => scientific,
            Some(k) => {
                let m = scientific.take(k);
                let e = scientific.skip(k + 1);
                if small_exponent(e) {
                    plain
                } else if m.contains('.') {
                    m + seq!['E'] + e
                } else {
                    m + ".0"@ + seq!['E'] + e
                }
            },
        }
    }
}

/// The value of decimal digits, cut at a thousand.
fn small_digits(s: &[char]) -> (r: Option<u32>)
    ensures
        match r {
            Some(v) => digits_value(s@) is Some && v == (if digits_value(s@)->0 < 1000 {
                digits_value(s@)->0
            } else {
                1000
            }),
            None => digits_value(s@) is None,
        },
{
    if s.len() == 0 {
        return None;
    }
    let mut v: u32 = 0;
    let mut i: usize = 0;
    while i < s.len()
        invariant
            i <= s@.len(),
            v <= 1000,
            s@.len() > 0,
            i == 0 ==> v == 0,
            i > 0 ==> digits_value(s@.take(i as int)) is Some && v == (if digits_value(
                s@.take(i as int),
            )->0 < 1000 {
                digits_value(s@.take(i as int))->0
            } else {
                1000
            }),
        decreases s@.len() - i,
    {
        let c: char = s[i];
        proof {
            assert(s@.take(i + 1).drop_last() =~= s@.take(i as int));
            assert(s@.take(i + 1).last() == c);
        }
        if !('0' <= c && c <= '9') {
            proof {
                lemma_bad_digit(s@, i as int);
            }
            return None;
        }
        let d: u32 = c as u32 - '0' as u32;
        v = v * 10 + d;
        if v > 1000 {
            v = 1000;
        }
        i += 1;
    }
    assert(s@.take(i as int) =~= s@);
    Some(v)
}

/// A character that is no digit spoils the number.
proof fn lemma_bad_digit(s: Seq<char>, i: int)
    requires
        0 <= i < s.len(),
        !('0' <= s[i] <= '9'),
    ensures
        digits_value(s) is None,
    decreases s.len(),
{
    if i < s.len() - 1 {
        lemma_bad_digit(s.drop_last(), i);
    }
}

/// A real as STEP writes it.
pub fn format_real(finite: bool, scientific: &str, plain: &str) -> (r: String)
    ensures
        r@ == real_form(finite, scientific@, plain@),
{
    if !finite {
        return "0.0".to_owned();
    }
    let s = chars_of(scientific);
    let mut k: usize = 0;
    let mut dotted = false;
    while k < s.len() && s[k] != 'E'
        invariant
            k <= s@.len(),
            mark_at(s@, 0) == mark_at(s@, k as int),
            dotted == s@.take(k as int).contains('.'),
        decreases s@.len() - k,
    {
        proof {
            let before = s@.take(k as int);
            let after = s@.take(k + 1);
            assert(after =~= before.push(s@[k as int]));
            assert(after[k as int] == s@[k as int]);
            if before.contains('.') {
                let p = choose|p: int| 0 <= p < before.len() && before[p] == '.';
                assert(after[p] == '.');
            }
            if after.contains('.') && s@[k as int] != '.' {
                let p = choose|p: int| 0 <= p < after.len() && after[p] == '.';
                assert(before[p] == '.');
            }
        }
        if s[k] == '.' {
            dotted = true;
        }
        k += 1;
    }
    if k == s.len() {
        return string_of(s.as_slice());
    }
    let mut m: Vec<char> = Vec::new();
    let mut i: usize = 0;
    while i < k
        invariant
            i <= k < s@.len(),
            m@ == s@.take(i as int),
        decreases k - i,
    {
        m.push(s[i]);
        assert(m@ =~= s@.take(i + 1));
        i += 1;
    }
    let mut e: Vec<char> = Vec::new();
    let mut j: usize = k + 1;
    assert(e@ =~= s@.skip(k + 1).take(0));
    while j < s.len()
        invariant
            k < j <= s@.len(),
            e@ == s@.skip(k + 1).take(j - k - 1),
        decreases s@.len() - j,
    {
        e.push(s[j]);
        assert(e@ =~= s@.skip(k + 1).take(j - k));
        j += 1;
    }
    assert(e@ =~= s@.skip(k + 1));
    if is_small_exponent(e.as_slice()) {
        return string_of(chars_of(plain).as_slice());
    }
    let mut out = string_of(m.as_slice());
    if !dotted {
        out.append(".0");
    }
    out.push('E');
    out.append(string_of(e.as_slice()).as_str());
    assert(out@ =~= real_form(finite, scientific@, plain@));
    out
}

/// True for an exponent that reads better written out.
fn is_small_exponent(e: &[char]) -> (r: bool)
    ensures
        r == small_exponent(e@),
{
    if e.len() == 0 {
        return false;
    }
    let signed: bool = e[0] == '-' || e[0] == '+';
    let mut digits: Vec<char> = Vec::new();
    let start: usize = if signed {
        1
    } else {
        0
    };
    let mut i: usize = start;
    assert(digits@ =~= e@.skip(start as int).take(0));
    while i < e.len()
        invariant
            start <= i <= e@.len(),
            digits@ == e@.skip(start as int).take(i - start),
        decreases e@.len() - i,
    {
        digits.push(e[i]);
        assert(digits@ =~= e@.skip(start as int).take(i - start + 1));
        i += 1;
    }
    assert(digits@ =~= e@.skip(start as int));
    assert(e@.skip(0) =~= e@);
    match small_digits(digits.as_slice()) {
        None => false,
        Some(v) => if e[0] == '-' {
            v <= 4
        } else {
            v <= 6
        },
    }
}

/// A character of the first part stands in the whole.
proof fn lemma_contains_left(a: Seq<char>, b: Seq<char>, c: char)
    requires
        a.contains(c),
    ensures
        (a + b).contains(c),
{
    let k = choose|k: int| 0 <= k < a.len() && a[k] == c;
    assert((a + b)[k] == c);
}

/// STEP parsers reject `1E-7`: a number that has an exponent mark in its one
/// form and a point in its other always carries a decimal point.
pub proof fn lemma_reals_carry_a_point(finite: bool, scientific: Seq<char>, plain: Seq<char>)
    requires
        plain.contains('.'),
        scientific.contains('E'),
    ensures
        real_form(finite, scientific, plain).contains('.'),
{
    reveal_strlit("0.0");
    reveal_strlit(".0");
    assert("0.0"@[1] == '.');
    if finite {
        let p = choose|p: int| 0 <= p < scientific.len() && scientific[p] == 'E';
        lemma_mark(scientific, 0, p);
        let k = mark_at(scientific, 0)->0;
        let m = scientific.take(k);
        let e = scientific.skip(k + 1);
        if !small_exponent(e) {
            if m.contains('.') {
                lemma_contains_left(m, seq!['E'], '.');
                lemma_contains_left(m + seq!['E'], e, '.');
            } else {
                assert((m + ".0"@)[k] == '.');
                lemma_contains_left(m + ".0"@, seq!['E'], '.');
                lemma_contains_left(m + ".0"@ + seq!['E'], e, '.');
            }
        }
    }
}

/// A mark that is there is found.
proof fn lemma_mark(s: Seq<char>, n: int, p: int)
    requires
        0 <= n <= p < s.len(),
        s[p] == 'E',
    ensures
        mark_at(s, n) is Some,
        n <= mark_at(s, n)->0 <= p,
    decreases p - n,
{
    if s[n] != 'E' {
        lemma_mark(s, n + 1, p);
    }
}

// ---- texts of numbers ----

/// The text of a number, by its bits; a number without one is not finite.
pub open spec fn real_text(numbers: Map<u64, String>, bits: u64) -> Seq<char> {
    if numbers.contains_key(bits) {
        numbers[bits]@
    } else {
        "0.0"@
    }
}

/// Append a number.
pub fn push_real(out: &mut String, numbers: &HashMap<u64, String>, bits: u64)
    ensures
        final(out)@ == old(out)@ + real_text(numbers@, bits),
{
    match numbers.get(&bits) {
        Some(t) => {
            out.append(t.as_str());
        },
        None => {
            out.append("0.0");
        },
    }
}

/// A reference to an entity.
pub open spec fn refer(id: u64) -> Seq<char> {
    "#"@ + crate::text::decimal(id as nat)
}

/// Append a reference.
pub fn push_ref(out: &mut String, id: u64)
    ensures
        final(out)@ == old(out)@ + refer(id),
{
    let ghost before = out@;
    out.append("#");
    push_decimal(out, id);
    assert(out@ =~= before + refer(id));
}

/// References, with commas between them.
pub open spec fn refs(ids: Seq<u64>) -> Seq<char>
    decreases ids.len(),
{
    if ids.len() == 0 {
        Seq::empty()
    } else {
        (if ids.len() > 1 {
            refs(ids.drop_last()) + ","@
        } else {
            Seq::empty()
        }) + refer(ids.last())
    }
}

/// A list of references.
pub open spec fn ref_list(ids: Seq<u64>) -> Seq<char> {
    "("@ + refs(ids) + ")"@
}

pub fn list_u32(ids: &[u64]) -> (r: String)
    ensures
        r@ == ref_list(ids@),
{
    let mut s = "(".to_owned();
    let ghost head = s@;
    let mut i: usize = 0;
    assert(s@ =~= head + refs(ids@.take(0)));
    while i < ids.len()
        invariant
            i <= ids@.len(),
            s@ == head + refs(ids@.take(i as int)),
        decreases ids@.len() - i,
    {
        assert(ids@.take(i + 1).drop_last() =~= ids@.take(i as int));
        assert(ids@.take(i + 1).last() == ids@[i as int]);
        if i > 0 {
            s.append(",");
        }
        push_ref(&mut s, ids[i]);
        assert(s@ =~= head + refs(ids@.take(i + 1)));
        i += 1;
    }
    assert(ids@.take(i as int) =~= ids@);
    s.append(")");
    assert(s@ =~= ref_list(ids@));
    s
}

/// Integers, with commas between them.
pub open spec fn integers(xs: Seq<usize>) -> Seq<char>
    decreases xs.len(),
{
    if xs.len() == 0 {
        Seq::empty()
    } else {
        (if xs.len() > 1 {
            integers(xs.drop_last()) + ","@
        } else {
            Seq::empty()
        }) + crate::text::decimal(xs.last() as nat)
    }
}

/// A list of integers.
pub open spec fn int_list(xs: Seq<usize>) -> Seq<char> {
    "("@ + integers(xs) + ")"@
}

pub fn list_i(xs: &[usize]) -> (r: String)
    ensures
        r@ == int_list(xs@),
{
    let mut s = "(".to_owned();
    let ghost head = s@;
    let mut i: usize = 0;
    assert(s@ =~= head + integers(xs@.take(0)));
    while i < xs.len()
        invariant
            i <= xs@.len(),
            s@ == head + integers(xs@.take(i as int)),
        decreases xs@.len() - i,
    {
        assert(xs@.take(i + 1).drop_last() =~= xs@.take(i as int));
        assert(xs@.take(i + 1).last() == xs@[i as int]);
        if i > 0 {
            s.append(",");
        }
        push_decimal(&mut s, xs[i] as u64);
        assert(s@ =~= head + integers(xs@.take(i + 1)));
        i += 1;
    }
    assert(xs@.take(i as int) =~= xs@);
    s.append(")");
    assert(s@ =~= int_list(xs@));
    s
}

/// Reals, with commas between them.
pub open spec fn reals(numbers: Map<u64, String>, xs: Seq<u64>) -> Seq<char>
    decreases xs.len(),
{
    if xs.len() == 0 {
        Seq::empty()
    } else {
        (if xs.len() > 1 {
            reals(numbers, xs.drop_last()) + ","@
        } else {
            Seq::empty()
        }) + real_text(numbers, xs.last())
    }
}

/// A list of reals.
pub open spec fn real_list(numbers: Map<u64, String>, xs: Seq<u64>) -> Seq<char> {
    "("@ + reals(numbers, xs) + ")"@
}

pub fn list_f(numbers: &HashMap<u64, String>, xs: &[u64]) -> (r: String)
    ensures
        r@ == real_list(numbers@, xs@),
{
    let mut s = "(".to_owned();
    let ghost head = s@;
    let mut i: usize = 0;
    assert(s@ =~= head + reals(numbers@, xs@.take(0)));
    while i < xs.len()
        invariant
            i <= xs@.len(),
            s@ == head + reals(numbers@, xs@.take(i as int)),
        decreases xs@.len() - i,
    {
        assert(xs@.take(i + 1).drop_last() =~= xs@.take(i as int));
        assert(xs@.take(i + 1).last() == xs@[i as int]);
        if i > 0 {
            s.append(",");
        }
        push_real(&mut s, numbers, xs[i]);
        assert(s@ =~= head + reals(numbers@, xs@.take(i + 1)));
        i += 1;
    }
    assert(xs@.take(i as int) =~= xs@);
    s.append(")");
    assert(s@ =~= real_list(numbers@, xs@));
    s
}

// ---- entities ----

/// The entities written so far, and the number of the last one.
pub struct Writer {
    pub body: String,
    pub n: u64,
}

/// The contents of a writer.
#[verifier::ext_equal]
pub struct WriterView {
    pub body: Seq<char>,
    pub n: u64,
}

impl View for Writer {
    type V = WriterView;

    open spec fn view(&self) -> WriterView {
        WriterView { body: self.body@, n: self.n }
    }
}

/// The number after another; there is none after the last.
pub open spec fn next_number(n: u64) -> u64 {
    if n < u64::MAX {
        (n + 1) as u64
    } else {
        n
    }
}

impl WriterView {
    /// Nothing written yet.
    pub open spec fn blank() -> WriterView {
        WriterView { body: Seq::empty(), n: 0 }
    }

    /// One more entity.
    pub open spec fn entity(self, s: Seq<char>) -> WriterView {
        let n = next_number(self.n);
        WriterView { body: self.body + refer(n) + "="@ + s + ";\n"@, n }
    }

    /// A point.
    pub open spec fn cart(self, numbers: Map<u64, String>, p: Seq<u64>) -> WriterView {
        self.entity("CARTESIAN_POINT('',"@ + real_list(numbers, p) + ")"@)
    }

    /// A direction.
    pub open spec fn dir(self, numbers: Map<u64, String>, v: Seq<u64>) -> WriterView {
        self.entity("DIRECTION('',"@ + real_list(numbers, v) + ")"@)
    }

    /// A placement: an origin, an axis and a reference direction.
    pub open spec fn ax2(
        self,
        numbers: Map<u64, String>,
        origin: Seq<u64>,
        z: Seq<u64>,
        x: Seq<u64>,
    ) -> WriterView {
        let c = self.cart(numbers, origin);
        let dz = c.dir(numbers, z);
        let dx = dz.dir(numbers, x);
        dx.entity(
            "AXIS2_PLACEMENT_3D('',"@ + refer(c.n) + ","@ + refer(dz.n) + ","@ + refer(dx.n) + ")"@,
        )
    }

    /// Points, one after another.
    pub open spec fn carts(self, numbers: Map<u64, String>, pts: Seq<Point>) -> WriterView
        decreases pts.len(),
    {
        if pts.len() == 0 {
            self
        } else {
            self.carts(numbers, pts.drop_last()).cart(numbers, pts.last()@)
        }
    }

    /// The numbers of those points.
    pub open spec fn cart_ids(self, numbers: Map<u64, String>, pts: Seq<Point>) -> Seq<u64>
        decreases pts.len(),
    {
        if pts.len() == 0 {
            Seq::empty()
        } else {
            self.cart_ids(numbers, pts.drop_last()).push(self.carts(numbers, pts).n)
        }
    }
}

impl Writer {
    pub fn new() -> (r: Self)
        ensures
            r@ == WriterView::blank(),
    {
        let r = Writer { body: String::new(), n: 0 };
        assert(r@ =~= WriterView::blank());
        r
    }

    /// Write an entity; its number.
    pub fn add(&mut self, s: &str) -> (id: u64)
        ensures
            final(self)@ == old(self)@.entity(s@),
            id == final(self)@.n,
    {
        let ghost before = self@;
        if self.n < u64::MAX {
            self.n += 1;
        }
        push_ref(&mut self.body, self.n);
        self.body.append("=");
        self.body.append(s);
        self.body.append(";\n");
        assert(self@ =~= before.entity(s@));
        self.n
    }

    pub fn cart(&mut self, numbers: &HashMap<u64, String>, p: Point) -> (id: u64)
        ensures
            final(self)@ == old(self)@.cart(numbers@, p@),
            id == final(self)@.n,
    {
        let mut s = "CARTESIAN_POINT('',".to_owned();
        s.append(list_f(numbers, p.as_slice()).as_str());
        s.append(")");
        assert(s@ =~= "CARTESIAN_POINT('',"@ + real_list(numbers@, p@) + ")"@);
        self.add(s.as_str())
    }

    pub fn dir(&mut self, numbers: &HashMap<u64, String>, v: Point) -> (id: u64)
        ensures
            final(self)@ == old(self)@.dir(numbers@, v@),
            id == final(self)@.n,
    {
        let mut s = "DIRECTION('',".to_owned();
        s.append(list_f(numbers, v.as_slice()).as_str());
        s.append(")");
        assert(s@ =~= "DIRECTION('',"@ + real_list(numbers@, v@) + ")"@);
        self.add(s.as_str())
    }

    pub fn ax2(&mut self, numbers: &HashMap<u64, String>, origin: Point, z: Point, x: Point) -> (id:
        u64)
        ensures
            final(self)@ == old(self)@.ax2(numbers@, origin@, z@, x@),
            id == final(self)@.n,
    {
        let c: u64 = self.cart(numbers, origin);
        let dz: u64 = self.dir(numbers, z);
        let dx: u64 = self.dir(numbers, x);
        let mut s = "AXIS2_PLACEMENT_3D('',".to_owned();
        push_ref(&mut s, c);
        s.append(",");
        push_ref(&mut s, dz);
        s.append(",");
        push_ref(&mut s, dx);
        s.append(")");
        assert(s@ =~= "AXIS2_PLACEMENT_3D('',"@ + refer(c) + ","@ + refer(dz) + ","@ + refer(dx)
            + ")"@);
        self.add(s.as_str())
    }

    /// Write points; their numbers.
    pub fn carts(&mut self, numbers: &HashMap<u64, String>, pts: &[Point]) -> (ids: Vec<u64>)
        ensures
            final(self)@ == old(self)@.carts(numbers@, pts@),
            ids@ == old(self)@.cart_ids(numbers@, pts@),
    {
        let ghost start = self@;
        let mut ids: Vec<u64> = Vec::new();
        let mut i: usize = 0;
        assert(ids@ =~= start.cart_ids(numbers@, pts@.take(0)));
        while i < pts.len()
            invariant
                i <= pts@.len(),
                self@ == start.carts(numbers@, pts@.take(i as int)),
                ids@ == start.cart_ids(numbers@, pts@.take(i as int)),
            decreases pts@.len() - i,
        {
            assert(pts@.take(i + 1).drop_last() =~= pts@.take(i as int));
            assert(pts@.take(i + 1).last() == pts@[i as int]);
            let id: u64 = self.cart(numbers, pts[i]);
            ids.push(id);
            i += 1;
        }
        assert(pts@.take(i as int) =~= pts@);
        ids
    }
}

// ---- knots ----

/// Knots without repeats and how often each is repeated, the first `n` of them.
/// `near` says of each knot whether it is the last distinct one again.
pub open spec fn compressed(knots: Seq<u64>, near: Seq<bool>, n: int) -> (Seq<u64>, Seq<usize>)
    decreases n,
{
    if n <= 0 {
        (Seq::empty(), Seq::empty())
    } else {
        let (k, m) = compressed(knots, near, n - 1);
        if k.len() > 0 && near[n - 1] {
            (k, m.update(m.len() - 1, (m.last() + 1) as usize))
        } else {
            (k.push(knots[n - 1]), m.push(1))
        }
    }
}

/// How many knots repeats stand for.
pub open spec fn total(mults: Seq<usize>) -> int
    decreases mults.len(),
{
    if mults.len() == 0 {
        0
    } else {
        total(mults.drop_last()) + mults.last()
    }
}

/// Compressing drops no knot: the repeats add up to as many as there were.
pub proof fn lemma_compression_keeps_count(knots: Seq<u64>, near: Seq<bool>, n: int)
    requires
        0 <= n <= usize::MAX,
    ensures
        compressed(knots, near, n).0.len() == compressed(knots, near, n).1.len(),
        total(compressed(knots, near, n).1) == n,
        forall|i: int|
            0 <= i < compressed(knots, near, n).1.len() ==> 1 <= #[trigger] compressed(
                knots,
                near,
                n,
            ).1[i] <= n,
    decreases n,
{
    if n > 0 {
        lemma_compression_keeps_count(knots, near, n - 1);
        let (k, m) = compressed(knots, near, n - 1);
        let after = compressed(knots, near, n).1;
        if k.len() > 0 && near[n - 1] {
            assert(m.last() == m[m.len() - 1]);
            assert(after.drop_last() =~= m.drop_last());
        } else {
            assert(after.drop_last() =~= m);
        }
    }
}

/// Compress an expanded knot vector into (distinct knots, multiplicities).
pub fn compress_knots(expanded: &[u64], near: &[bool]) -> (r: (Vec<u64>, Vec<usize>))
    requires
        near@.len() == expanded@.len(),
    ensures
        (r.0@, r.1@) == compressed(expanded@, near@, expanded@.len() as int),
{
    let mut knots: Vec<u64> = Vec::new();
    let mut mults: Vec<usize> = Vec::new();
    let mut i: usize = 0;
    while i < expanded.len()
        invariant
            i <= expanded@.len(),
            near@.len() == expanded@.len(),
            (knots@, mults@) == compressed(expanded@, near@, i as int),
            knots@.len() == mults@.len(),
        decreases expanded@.len() - i,
    {
        proof {
            lemma_compression_keeps_count(expanded@, near@, i as int);
        }
        if knots.len() > 0 && near[i] {
            let last: usize = mults.len() - 1;
            let m: usize = mults[last];
            assert(m <= i);
            mults.set(last, m + 1);
        } else {
            knots.push(expanded[i]);
            mults.push(1);
        }
        i += 1;
    }
    (knots, mults)
}

} // verus!
