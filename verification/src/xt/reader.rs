//! Big-endian primitive readers for Parasolid XT fields.
//!
//! What each reader gives is a function of the bytes and the offset it starts
//! from; the function's second result is the offset it leaves, on success and
//! on failure alike.

use vstd::prelude::*;

use crate::double::NAN_BITS;
use crate::text::latin1_string;
use crate::xt::fault::{
    agrees, bad_bool, bad_utf16, negative_length, non_ascii, overflow, truncated, Fault, XtError,
};

verus! {

/// i16 null sentinel: `80 04` (-32764).
pub const I16_NULL: i16 = -32764;

/// The bits of the f64 null sentinel: `C2 BC 92 8F 99 6E 00 00` (-3.14158e13).
pub const F64_NULL: u64 = 0xC2BC928F996E0000;

/// Pointer null: the literal id 1.
pub const PTR_NULL: i16 = 1;

/// The bytes left behind offset `p`.
pub open spec fn left(d: Seq<u8>, p: int) -> int {
    if p < d.len() {
        d.len() - p
    } else {
        0
    }
}

/// The next `n` bytes.
pub open spec fn taken(d: Seq<u8>, p: int, n: int) -> (Result<Seq<u8>, Fault>, int) {
    if p + n > usize::MAX {
        (Err(Fault::Overflow), p)
    } else if p + n > d.len() {
        (Err(Fault::Truncated { want: n, at: p, left: left(d, p) }), p)
    } else {
        (Ok(d.subrange(p, p + n)), p + n)
    }
}

/// The number in two bytes.
pub open spec fn be_i16(b: Seq<u8>) -> i16 {
    let u = b[0] * 0x100 + b[1];
    (if u >= 0x8000 {
        u - 0x10000
    } else {
        u
    }) as i16
}

/// The number in four bytes.
pub open spec fn be_i32(b: Seq<u8>) -> i32 {
    let u = b[0] * 0x1000000 + b[1] * 0x10000 + b[2] * 0x100 + b[3];
    (if u >= 0x80000000 {
        u - 0x100000000
    } else {
        u
    }) as i32
}

/// The number in eight bytes.
pub open spec fn be_u64(b: Seq<u8>) -> u64 {
    (b[0] * 0x100000000000000 + b[1] * 0x1000000000000 + b[2] * 0x10000000000 + b[3] * 0x100000000
        + b[4] * 0x1000000 + b[5] * 0x10000 + b[6] * 0x100 + b[7]) as u64
}

pub open spec fn read_u8(d: Seq<u8>, p: int) -> (Result<u8, Fault>, int) {
    match taken(d, p, 1) {
        (Ok(b), q) => (Ok(b[0]), q),
        (Err(f), q) => (Err(f), q),
    }
}

pub open spec fn read_i16_raw(d: Seq<u8>, p: int) -> (Result<i16, Fault>, int) {
    match taken(d, p, 2) {
        (Ok(b), q) => (Ok(be_i16(b)), q),
        (Err(f), q) => (Err(f), q),
    }
}

pub open spec fn read_i16(d: Seq<u8>, p: int) -> (Result<Option<i16>, Fault>, int) {
    match read_i16_raw(d, p) {
        (Ok(v), q) => (
            Ok(
                if v == I16_NULL {
                    None
                } else {
                    Some(v)
                },
            ),
            q,
        ),
        (Err(f), q) => (Err(f), q),
    }
}

pub open spec fn read_i32(d: Seq<u8>, p: int) -> (Result<i32, Fault>, int) {
    match taken(d, p, 4) {
        (Ok(b), q) => (Ok(be_i32(b)), q),
        (Err(f), q) => (Err(f), q),
    }
}

pub open spec fn read_f64(d: Seq<u8>, p: int) -> (Result<Option<u64>, Fault>, int) {
    match taken(d, p, 8) {
        (Ok(b), q) => (
            Ok(
                if be_u64(b) == F64_NULL {
                    None
                } else {
                    Some(be_u64(b))
                },
            ),
            q,
        ),
        (Err(f), q) => (Err(f), q),
    }
}

/// `n` numbers in a row, a null one standing as NaN.
pub open spec fn read_reals(d: Seq<u8>, p: int, n: nat) -> (Result<Seq<u64>, Fault>, int)
    decreases n,
{
    if n == 0 {
        (Ok(Seq::empty()), p)
    } else {
        match read_reals(d, p, (n - 1) as nat) {
            (Ok(before), q) => match read_f64(d, q) {
                (Ok(v), q2) => (
                    Ok(
                        before.push(
                            match v {
                                Some(x) => x,
                                None => NAN_BITS,
                            },
                        ),
                    ),
                    q2,
                ),
                (Err(f), q2) => (Err(f), q2),
            },
            (Err(f), q) => (Err(f), q),
        }
    }
}

pub open spec fn read_chars(d: Seq<u8>, p: int, n: int) -> (Result<Seq<char>, Fault>, int) {
    match taken(d, p, n) {
        (Ok(b), q) => if exists|i: int| 0 <= i < b.len() && #[trigger] b[i] >= 0x80 {
            (Err(Fault::NonAscii), q)
        } else {
            (Ok(crate::text::latin1(b)), q)
        },
        (Err(f), q) => (Err(f), q),
    }
}

pub open spec fn read_bool(d: Seq<u8>, p: int) -> (Result<bool, Fault>, int) {
    match read_u8(d, p) {
        (Ok(v), q) => if v == 0 {
            (Ok(false), q)
        } else if v == 1 {
            (Ok(true), q)
        } else {
            (Err(Fault::BadBool { value: v as int }), q)
        },
        (Err(f), q) => (Err(f), q),
    }
}

pub open spec fn read_pointer(d: Seq<u8>, p: int) -> (Result<Option<i16>, Fault>, int) {
    match read_i16_raw(d, p) {
        (Ok(v), q) => (
            Ok(
                if v == PTR_NULL {
                    None
                } else {
                    Some(v)
                },
            ),
            q,
        ),
        (Err(f), q) => (Err(f), q),
    }
}

/// Big-endian code units.
pub open spec fn utf16_units(b: Seq<u8>) -> Seq<u16> {
    Seq::new((b.len() / 2) as nat, |i: int| (b[2 * i] * 0x100 + b[2 * i + 1]) as u16)
}

/// The text that UTF-16 code units stand for; `None` where a surrogate has no
/// partner.
pub open spec fn utf16_text(units: Seq<u16>) -> Option<Seq<char>>
    decreases units.len(),
{
    if units.len() == 0 {
        Some(Seq::empty())
    } else if !(0xD800 <= units[0] < 0xE000) {
        match utf16_text(units.skip(1)) {
            Some(rest) => Some(seq![units[0] as char] + rest),
            None => None,
        }
    } else if units.len() >= 2 && units[0] < 0xDC00 && 0xDC00 <= units[1] < 0xE000 {
        match utf16_text(units.skip(2)) {
            Some(rest) => Some(
                seq![(0x10000 + (units[0] - 0xD800) * 0x400 + (units[1] - 0xDC00)) as char] + rest,
            ),
            None => None,
        }
    } else {
        None
    }
}

/// `String::from_utf16`: the decoded text, or an error where a surrogate has
/// no partner.
#[verifier::external_body]
fn decode_utf16(units: &Vec<u16>) -> (r: Option<String>)
    ensures
        match r {
            Some(s) => utf16_text(units@) == Some(s@),
            None => utf16_text(units@) is None,
        },
{
    match String::from_utf16(units) {
        Ok(s) => Some(s),
        Err(_) => None,
    }
}

pub open spec fn read_utf16(d: Seq<u8>, p: int, n: int) -> (Result<Seq<char>, Fault>, int) {
    match taken(d, p, 2 * n) {
        (Ok(b), q) => match utf16_text(utf16_units(b)) {
            Some(s) => (Ok(s), q),
            None => (Err(Fault::BadUtf16), q),
        },
        (Err(f), q) => (Err(f), q),
    }
}

pub open spec fn read_str_u8(d: Seq<u8>, p: int) -> (Result<Seq<char>, Fault>, int) {
    match read_u8(d, p) {
        (Ok(n), q) => read_chars(d, q, n as int),
        (Err(f), q) => (Err(f), q),
    }
}

pub open spec fn read_str_i32(d: Seq<u8>, p: int) -> (Result<Seq<char>, Fault>, int) {
    match read_i32(d, p) {
        (Ok(n), q) => if n < 0 {
            (Err(Fault::NegativeLength { length: n as int }), q)
        } else {
            read_chars(d, q, n as int)
        },
        (Err(f), q) => (Err(f), q),
    }
}

/// True when no byte is above 0x7F.
fn is_ascii(b: &[u8]) -> (r: bool)
    ensures
        r == !(exists|i: int| 0 <= i < b@.len() && #[trigger] b@[i] >= 0x80),
{
    let mut i: usize = 0;
    while i < b.len()
        invariant
            i <= b@.len(),
            forall|j: int| 0 <= j < i ==> b@[j] < 0x80,
        decreases b@.len() - i,
    {
        if b[i] >= 0x80 {
            assert(b@[i as int] >= 0x80);
            return false;
        }
        i += 1;
    }
    true
}

pub struct Reader<'a> {
    pub data: &'a [u8],
    pub pos: usize,
}

impl<'a> Reader<'a> {
    pub fn new(data: &'a [u8]) -> (r: Self)
        ensures
            r.data@ == data@,
            r.pos == 0,
    {
        Reader { data, pos: 0 }
    }

    pub fn remaining(&self) -> (r: usize)
        ensures
            r == left(self.data@, self.pos as int),
    {
        if self.pos < self.data.len() {
            self.data.len() - self.pos
        } else {
            0
        }
    }

    pub fn eof(&self) -> (r: bool)
        ensures
            r == (self.pos >= self.data@.len()),
    {
        self.pos >= self.data.len()
    }

    /// The reader stands where `end` says, on the same bytes.
    pub open spec fn moved(self, before: Self, end: int) -> bool {
        self.data@ == before.data@ && self.pos == end
    }

    pub fn take(&mut self, n: usize) -> (r: Result<&'a [u8], XtError>)
        ensures
            final(self).moved(*old(self), taken(old(self).data@, old(self).pos as int, n as int).1),
            match (r, taken(old(self).data@, old(self).pos as int, n as int).0) {
                (Ok(a), Ok(b)) => a@ == b,
                (Err(e), Err(f)) => e.0@ == f.text(),
                _ => false,
            },
    {
        if self.pos > usize::MAX - n {
            return Err(overflow());
        }
        let end: usize = self.pos + n;
        if end > self.data.len() {
            return Err(truncated(n, self.pos, self.remaining()));
        }
        let out = vstd::slice::slice_subrange(self.data, self.pos, end);
        self.pos = end;
        Ok(out)
    }

    pub fn u8(&mut self) -> (r: Result<u8, XtError>)
        ensures
            final(self).moved(*old(self), read_u8(old(self).data@, old(self).pos as int).1),
            agrees(r, read_u8(old(self).data@, old(self).pos as int).0),
    {
        match self.take(1) {
            Ok(b) => Ok(b[0]),
            Err(e) => Err(e),
        }
    }

    /// Raw i16, sentinel not interpreted (used for node ids and pointers).
    pub fn i16_raw(&mut self) -> (r: Result<i16, XtError>)
        ensures
            final(self).moved(*old(self), read_i16_raw(old(self).data@, old(self).pos as int).1),
            agrees(r, read_i16_raw(old(self).data@, old(self).pos as int).0),
    {
        match self.take(2) {
            Ok(b) => {
                let u: i32 = b[0] as i32 * 0x100 + b[1] as i32;
                if u >= 0x8000 {
                    Ok((u - 0x10000) as i16)
                } else {
                    Ok(u as i16)
                }
            },
            Err(e) => Err(e),
        }
    }

    /// i16 field value; `None` for the null sentinel.
    pub fn i16(&mut self) -> (r: Result<Option<i16>, XtError>)
        ensures
            final(self).moved(*old(self), read_i16(old(self).data@, old(self).pos as int).1),
            agrees(r, read_i16(old(self).data@, old(self).pos as int).0),
    {
        match self.i16_raw() {
            Ok(v) => Ok(
                if v == I16_NULL {
                    None
                } else {
                    Some(v)
                },
            ),
            Err(e) => Err(e),
        }
    }

    pub fn i32(&mut self) -> (r: Result<i32, XtError>)
        ensures
            final(self).moved(*old(self), read_i32(old(self).data@, old(self).pos as int).1),
            agrees(r, read_i32(old(self).data@, old(self).pos as int).0),
    {
        match self.take(4) {
            Ok(b) => {
                let u: i64 = b[0] as i64 * 0x1000000 + b[1] as i64 * 0x10000 + b[2] as i64 * 0x100
                    + b[3] as i64;
                if u >= 0x80000000 {
                    Ok((u - 0x100000000) as i32)
                } else {
                    Ok(u as i32)
                }
            },
            Err(e) => Err(e),
        }
    }

    /// The bits of an f64 field value; `None` for the null sentinel.
    pub fn f64_bits(&mut self) -> (r: Result<Option<u64>, XtError>)
        ensures
            final(self).moved(*old(self), read_f64(old(self).data@, old(self).pos as int).1),
            agrees(r, read_f64(old(self).data@, old(self).pos as int).0),
    {
        match self.take(8) {
            Ok(b) => {
                let hi: u64 = b[0] as u64 * 0x1000000 + b[1] as u64 * 0x10000 + b[2] as u64 * 0x100
                    + b[3] as u64;
                let lo: u64 = b[4] as u64 * 0x1000000 + b[5] as u64 * 0x10000 + b[6] as u64 * 0x100
                    + b[7] as u64;
                let v: u64 = hi * 0x100000000 + lo;
                Ok(
                    if v == F64_NULL {
                        None
                    } else {
                        Some(v)
                    },
                )
            },
            Err(e) => Err(e),
        }
    }

    /// f64 with the null sentinel folded to NaN, for use inside composites
    /// (vector/interval/box) which have no per-component null representation.
    fn f64_nan(&mut self) -> (r: Result<u64, XtError>)
        ensures
            final(self).moved(*old(self), read_f64(old(self).data@, old(self).pos as int).1),
            match (r, read_f64(old(self).data@, old(self).pos as int).0) {
                (Ok(x), Ok(v)) => x == match v {
                    Some(y) => y,
                    None => NAN_BITS,
                },
                (Err(e), Err(f)) => e.0@ == f.text(),
                _ => false,
            },
    {
        match self.f64_bits() {
            Ok(Some(v)) => Ok(v),
            Ok(None) => Ok(NAN_BITS),
            Err(e) => Err(e),
        }
    }

    /// ASCII string of `n` bytes; strict, non-ASCII is an error.
    pub fn char(&mut self, n: usize) -> (r: Result<String, XtError>)
        ensures
            final(self).moved(
                *old(self),
                read_chars(old(self).data@, old(self).pos as int, n as int).1,
            ),
            agrees(r, read_chars(old(self).data@, old(self).pos as int, n as int).0),
    {
        let b = match self.take(n) {
            Ok(b) => b,
            Err(e) => {
                return Err(e);
            },
        };
        if !is_ascii(b) {
            return Err(non_ascii());
        }
        Ok(latin1_string(b))
    }

    pub fn bool8(&mut self) -> (r: Result<bool, XtError>)
        ensures
            final(self).moved(*old(self), read_bool(old(self).data@, old(self).pos as int).1),
            agrees(r, read_bool(old(self).data@, old(self).pos as int).0),
    {
        match self.u8() {
            Ok(0) => Ok(false),
            Ok(1) => Ok(true),
            Ok(v) => Err(bad_bool(v)),
            Err(e) => Err(e),
        }
    }

    /// Pointer token: `None` for the XT null pointer (id 1).
    pub fn pointer(&mut self) -> (r: Result<Option<i16>, XtError>)
        ensures
            final(self).moved(*old(self), read_pointer(old(self).data@, old(self).pos as int).1),
            agrees(r, read_pointer(old(self).data@, old(self).pos as int).0),
    {
        match self.i16_raw() {
            Ok(v) => Ok(
                if v == PTR_NULL {
                    None
                } else {
                    Some(v)
                },
            ),
            Err(e) => Err(e),
        }
    }

    /// `n` UTF-16 big-endian code units.
    pub fn utf16_be(&mut self, n: usize) -> (r: Result<String, XtError>)
        requires
            2 * n <= usize::MAX,
        ensures
            final(self).moved(
                *old(self),
                read_utf16(old(self).data@, old(self).pos as int, n as int).1,
            ),
            agrees(r, read_utf16(old(self).data@, old(self).pos as int, n as int).0),
    {
        let b = match self.take(n * 2) {
            Ok(b) => b,
            Err(e) => {
                return Err(e);
            },
        };
        let mut units: Vec<u16> = Vec::new();
        let mut i: usize = 0;
        while i < n
            invariant
                i <= n,
                b@.len() == 2 * n,
                2 * n <= usize::MAX,
                units@ == utf16_units(b@).take(i as int),
            decreases n - i,
        {
            units.push(b[2 * i] as u16 * 0x100 + b[2 * i + 1] as u16);
            i += 1;
            assert(units@ =~= utf16_units(b@).take(i as int));
        }
        assert(units@ =~= utf16_units(b@));
        match decode_utf16(&units) {
            Some(s) => Ok(s),
            None => Err(bad_utf16()),
        }
    }

    pub fn interval(&mut self) -> (r: Result<[u64; 2], XtError>)
        ensures
            final(self).moved(*old(self), read_reals(old(self).data@, old(self).pos as int, 2).1),
            agrees(r, read_reals(old(self).data@, old(self).pos as int, 2).0),
    {
        proof {
            reveal_with_fuel(read_reals, 3);
        }
        let a: u64 = match self.f64_nan() {
            Ok(a) => a,
            Err(e) => {
                return Err(e);
            },
        };
        let b: u64 = match self.f64_nan() {
            Ok(b) => b,
            Err(e) => {
                return Err(e);
            },
        };
        let out: [u64; 2] = [a, b];
        assert(out@ =~= Seq::<u64>::empty().push(a).push(b));
        Ok(out)
    }

    pub fn vector(&mut self) -> (r: Result<[u64; 3], XtError>)
        ensures
            final(self).moved(*old(self), read_reals(old(self).data@, old(self).pos as int, 3).1),
            agrees(r, read_reals(old(self).data@, old(self).pos as int, 3).0),
    {
        proof {
            reveal_with_fuel(read_reals, 4);
        }
        let a: u64 = match self.f64_nan() {
            Ok(a) => a,
            Err(e) => {
                return Err(e);
            },
        };
        let b: u64 = match self.f64_nan() {
            Ok(b) => b,
            Err(e) => {
                return Err(e);
            },
        };
        let c: u64 = match self.f64_nan() {
            Ok(c) => c,
            Err(e) => {
                return Err(e);
            },
        };
        let out: [u64; 3] = [a, b, c];
        assert(out@ =~= Seq::<u64>::empty().push(a).push(b).push(c));
        Ok(out)
    }

    pub fn box3(&mut self) -> (r: Result<[[u64; 2]; 3], XtError>)
        ensures
            final(self).moved(*old(self), read_box(old(self).data@, old(self).pos as int).1),
            match (r, read_box(old(self).data@, old(self).pos as int).0) {
                (Ok(a), Ok(b)) => seq![a@[0]@, a@[1]@, a@[2]@] == b,
                (Err(e), Err(f)) => e.0@ == f.text(),
                _ => false,
            },
    {
        let a: [u64; 2] = match self.interval() {
            Ok(a) => a,
            Err(e) => {
                return Err(e);
            },
        };
        let b: [u64; 2] = match self.interval() {
            Ok(b) => b,
            Err(e) => {
                return Err(e);
            },
        };
        let c: [u64; 2] = match self.interval() {
            Ok(c) => c,
            Err(e) => {
                return Err(e);
            },
        };
        Ok([a, b, c])
    }

    pub fn str_u8_len(&mut self) -> (r: Result<String, XtError>)
        ensures
            final(self).moved(*old(self), read_str_u8(old(self).data@, old(self).pos as int).1),
            agrees(r, read_str_u8(old(self).data@, old(self).pos as int).0),
    {
        match self.u8() {
            Ok(n) => self.char(n as usize),
            Err(e) => Err(e),
        }
    }

    pub fn str_i32_len(&mut self) -> (r: Result<String, XtError>)
        ensures
            final(self).moved(*old(self), read_str_i32(old(self).data@, old(self).pos as int).1),
            agrees(r, read_str_i32(old(self).data@, old(self).pos as int).0),
    {
        match self.i32() {
            Ok(n) => {
                if n < 0 {
                    Err(negative_length(n))
                } else {
                    self.char(n as usize)
                }
            },
            Err(e) => Err(e),
        }
    }
}

/// Three intervals.
pub open spec fn read_box(d: Seq<u8>, p: int) -> (Result<Seq<Seq<u64>>, Fault>, int) {
    match read_reals(d, p, 2) {
        (Ok(a), q) => match read_reals(d, q, 2) {
            (Ok(b), q2) => match read_reals(d, q2, 2) {
                (Ok(c), q3) => (Ok(seq![a, b, c]), q3),
                (Err(f), q3) => (Err(f), q3),
            },
            (Err(f), q2) => (Err(f), q2),
        },
        (Err(f), q) => (Err(f), q),
    }
}

/// A run of bytes that is not there leaves the reader where it was, one that
/// is there moves it on by its length and never past the end.
pub proof fn lemma_take_stays_inside(d: Seq<u8>, p: int, n: int)
    requires
        0 <= p <= d.len() <= usize::MAX,
        0 <= n,
    ensures
        taken(d, p, n).1 <= d.len(),
        taken(d, p, n).0 is Ok <==> p + n <= d.len(),
        taken(d, p, n).0 is Ok ==> taken(d, p, n).1 == p + n,
        taken(d, p, n).0 is Err ==> taken(d, p, n).1 == p,
{
}

} // verus!
