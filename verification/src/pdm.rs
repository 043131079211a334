//! Finding what changed in a PDM backup since a given time.
//!
//! Timestamps come from inside each file, not from the filesystem. Every
//! modern SLDPRT carries the standard OPC core properties:
//!
//! ```xml
//! <dc:lastModifiedBy>stric</dc:lastModifiedBy>
//! <dcterms:modified>2026-07-23T18:40:10Z</dcterms:modified>
//! ```
//!
//! Copying a backup around rewrites mtimes; this does not.

use vstd::prelude::*;

use crate::part::{has_extension, is_extension};
use crate::text::{
    chars_of, comes_before, ends_in, find_last_text, find_text, same_text, string_of,
};

verus! {

/// One revision of one part.
#[derive(Debug)]
pub struct Revision {
    pub path: String,
    /// Part name with the vault's id and version suffix removed, so revisions
    /// of the same part group together.
    pub key: String,
    /// The `_vN` suffix, when the export carries one.
    pub version: u32,
    /// `dcterms:modified`, an ISO-8601 UTC instant.
    pub modified: Option<String>,
    pub author: Option<String>,
}

/// A part that changed, and what to compare it against.
pub struct Changed {
    pub key: String,
    /// Newest revision at or after the cutoff.
    pub after: Revision,
    /// Newest revision from before the cutoff, if the part existed then.
    pub before: Option<Revision>,
}

/// The contents of an optional text.
pub open spec fn text_view(t: Option<String>) -> Option<Seq<char>> {
    match t {
        Some(s) => Some(s@),
        None => None,
    }
}

/// The contents of a revision.
#[verifier::ext_equal]
pub struct RevisionView {
    pub path: Seq<char>,
    pub key: Seq<char>,
    pub version: u32,
    pub modified: Option<Seq<char>>,
    pub author: Option<Seq<char>>,
}

impl View for Revision {
    type V = RevisionView;

    open spec fn view(&self) -> RevisionView {
        RevisionView {
            path: self.path@,
            key: self.key@,
            version: self.version,
            modified: text_view(self.modified),
            author: text_view(self.author),
        }
    }
}

/// The contents of each revision.
pub open spec fn revision_views(revs: Seq<Revision>) -> Seq<RevisionView> {
    revs.map_values(|r: Revision| r@)
}

/// Copy an optional text.
fn copy_text(t: &Option<String>) -> (r: Option<String>)
    ensures
        text_view(r) == text_view(*t),
{
    match t {
        Some(s) => Some(s.clone()),
        None => None,
    }
}

impl Clone for Revision {
    fn clone(&self) -> (r: Self)
        ensures
            r@ == self@,
    {
        Revision {
            path: self.path.clone(),
            key: self.key.clone(),
            version: self.version,
            modified: copy_text(&self.modified),
            author: copy_text(&self.author),
        }
    }
}

/// A hexadecimal digit.
pub open spec fn hex_char(c: char) -> bool {
    ('0' <= c && c <= '9') || ('a' <= c && c <= 'f') || ('A' <= c && c <= 'F')
}

/// A decimal digit.
pub open spec fn digit(c: char) -> bool {
    '0' <= c && c <= '9'
}

/// One or more hexadecimal digits.
pub open spec fn is_hex(s: Seq<char>) -> bool {
    s.len() > 0 && forall|i: int| 0 <= i < s.len() ==> hex_char(#[trigger] s[i])
}

/// One or more decimal digits.
pub open spec fn is_digits(s: Seq<char>) -> bool {
    s.len() > 0 && forall|i: int| 0 <= i < s.len() ==> digit(#[trigger] s[i])
}

/// The number that decimal digits spell.
pub open spec fn number_of(s: Seq<char>) -> nat
    decreases s.len(),
{
    if s.len() == 0 {
        0
    } else {
        number_of(s.drop_last()) * 10 + (s.last() as int - 48) as nat
    }
}

/// The version that digits name; 0 when it does not fit.
pub open spec fn version_of(s: Seq<char>) -> u32 {
    if number_of(s) <= u32::MAX {
        number_of(s) as u32
    } else {
        0
    }
}

/// A file's name without the `__<hex>_v<N>` suffix of a vault export, and the
/// version in that suffix; the whole name and 0 where there is no such suffix.
pub open spec fn key_and_version(stem: Seq<char>) -> (Seq<char>, u32) {
    let whole = (stem, 0u32);
    match crate::text::last_text(stem, "__"@, stem.len() as int) {
        None => whole,
        Some(cut) => {
            let tail = stem.skip(cut + 2);
            match crate::text::last_text(tail, "_v"@, tail.len() as int) {
                None => whole,
                Some(v) => if is_hex(tail.take(v)) && is_digits(tail.skip(v + 2)) {
                    (stem.take(cut), version_of(tail.skip(v + 2)))
                } else {
                    whole
                },
            }
        },
    }
}

/// True for one or more hexadecimal digits.
fn all_hex(s: &[char]) -> (r: bool)
    ensures
        r == is_hex(s@),
{
    let mut i: usize = 0;
    while i < s.len()
        invariant
            i <= s@.len(),
            forall|j: int| 0 <= j < i ==> hex_char(#[trigger] s@[j]),
        decreases s@.len() - i,
    {
        let c = s[i];
        if !(('0' <= c && c <= '9') || ('a' <= c && c <= 'f') || ('A' <= c && c <= 'F')) {
            assert(!hex_char(s@[i as int]));
            return false;
        }
        i += 1;
    }
    s.len() > 0
}

/// True for one or more decimal digits.
fn all_digits(s: &[char]) -> (r: bool)
    ensures
        r == is_digits(s@),
{
    let mut i: usize = 0;
    while i < s.len()
        invariant
            i <= s@.len(),
            forall|j: int| 0 <= j < i ==> digit(#[trigger] s@[j]),
        decreases s@.len() - i,
    {
        let c = s[i];
        if !('0' <= c && c <= '9') {
            assert(!digit(s@[i as int]));
            return false;
        }
        i += 1;
    }
    s.len() > 0
}

/// More digits never make a smaller number.
proof fn lemma_number_grows(s: Seq<char>, n: int)
    requires
        0 <= n <= s.len(),
    ensures
        number_of(s.take(n)) <= number_of(s),
    decreases s.len(),
{
    if n == s.len() {
        assert(s.take(n) =~= s);
    } else {
        lemma_number_grows(s.drop_last(), n);
        assert(s.drop_last().take(n) =~= s.take(n));
    }
}

/// The version that digits name.
fn read_version(s: &[char]) -> (r: u32)
    requires
        is_digits(s@),
    ensures
        r == version_of(s@),
{
    let mut v: u64 = 0;
    let mut i: usize = 0;
    while i < s.len()
        invariant
            i <= s@.len(),
            is_digits(s@),
            v == number_of(s@.take(i as int)),
            v <= u32::MAX,
        decreases s@.len() - i,
    {
        assert(digit(s@[i as int]));
        assert(s@.take(i + 1).drop_last() =~= s@.take(i as int));
        v = v * 10 + (s[i] as u32 - 48) as u64;
        i += 1;
        if v > 0xffffffff {
            proof {
                lemma_number_grows(s@, i as int);
            }
            return 0;
        }
    }
    assert(s@.take(i as int) =~= s@);
    v as u32
}

/// Strip a vault export's `__<hex>_v<N>` suffix.
///
/// `570112-99__00000371_v8.SLDPRT` names revision 8 of part `570112-99`. The
/// hex in the middle is the vault's own id and differs between revisions, so
/// it cannot be part of the key.
pub fn split_key(stem: &str) -> (r: (String, u32))
    ensures
        (r.0@, r.1) == key_and_version(stem@),
{
    proof {
        reveal_strlit("__");
        reveal_strlit("_v");
    }
    let s = chars_of(stem);
    let mark: [char; 2] = ['_', '_'];
    assert(mark@ =~= "__"@);
    if let Some(cut) = find_last_text(s.as_slice(), mark.as_slice()) {
        assert(cut + 2 <= s.len());
        let tail = vstd::slice::slice_subrange(s.as_slice(), cut + 2, s.len());
        assert(tail@ =~= stem@.skip(cut + 2));
        let ver: [char; 2] = ['_', 'v'];
        assert(ver@ =~= "_v"@);
        if let Some(v) = find_last_text(tail, ver.as_slice()) {
            let hex = vstd::slice::slice_subrange(tail, 0, v);
            assert(hex@ =~= tail@.take(v as int));
            let digits = vstd::slice::slice_subrange(tail, v + 2, tail.len());
            assert(digits@ =~= tail@.skip(v + 2));
            if all_hex(hex) && all_digits(digits) {
                let head = vstd::slice::slice_subrange(s.as_slice(), 0, cut);
                assert(head@ =~= stem@.take(cut as int));
                return (string_of(head), read_version(digits));
            }
        }
    }
    (stem.to_owned(), 0)
}

/// The text between `<tag>` and the next `<`.
pub open spec fn element(text: Seq<char>, tag: Seq<char>) -> Option<Seq<char>> {
    let open_tag = seq!['<'] + tag + seq!['>'];
    match crate::text::first_text(text, open_tag, 0) {
        None => None,
        Some(i) => {
            let start = i + open_tag.len();
            match crate::text::first_text(text, seq!['<'], start) {
                None => None,
                Some(j) => Some(text.subrange(start, j)),
            }
        },
    }
}

/// The text between `<tag>` and the next `<`.
fn find_element(text: &Vec<char>, tag: &str) -> (r: Option<String>)
    ensures
        text_view(r) == element(text@, tag@),
{
    let mut open_tag: Vec<char> = Vec::new();
    open_tag.push('<');
    let mut name = chars_of(tag);
    open_tag.append(&mut name);
    open_tag.push('>');
    assert(open_tag@ =~= seq!['<'] + tag@ + seq!['>']);
    match find_text(text.as_slice(), open_tag.as_slice(), 0) {
        None => None,
        Some(i) => {
            assert(i + open_tag@.len() <= text.len());
            let start: usize = i + open_tag.len();
            let close: [char; 1] = ['<'];
            assert(close@ =~= seq!['<']);
            match find_text(text.as_slice(), close.as_slice(), start) {
                None => None,
                Some(j) => Some(
                    string_of(vstd::slice::slice_subrange(text.as_slice(), start, j)),
                ),
            }
        },
    }
}

/// `dcterms:modified` and `dc:lastModifiedBy` in the text of a core properties
/// stream.
pub fn core_props_in(text: &str) -> (r: (Option<String>, Option<String>))
    ensures
        text_view(r.0) == element(text@, "dcterms:modified"@),
        text_view(r.1) == element(text@, "dc:lastModifiedBy"@),
{
    let chars = chars_of(text);
    (find_element(&chars, "dcterms:modified"), find_element(&chars, "dc:lastModifiedBy"))
}

/// The text that bytes stand for when what is not UTF-8 in them is replaced.
pub uninterp spec fn lossy_text(bytes: Seq<u8>) -> Seq<char>;

/// `String::from_utf8_lossy`: valid UTF-8 gives its text. What it puts in the
/// place of bytes that are not valid is not said here, only that it depends on
/// the bytes alone.
#[verifier::external_body]
fn from_utf8_lossy(bytes: &[u8]) -> (r: String)
    ensures
        r@ == lossy_text(bytes@),
        vstd::utf8::valid_utf8(bytes@) ==> r@ == vstd::utf8::decode_utf8(bytes@),
{
    String::from_utf8_lossy(bytes).into_owned()
}

/// The first stream from `from` on that holds core properties.
pub open spec fn core_stream(streams: Seq<crate::container::StreamView>, from: int) -> Option<int>
    decreases streams.len() - from,
{
    if !(0 <= from < streams.len()) {
        None
    } else if crate::text::has_tail(streams[from].name, "docProps/core.xml"@) {
        Some(from)
    } else {
        core_stream(streams, from + 1)
    }
}

/// The text of a part's core properties.
pub open spec fn core_text(data: Seq<u8>) -> Option<Seq<char>> {
    let streams = crate::container::streams_of(
        crate::container::chunks_from(data, data[7], 0),
    );
    if !crate::container::modern(data) {
        None
    } else {
        match core_stream(streams, 0) {
            Some(i) => Some(lossy_text(streams[i].data)),
            None => None,
        }
    }
}

/// When a part was modified and by whom, by its core properties.
pub open spec fn core_props(data: Seq<u8>) -> (Option<Seq<char>>, Option<Seq<char>>) {
    match core_text(data) {
        Some(text) => (
            element(text, "dcterms:modified"@),
            element(text, "dc:lastModifiedBy"@),
        ),
        None => (None, None),
    }
}

/// Read `dcterms:modified` and `dc:lastModifiedBy` out of a part's bytes.
pub fn read_core_props(data: &[u8]) -> (r: (Option<String>, Option<String>))
    ensures
        (text_view(r.0), text_view(r.1)) == core_props(data@),
{
    let file = match crate::container::parse(data) {
        Ok(f) => f,
        Err(_) => {
            return (None, None);
        },
    };
    let streams = file.streams();
    let ghost views = crate::container::stream_views(streams@);
    let mut i: usize = 0;
    while i < streams.len()
        invariant
            i <= streams@.len(),
            crate::container::modern(data@),
            views == crate::container::stream_views(streams@),
            views == crate::container::streams_of(
                crate::container::chunks_from(data@, data@[7], 0),
            ),
            core_stream(views, 0) == core_stream(views, i as int),
        decreases streams@.len() - i,
    {
        assert(views[i as int] == streams@[i as int]@);
        if ends_in(streams[i].name.as_str(), "docProps/core.xml") {
            let text = from_utf8_lossy(streams[i].data.as_slice());
            return core_props_in(text.as_str());
        }
        i += 1;
    }
    (None, None)
}

/// A file with this extension is a part.
pub open spec fn part_file(ext: Seq<char>) -> bool {
    is_extension(ext, "sldprt"@)
}

/// Is a file with this extension a part?
pub fn is_part_file(ext: &str) -> (r: bool)
    ensures
        r == part_file(ext@),
{
    has_extension(ext, "sldprt")
}

/// The revision that a file is, by its path, its name without extension, and
/// its bytes where they can be read.
pub open spec fn revision_of(
    path: Seq<char>,
    stem: Seq<char>,
    data: Option<Seq<u8>>,
) -> RevisionView {
    let props = match data {
        Some(d) => core_props(d),
        None => (None, None),
    };
    RevisionView {
        path,
        key: key_and_version(stem).0,
        version: key_and_version(stem).1,
        modified: props.0,
        author: props.1,
    }
}

/// The revision that a file is.
pub fn revision(path: String, stem: &str, data: Option<&[u8]>) -> (r: Revision)
    ensures
        r@ == revision_of(
            path@,
            stem@,
            match data {
                Some(d) => Some(d@),
                None => None,
            },
        ),
{
    let (key, version) = split_key(stem);
    let (modified, author) = match data {
        Some(d) => read_core_props(d),
        None => (None, None),
    };
    Revision { path, key, version, modified, author }
}

/// `a` is older than `b`: an earlier date, no date being the earliest, or the
/// same date and a lower version.
pub open spec fn older(a: RevisionView, b: RevisionView) -> bool {
    match (a.modified, b.modified) {
        (None, Some(_)) => true,
        (Some(_), None) => false,
        (None, None) => a.version < b.version,
        (Some(x), Some(y)) => crate::text::text_less(x, y) || (x == y && a.version < b.version),
    }
}

/// A revision of the part `key`; with a limit, one that is dated before it.
pub open spec fn eligible(r: RevisionView, key: Seq<char>, limit: Option<Seq<char>>) -> bool {
    r.key == key && match limit {
        None => true,
        Some(t) => r.modified is Some && crate::text::text_less(r.modified->0, t),
    }
}

/// The newest of the eligible revisions, the last one listed of several that
/// are equally new.
pub open spec fn newest(
    revs: Seq<RevisionView>,
    key: Seq<char>,
    limit: Option<Seq<char>>,
) -> Option<RevisionView>
    decreases revs.len(),
{
    if revs.len() == 0 {
        None
    } else {
        let best = newest(revs.drop_last(), key, limit);
        let r = revs.last();
        if eligible(r, key, limit) && !(best is Some && older(r, best->0)) {
            Some(r)
        } else {
            best
        }
    }
}

/// The part has changed: its newest revision is dated at or after `since`.
pub open spec fn has_changed(revs: Seq<RevisionView>, key: Seq<char>, since: Seq<char>) -> bool {
    match newest(revs, key, None) {
        Some(r) => match r.modified {
            Some(stamp) => !crate::text::text_less(stamp, since),
            None => false,
        },
        None => false,
    }
}

/// `c` tells the newest revision of its part, and the newest one from before
/// `since`.
pub open spec fn tells(c: Changed, revs: Seq<RevisionView>, since: Seq<char>) -> bool {
    &&& newest(revs, c.key@, None) == Some(c.after@)
    &&& match c.before {
        Some(b) => newest(revs, c.key@, Some(since)) == Some(b@),
        None => newest(revs, c.key@, Some(since)) is None,
    }
}

/// The keys of the parts that changed.
pub open spec fn changed_keys(changes: Seq<Changed>) -> Seq<Seq<char>> {
    changes.map_values(|c: Changed| c.key@)
}

/// True when `a` is older than `b`.
fn is_older(a: &Revision, b: &Revision) -> (r: bool)
    ensures
        r == older(a@, b@),
{
    match (&a.modified, &b.modified) {
        (None, Some(_)) => true,
        (Some(_), None) => false,
        (None, None) => a.version < b.version,
        (Some(x), Some(y)) => {
            if comes_before(x.as_str(), y.as_str()) {
                true
            } else {
                same_text(x.as_str(), y.as_str()) && a.version < b.version
            }
        },
    }
}

/// True for a revision of the part that is dated before the limit, if any.
fn is_eligible(r: &Revision, key: &str, limit: Option<&str>) -> (e: bool)
    ensures
        e == eligible(
            r@,
            key@,
            match limit {
                Some(t) => Some(t@),
                None => None,
            },
        ),
{
    if !same_text(r.key.as_str(), key) {
        return false;
    }
    match limit {
        None => true,
        Some(t) => match &r.modified {
            Some(m) => comes_before(m.as_str(), t),
            None => false,
        },
    }
}

/// The index of the newest eligible revision.
fn find_newest(revs: &[Revision], key: &str, limit: Option<&str>) -> (r: Option<usize>)
    ensures
        ({
            let lim = match limit {
                Some(t) => Some(t@),
                None => None,
            };
            match r {
                Some(i) => i < revs@.len() && newest(revision_views(revs@), key@, lim) == Some(
                    revs@[i as int]@,
                ),
                None => newest(revision_views(revs@), key@, lim) is None,
            }
        }),
{
    let ghost views = revision_views(revs@);
    let ghost lim: Option<Seq<char>> = match limit {
        Some(t) => Some(t@),
        None => None,
    };
    let mut best: Option<usize> = None;
    let mut i: usize = 0;
    while i < revs.len()
        invariant
            i <= revs@.len(),
            views == revision_views(revs@),
            lim == match limit {
                Some(t) => Some(t@),
                None => None,
            },
            match best {
                Some(b) => b < i && newest(views.take(i as int), key@, lim) == Some(
                    revs@[b as int]@,
                ),
                None => newest(views.take(i as int), key@, lim) is None,
            },
        decreases revs@.len() - i,
    {
        assert(views.take(i + 1).drop_last() =~= views.take(i as int));
        assert(views.take(i + 1).last() == revs@[i as int]@);
        if is_eligible(&revs[i], key, limit) {
            let better = match best {
                Some(b) => !is_older(&revs[i], &revs[b]),
                None => true,
            };
            if better {
                best = Some(i);
            }
        }
        i += 1;
    }
    assert(views.take(i as int) =~= views);
    best
}

/// The contents of each text.
pub open spec fn texts(keys: Seq<String>) -> Seq<Seq<char>> {
    keys.map_values(|k: String| k@)
}

/// Each text comes before all that follow it.
pub open spec fn in_order(keys: Seq<Seq<char>>) -> bool {
    forall|i: int, j: int|
        0 <= i < j < keys.len() ==> crate::text::text_less(#[trigger] keys[i], #[trigger] keys[j])
}

/// Add a key to a list in order, unless it is there.
fn add_key(keys: &mut Vec<String>, key: &str)
    requires
        in_order(texts(old(keys)@)),
    ensures
        in_order(texts(final(keys)@)),
        forall|k: Seq<char>| #[trigger]
            texts(final(keys)@).contains(k) <==> texts(old(keys)@).contains(k) || k == key@,
{
    let ghost all = texts(keys@);
    let mut i: usize = 0;
    while i < keys.len() && comes_before(keys[i].as_str(), key)
        invariant
            i <= keys@.len(),
            all == texts(keys@),
            forall|j: int| 0 <= j < i ==> crate::text::text_less(#[trigger] all[j], key@),
        decreases keys@.len() - i,
    {
        assert(all[i as int] == keys@[i as int]@);
        i += 1;
    }
    if i < keys.len() {
        assert(all[i as int] == keys@[i as int]@);
        if same_text(keys[i].as_str(), key) {
            assert(all.contains(key@));
            return;
        }
    }
    keys.insert(i, key.to_owned());
    proof {
        let now = texts(keys@);
        assert(now =~= all.insert(i as int, key@));
        if i < all.len() {
            crate::text::lemma_text_order_total(all[i as int], key@);
        }
        assert forall|a: int, b: int| 0 <= a < b < now.len() implies crate::text::text_less(
            #[trigger] now[a],
            #[trigger] now[b],
        ) by {
            if b > i {
                assert(now[b] == all[b - 1]);
                if a > i {
                    assert(now[a] == all[a - 1]);
                } else if a == i {
                    if b - 1 > i {
                        crate::text::lemma_text_order_transitive(key@, all[i as int], all[b - 1]);
                    }
                } else {
                    assert(now[a] == all[a]);
                }
            } else {
                assert(now[a] == all[a]);
                if b < i {
                    assert(now[b] == all[b]);
                }
            }
        }
        assert forall|k: Seq<char>| #[trigger] now.contains(k) <==> all.contains(k) || k
            == key@ by {
            if all.contains(k) {
                let j = choose|j: int| 0 <= j < all.len() && all[j] == k;
                if j < i {
                    assert(now[j] == k);
                } else {
                    assert(now[j + 1] == k);
                }
            }
            if k == key@ {
                assert(now[i as int] == k);
            }
            if now.contains(k) {
                let j = choose|j: int| 0 <= j < now.len() && now[j] == k;
                if j < i {
                    assert(all[j] == k);
                } else if j > i {
                    assert(all[j - 1] == k);
                }
            }
        }
    }
}

/// A part with a newest revision is the part of one of the revisions.
proof fn lemma_newest_has_key(
    revs: Seq<RevisionView>,
    key: Seq<char>,
    limit: Option<Seq<char>>,
)
    ensures
        newest(revs, key, limit) matches Some(r) ==> eligible(r, key, limit) && revs.contains(r),
    decreases revs.len(),
{
    if revs.len() > 0 {
        lemma_newest_has_key(revs.drop_last(), key, limit);
        if let Some(r) = newest(revs, key, limit) {
            if newest(revs.drop_last(), key, limit) == Some(r) && revs.drop_last().contains(r) {
                let j = choose|j: int| 0 <= j < revs.len() - 1 && revs.drop_last()[j] == r;
                assert(revs[j] == r);
            } else {
                assert(revs[revs.len() - 1] == r);
            }
        }
    }
}

/// Every part of the revisions has a newest revision, and no eligible one is
/// newer than it.
pub proof fn lemma_none_is_newer(
    revs: Seq<RevisionView>,
    key: Seq<char>,
    limit: Option<Seq<char>>,
    i: int,
)
    requires
        0 <= i < revs.len(),
        eligible(revs[i], key, limit),
    ensures
        newest(revs, key, limit) is Some,
        !older(newest(revs, key, limit)->0, revs[i]),
    decreases revs.len(),
{
    let best = newest(revs.drop_last(), key, limit);
    let r = revs.last();
    if i < revs.len() - 1 {
        lemma_none_is_newer(revs.drop_last(), key, limit, i);
        if newest(revs, key, limit) == Some(r) && older(r, revs[i]) {
            lemma_older_transitive(best->0, r, revs[i]);
        }
    } else {
        lemma_older_irreflexive(r);
        if best is Some && older(r, best->0) {
            lemma_older_asymmetric(r, best->0);
        }
    }
}

/// No revision is older than itself.
proof fn lemma_older_irreflexive(a: RevisionView)
    ensures
        !older(a, a),
{
    if let Some(x) = a.modified {
        crate::text::lemma_text_order_total(x, x);
    }
}

/// Two revisions are not each older than the other.
proof fn lemma_older_asymmetric(a: RevisionView, b: RevisionView)
    requires
        older(a, b),
    ensures
        !older(b, a),
{
    if let (Some(x), Some(y)) = (a.modified, b.modified) {
        crate::text::lemma_text_order_total(x, y);
    }
}

/// Where `best` is no newer than `r`, and `r` is older than `c`, so is `best`.
proof fn lemma_older_transitive(best: RevisionView, r: RevisionView, c: RevisionView)
    requires
        !older(r, best),
        older(r, c),
    ensures
        older(best, c),
{
    if let (Some(x), Some(y)) = (best.modified, r.modified) {
        crate::text::lemma_text_order_total(x, y);
        if let Some(z) = c.modified {
            crate::text::lemma_text_order_total(y, z);
            crate::text::lemma_text_order_total(x, z);
            if crate::text::text_less(x, y) && crate::text::text_less(y, z) {
                crate::text::lemma_text_order_transitive(x, y, z);
            }
        }
    }
}

/// Parts whose newest revision is at or after `since`.
///
/// `since` is compared against the ISO-8601 instant as text. That sorts
/// correctly for UTC timestamps in this format and means a bare `2026-06-01`
/// works as a prefix, with no date library and no timezone guessing.
///
/// Revisions are ordered by timestamp, falling back to the `_vN` suffix where
/// a file carries no date -- which is the pre-2015 files, and they cannot be
/// rendered anyway. The parts come in the order of their keys.
pub fn changes_since(revs: &[Revision], since: &str) -> (r: Vec<Changed>)
    ensures
        in_order(changed_keys(r@)),
        forall|key: Seq<char>| #[trigger]
            changed_keys(r@).contains(key) <==> has_changed(
                revision_views(revs@),
                key,
                since@,
            ),
        forall|i: int|
            0 <= i < r@.len() ==> tells(#[trigger] r@[i], revision_views(revs@), since@),
{
    let ghost views = revision_views(revs@);
    let mut keys: Vec<String> = Vec::new();
    let mut i: usize = 0;
    while i < revs.len()
        invariant
            i <= revs@.len(),
            views == revision_views(revs@),
            in_order(texts(keys@)),
            forall|j: int| 0 <= j < i ==> texts(keys@).contains((#[trigger] views[j]).key),
        decreases revs@.len() - i,
    {
        add_key(&mut keys, revs[i].key.as_str());
        assert(views[i as int].key == revs@[i as int].key@);
        i += 1;
    }
    let mut out: Vec<Changed> = Vec::new();
    let ghost names = texts(keys@);
    let mut k: usize = 0;
    assert(changed_keys(out@) =~= Seq::<Seq<char>>::empty());
    while k < keys.len()
        invariant
            k <= keys@.len(),
            views == revision_views(revs@),
            names == texts(keys@),
            changed_keys(out@) == kept(names.take(k as int), views, since@),
            forall|a: int| 0 <= a < out@.len() ==> tells(#[trigger] out@[a], views, since@),
        decreases keys@.len() - k,
    {
        assert(names.take(k + 1).drop_last() =~= names.take(k as int));
        assert(names.take(k + 1).last() == keys@[k as int]@);
        if let Some(c) = change_of(revs, keys[k].as_str(), since) {
            let ghost before = out@;
            out.push(c);
            assert(changed_keys(out@) =~= changed_keys(before).push(c.key@));
        }
        k += 1;
    }
    assert(names.take(k as int) =~= names);
    proof {
        lemma_kept(names, views, since@);
        assert forall|key: Seq<char>| has_changed(views, key, since@) implies names.contains(
            key,
        ) by {
            lemma_newest_has_key(views, key, None);
            let r = newest(views, key, None)->0;
            let j = choose|j: int| 0 <= j < views.len() && views[j] == r;
            assert(names.contains(views[j].key));
        }
    }
    out
}

/// The keys of the parts that have changed.
pub open spec fn kept(
    names: Seq<Seq<char>>,
    revs: Seq<RevisionView>,
    since: Seq<char>,
) -> Seq<Seq<char>>
    decreases names.len(),
{
    if names.len() == 0 {
        Seq::empty()
    } else {
        let before = kept(names.drop_last(), revs, since);
        if has_changed(revs, names.last(), since) {
            before.push(names.last())
        } else {
            before
        }
    }
}

/// Leaving keys out keeps the others and their order.
proof fn lemma_kept(names: Seq<Seq<char>>, revs: Seq<RevisionView>, since: Seq<char>)
    requires
        in_order(names),
    ensures
        in_order(kept(names, revs, since)),
        forall|key: Seq<char>| #[trigger]
            kept(names, revs, since).contains(key) <==> names.contains(key) && has_changed(
                revs,
                key,
                since,
            ),
    decreases names.len(),
{
    if names.len() > 0 {
        let before = kept(names.drop_last(), revs, since);
        let all = kept(names, revs, since);
        let last = names.last();
        assert forall|i: int, j: int|
            0 <= i < j < names.drop_last().len() implies crate::text::text_less(
            #[trigger] names.drop_last()[i],
            #[trigger] names.drop_last()[j],
        ) by {
            assert(crate::text::text_less(names[i], names[j]));
        }
        lemma_kept(names.drop_last(), revs, since);
        assert forall|key: Seq<char>| #[trigger] all.contains(key) <==> names.contains(key)
            && has_changed(revs, key, since) by {
            if names.contains(key) && has_changed(revs, key, since) {
                let i = choose|i: int| 0 <= i < names.len() && names[i] == key;
                if i < names.len() - 1 {
                    assert(names.drop_last()[i] == key);
                    assert(before.contains(key));
                    let j = choose|j: int| 0 <= j < before.len() && before[j] == key;
                    assert(all[j] == key);
                } else {
                    assert(all[before.len() as int] == key);
                }
            }
            if all.contains(key) {
                let j = choose|j: int| 0 <= j < all.len() && all[j] == key;
                if j < before.len() {
                    assert(before[j] == key);
                    assert(before.contains(key));
                    let i = choose|i: int|
                        0 <= i < names.drop_last().len() && names.drop_last()[i] == key;
                    assert(names[i] == key);
                } else {
                    assert(names[names.len() - 1] == key);
                }
            }
        }
        assert forall|i: int, j: int| 0 <= i < j < all.len() implies crate::text::text_less(
            #[trigger] all[i],
            #[trigger] all[j],
        ) by {
            assert(all[i] == before[i]);
            if j < before.len() {
                assert(all[j] == before[j]);
            } else {
                assert(before.contains(all[i]));
                let w = choose|w: int|
                    0 <= w < names.drop_last().len() && names.drop_last()[w] == all[i];
                assert(crate::text::text_less(names[w], names[names.len() - 1]));
            }
        }
    }
}

/// What changed about one part, if it has changed.
fn change_of(revs: &[Revision], key: &str, since: &str) -> (r: Option<Changed>)
    ensures
        match r {
            Some(c) => has_changed(revision_views(revs@), key@, since@) && c.key@ == key@ && tells(
                c,
                revision_views(revs@),
                since@,
            ),
            None => !has_changed(revision_views(revs@), key@, since@),
        },
{
    let n: usize = match find_newest(revs, key, None) {
        Some(n) => n,
        None => {
            return None;
        },
    };
    match &revs[n].modified {
        // Undateable: cannot say whether it changed.
        None => None,
        Some(stamp) => {
            if comes_before(stamp.as_str(), since) {
                return None;
            }
            let before = match find_newest(revs, key, Some(since)) {
                Some(b) => Some(revs[b].clone()),
                None => None,
            };
            Some(Changed { key: key.to_owned(), after: revs[n].clone(), before })
        },
    }
}

} // verus!
