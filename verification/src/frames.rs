//! Judging rendered frames: which part each frame shows, and the verdicts
//! given on the parts.
//!
//! Verdicts are kept by part name, one each. A flag of "bad" rings the bell for
//! triage; a later "ok" retracts it.

use vstd::prelude::*;

use crate::text::{chars_of, comes_before, same_text, string_of, text_less};

verus! {

/// A frame to be judged.
pub struct Item {
    /// Part name recovered from the cache filename (`NAME.<mtime>.<px>.png`).
    pub name: String,
    pub file: String,
}

/// The contents of a frame.
#[verifier::ext_equal]
pub struct ItemView {
    pub name: Seq<char>,
    pub file: Seq<char>,
}

impl View for Item {
    type V = ItemView;

    open spec fn view(&self) -> ItemView {
        ItemView { name: self.name@, file: self.file@ }
    }
}

/// The contents of each frame.
pub open spec fn item_views(items: Seq<Item>) -> Seq<ItemView> {
    items.map_values(|i: Item| i@)
}

/// What was said of a part, and when.
pub struct Verdict {
    /// "ok" or "bad".
    pub status: String,
    pub note: String,
    pub at: u64,
}

/// The contents of a verdict.
#[verifier::ext_equal]
pub struct VerdictView {
    pub status: Seq<char>,
    pub note: Seq<char>,
    pub at: u64,
}

impl View for Verdict {
    type V = VerdictView;

    open spec fn view(&self) -> VerdictView {
        VerdictView { status: self.status@, note: self.note@, at: self.at }
    }
}

/// A verdict on the frame at place `i`, as it comes in.
pub struct VerdictReq {
    pub i: usize,
    pub status: String,
    pub note: String,
    pub at: u64,
}

/// The contents of such a request.
#[verifier::ext_equal]
pub struct RequestView {
    pub i: usize,
    pub verdict: VerdictView,
}

impl View for VerdictReq {
    type V = RequestView;

    open spec fn view(&self) -> RequestView {
        RequestView {
            i: self.i,
            verdict: VerdictView { status: self.status@, note: self.note@, at: self.at },
        }
    }
}

/// The contents of each request.
pub open spec fn request_views(reqs: Seq<VerdictReq>) -> Seq<RequestView> {
    reqs.map_values(|r: VerdictReq| r@)
}

/// Why a request is turned down.
#[derive(Debug, Clone, Copy, PartialEq, Eq, Structural)]
pub enum Refusal {
    /// The status is neither "ok" nor "bad".
    BadRequest,
    /// There is no such frame.
    NotFound,
}

/// How many parts have a verdict, and how many of those are bad.
#[derive(Debug, Clone, Copy, PartialEq, Eq, Structural)]
pub struct Tally {
    pub done: usize,
    pub bad: usize,
}

// ---- names ----

/// A decimal digit.
pub open spec fn ascii_digit(c: char) -> bool {
    '0' <= c && c <= '9'
}

/// All of a text is decimal digits.
pub open spec fn all_digits(s: Seq<char>) -> bool {
    forall|i: int| 0 <= i < s.len() ==> ascii_digit(#[trigger] s[i])
}

/// The place of the last dot among the first `n` characters.
pub open spec fn last_dot(s: Seq<char>, n: int) -> Option<int>
    decreases n,
{
    if n <= 0 {
        None
    } else if s[n - 1] == '.' {
        Some(n - 1)
    } else {
        last_dot(s, n - 1)
    }
}

proof fn lemma_last_dot(s: Seq<char>, n: int)
    requires
        n <= s.len(),
    ensures
        last_dot(s, n) matches Some(k) ==> 0 <= k < n && s[k] == '.',
    decreases n,
{
    if n > 0 {
        lemma_last_dot(s, n - 1);
    }
}

/// A file name without the trailing segments that are all digits, of which the
/// first segment is never one.
pub open spec fn bare_name(stem: Seq<char>) -> Seq<char>
    decreases stem.len(),
{
    match last_dot(stem, stem.len() as int) {
        Some(k) => if 0 <= k < stem.len() && all_digits(stem.skip(k + 1)) {
            bare_name(stem.take(k))
        } else {
            stem
        },
        None => stem,
    }
}

/// `Foo_Bar.1784948667.900` -> `Foo_Bar` (trailing all-numeric segments are
/// the render cache's mtime/size key, not part of the name).
pub fn part_name(stem: &str) -> (r: String)
    ensures
        r@ == bare_name(stem@),
{
    let mut name: Vec<char> = chars_of(stem);
    loop
        invariant
            bare_name(name@) == bare_name(stem@),
        decreases name@.len(),
    {
        let ghost whole = name@;
        let mut k: usize = name.len();
        let mut digits: bool = true;
        while k > 0 && name[k - 1] != '.'
            invariant
                k <= name@.len(),
                last_dot(name@, name@.len() as int) == last_dot(name@, k as int),
                digits == all_digits(name@.skip(k as int)),
            decreases k,
        {
            let c: char = name[k - 1];
            proof {
                let now = name@.skip(k - 1);
                let was = name@.skip(k as int);
                assert(now =~= seq![c] + was);
                if ascii_digit(c) && all_digits(was) {
                    assert forall|i: int| 0 <= i < now.len() implies ascii_digit(
                        #[trigger] now[i],
                    ) by {
                        if i > 0 {
                            assert(now[i] == was[i - 1]);
                        }
                    }
                }
                if all_digits(now) {
                    assert(ascii_digit(now[0]));
                    assert forall|i: int| 0 <= i < was.len() implies ascii_digit(
                        #[trigger] was[i],
                    ) by {
                        assert(now[i + 1] == was[i]);
                    }
                }
            }
            digits = digits && '0' <= c && c <= '9';
            k -= 1;
        }
        if k == 0 || !digits {
            return string_of(name.as_slice());
        }
        name.truncate(k - 1);
        assert(name@ =~= whole.take(k - 1));
    }
}

/// A name is its own bare name: what is taken off once leaves nothing more to
/// take off.
pub proof fn lemma_bare_names_stay(stem: Seq<char>)
    ensures
        bare_name(bare_name(stem)) == bare_name(stem),
    decreases stem.len(),
{
    lemma_last_dot(stem, stem.len() as int);
    match last_dot(stem, stem.len() as int) {
        Some(k) => {
            if all_digits(stem.skip(k + 1)) {
                lemma_bare_names_stay(stem.take(k));
            }
        },
        None => {},
    }
}

/// The cache key that is appended to a name, digits behind a dot, is taken off
/// again.
pub proof fn lemma_cache_keys_are_taken_off(name: Seq<char>, key: Seq<char>)
    requires
        all_digits(key),
    ensures
        bare_name(name.push('.') + key) == bare_name(name),
{
    let stem = name.push('.') + key;
    lemma_dot_before(stem, name.len() as int, stem.len() as int);
    assert(stem.skip(name.len() as int + 1) =~= key);
    assert(stem.take(name.len() as int) =~= name);
}

proof fn lemma_dot_before(s: Seq<char>, k: int, n: int)
    requires
        0 <= k < n <= s.len(),
        s[k] == '.',
        forall|i: int| k < i < n ==> #[trigger] s[i] != '.',
    ensures
        last_dot(s, n) == Some(k),
    decreases n,
{
    if n - 1 > k {
        assert(s[n - 1] != '.');
        lemma_dot_before(s, k, n - 1);
    }
}

// ---- the order of frames ----

/// Where a frame goes among ordered ones: behind all that it does not come
/// before, looking from `from` on.
pub open spec fn place_of(sorted: Seq<ItemView>, name: Seq<char>, from: int) -> int
    decreases sorted.len() - from,
{
    if 0 <= from < sorted.len() && !text_less(name, sorted[from].name) {
        place_of(sorted, name, from + 1)
    } else {
        from
    }
}

/// Frames by name, those of one name in their order.
pub open spec fn by_name(items: Seq<ItemView>) -> Seq<ItemView>
    decreases items.len(),
{
    if items.len() == 0 {
        Seq::empty()
    } else {
        let before = by_name(items.drop_last());
        before.insert(place_of(before, items.last().name, 0), items.last())
    }
}

proof fn lemma_place_of(sorted: Seq<ItemView>, name: Seq<char>, from: int)
    requires
        0 <= from <= sorted.len(),
    ensures
        from <= place_of(sorted, name, from) <= sorted.len(),
        forall|i: int|
            from <= i < place_of(sorted, name, from) ==> !text_less(
                name,
                (#[trigger] sorted[i]).name,
            ),
        place_of(sorted, name, from) < sorted.len() ==> text_less(
            name,
            sorted[place_of(sorted, name, from)].name,
        ),
    decreases sorted.len() - from,
{
    if from < sorted.len() && !text_less(name, sorted[from].name) {
        lemma_place_of(sorted, name, from + 1);
    }
}

/// Ordering keeps every frame and puts none before one whose name comes first.
pub proof fn lemma_frames_in_order(items: Seq<ItemView>)
    ensures
        by_name(items).len() == items.len(),
        by_name(items).to_multiset() == items.to_multiset(),
        forall|i: int, j: int|
            0 <= i < j < by_name(items).len() ==> !text_less(
                (#[trigger] by_name(items)[j]).name,
                (#[trigger] by_name(items)[i]).name,
            ),
    decreases items.len(),
{
    if items.len() == 0 {
        assert(by_name(items) =~= items);
    } else {
        let before = by_name(items.drop_last());
        let b = items.last();
        let k = place_of(before, b.name, 0);
        lemma_frames_in_order(items.drop_last());
        lemma_place_of(before, b.name, 0);
        before.insert_ensures(k, b);
        broadcast use vstd::seq_lib::group_to_multiset_ensures;

        assert(items =~= items.drop_last().push(b));
        assert(before =~= before.take(k) + before.skip(k));
        assert(before.insert(k, b) =~= before.take(k).push(b) + before.skip(k));
        vstd::seq_lib::lemma_multiset_commutative(before.take(k), before.skip(k));
        vstd::seq_lib::lemma_multiset_commutative(before.take(k).push(b), before.skip(k));
        assert(before.insert(k, b).to_multiset() =~= before.to_multiset().insert(b));
        let all = by_name(items);
        assert forall|i: int, j: int| 0 <= i < j < all.len() implies !text_less(
            (#[trigger] all[j]).name,
            (#[trigger] all[i]).name,
        ) by {
            if j < k {
                assert(all[i] == before[i] && all[j] == before[j]);
            } else if j == k {
                assert(all[i] == before[i]);
            } else if i > k {
                assert(all[i] == before[i - 1] && all[j] == before[j - 1]);
            } else {
                assert(all[j] == before[j - 1]);
                crate::text::lemma_text_order_total(b.name, before[k].name);
                if i < k {
                    assert(all[i] == before[i]);
                } else if j - 1 > k {
                    crate::text::lemma_text_order_total(before[k].name, before[j - 1].name);
                    if text_less(before[j - 1].name, b.name) {
                        crate::text::lemma_text_order_transitive(
                            before[j - 1].name,
                            b.name,
                            before[k].name,
                        );
                    }
                }
            }
        }
    }
}

/// Put frames in the order of their names.
pub fn sort_items(items: Vec<Item>) -> (r: Vec<Item>)
    ensures
        item_views(r@) == by_name(item_views(items@)),
{
    let ghost all = items@;
    let ghost views = item_views(all);
    let mut out: Vec<Item> = Vec::new();
    assert(item_views(out@) =~= Seq::<ItemView>::empty());
    for b in it: items.into_iter()
        invariant
            it.seq() == all,
            views == item_views(all),
            item_views(out@) == by_name(views.take(it.index() as int)),
    {
        let ghost i = it.index() as int;
        let ghost bv = b@;
        let mut k: usize = 0;
        while k < out.len() && !comes_before(b.name.as_str(), out[k].name.as_str())
            invariant
                k <= out@.len(),
                bv == b@,
                place_of(item_views(out@), bv.name, 0) == place_of(
                    item_views(out@),
                    bv.name,
                    k as int,
                ),
            decreases out@.len() - k,
        {
            assert(item_views(out@)[k as int] == out@[k as int]@);
            k += 1;
        }
        proof {
            if k < out@.len() {
                assert(item_views(out@)[k as int] == out@[k as int]@);
            }
            assert(views.take(i + 1).drop_last() =~= views.take(i));
            assert(views.take(i + 1).last() == bv);
        }
        let ghost before = out@;
        out.insert(k, b);
        assert(item_views(out@) =~= item_views(before).insert(k as int, bv));
    }
    assert(views.take(views.len() as int) =~= views);
    out
}

// ---- verdicts ----

/// The verdicts so far, one for each part.
pub struct Verdicts {
    pub entries: Vec<(String, Verdict)>,
}

/// The contents of the entries.
pub open spec fn entry_views(entries: Seq<(String, Verdict)>) -> Seq<(Seq<char>, VerdictView)> {
    entries.map_values(|e: (String, Verdict)| (e.0@, e.1@))
}

/// The verdict on a part among entries.
pub open spec fn verdict_in(entries: Seq<(Seq<char>, VerdictView)>, name: Seq<char>) -> Option<
    VerdictView,
>
    decreases entries.len(),
{
    if entries.len() == 0 {
        None
    } else if entries.last().0 == name {
        Some(entries.last().1)
    } else {
        verdict_in(entries.drop_last(), name)
    }
}

/// How many verdicts are bad.
pub open spec fn bad_among(entries: Seq<(Seq<char>, VerdictView)>) -> nat
    decreases entries.len(),
{
    if entries.len() == 0 {
        0
    } else {
        bad_among(entries.drop_last()) + (if entries.last().1.status == "bad"@ {
            1nat
        } else {
            0nat
        })
    }
}

impl Verdicts {
    /// The contents of the verdicts.
    pub open spec fn all(self) -> Seq<(Seq<char>, VerdictView)> {
        entry_views(self.entries@)
    }

    /// No part has two verdicts.
    pub open spec fn well_formed(self) -> bool {
        forall|i: int, j: int|
            0 <= i < j < self.all().len() ==> (#[trigger] self.all()[i]).0 != (
            #[trigger] self.all()[j]).0
    }

    /// The verdict on a part.
    pub open spec fn of(self, name: Seq<char>) -> Option<VerdictView> {
        verdict_in(self.all(), name)
    }

    pub fn new() -> (r: Self)
        ensures
            r.well_formed(),
            r.all() == Seq::<(Seq<char>, VerdictView)>::empty(),
    {
        let r = Verdicts { entries: Vec::new() };
        assert(r.all() =~= Seq::<(Seq<char>, VerdictView)>::empty());
        r
    }

    /// Give a part its verdict; an earlier one is replaced.
    pub fn insert(&mut self, name: &str, verdict: Verdict)
        requires
            old(self).well_formed(),
        ensures
            final(self).well_formed(),
            final(self).of(name@) == Some(verdict@),
            forall|n: Seq<char>| n != name@ ==> #[trigger] final(self).of(n) == old(self).of(n),
            final(self).all().len() == old(self).all().len() + (if old(self).of(name@) is Some {
                0int
            } else {
                1
            }),
    {
        let ghost start = *self;
        let ghost before = self.all();
        let ghost v = verdict@;
        let mut i: usize = 0;
        while i < self.entries.len()
            invariant
                i <= self.entries@.len(),
                *self == start,
                start == *old(self),
                start.well_formed(),
                before == start.all(),
                v == verdict@,
                forall|j: int| 0 <= j < i ==> (#[trigger] before[j]).0 != name@,
            decreases self.entries@.len() - i,
        {
            assert(before[i as int] == (self.entries@[i as int].0@, self.entries@[i as int].1@));
            if same_text(self.entries[i].0.as_str(), name) {
                self.entries.set(i, (name.to_owned(), verdict));
                proof {
                    let now = self.all();
                    assert(now =~= before.update(i as int, (name@, v)));
                    lemma_update(before, i as int, name@, v);
                    assert forall|a: int, b: int| 0 <= a < b < now.len() implies (
                    #[trigger] now[a]).0 != (#[trigger] now[b]).0 by {
                        assert(before[a].0 != before[b].0);
                    }
                }
                return ;
            }
            i += 1;
        }
        self.entries.push((name.to_owned(), verdict));
        proof {
            let now = self.all();
            assert(now =~= before.push((name@, v)));
            assert(now.drop_last() =~= before);
            lemma_absent(before, name@);
            assert forall|a: int, b: int| 0 <= a < b < now.len() implies (#[trigger] now[a]).0 != (
            #[trigger] now[b]).0 by {
                assert(now[a] == before[a]);
                if b < before.len() {
                    assert(now[b] == before[b]);
                }
            }
        }
    }

    /// How many parts have a verdict, and how many of those are bad.
    pub fn tally(&self) -> (r: Tally)
        ensures
            r.done == self.all().len(),
            r.bad == bad_among(self.all()),
    {
        let ghost all = self.all();
        let mut bad: usize = 0;
        let mut i: usize = 0;
        while i < self.entries.len()
            invariant
                i <= self.entries@.len(),
                all == self.all(),
                all.len() == self.entries@.len(),
                bad <= i,
                bad == bad_among(all.take(i as int)),
            decreases self.entries@.len() - i,
        {
            assert(all.take(i + 1).drop_last() =~= all.take(i as int));
            assert(all.take(i + 1).last() == (
                self.entries@[i as int].0@,
                self.entries@[i as int].1@,
            ));
            if same_text(self.entries[i].1.status.as_str(), "bad") {
                bad += 1;
            }
            i += 1;
        }
        assert(all.take(i as int) =~= all);
        Tally { done: self.entries.len(), bad }
    }
}

/// A name that no entry has, has no verdict.
proof fn lemma_absent(entries: Seq<(Seq<char>, VerdictView)>, name: Seq<char>)
    requires
        forall|j: int| 0 <= j < entries.len() ==> (#[trigger] entries[j]).0 != name,
    ensures
        verdict_in(entries, name) is None,
    decreases entries.len(),
{
    if entries.len() > 0 {
        assert(entries[entries.len() - 1].0 != name);
        lemma_absent(entries.drop_last(), name);
    }
}

/// Replacing the one entry of a name changes the verdict on it alone.
proof fn lemma_update(
    entries: Seq<(Seq<char>, VerdictView)>,
    i: int,
    name: Seq<char>,
    v: VerdictView,
)
    requires
        0 <= i < entries.len(),
        entries[i].0 == name,
        forall|a: int, b: int|
            0 <= a < b < entries.len() ==> (#[trigger] entries[a]).0 != (#[trigger] entries[b]).0,
    ensures
        verdict_in(entries, name) is Some,
        verdict_in(entries.update(i, (name, v)), name) == Some(v),
        forall|n: Seq<char>|
            n != name ==> #[trigger] verdict_in(entries.update(i, (name, v)), n) == verdict_in(
                entries,
                n,
            ),
    decreases entries.len(),
{
    let now = entries.update(i, (name, v));
    if i == entries.len() - 1 {
        assert(now.drop_last() =~= entries.drop_last());
    } else {
        assert(entries[i].0 != entries[entries.len() - 1].0);
        lemma_update(entries.drop_last(), i, name, v);
        let front = entries.drop_last().update(i, (name, v));
        assert(now.drop_last() =~= front);
        assert forall|n: Seq<char>| n != name implies #[trigger] verdict_in(now, n) == verdict_in(
            entries,
            n,
        ) by {
            assert(verdict_in(front, n) == verdict_in(entries.drop_last(), n));
        }
    }
}

// ---- requests ----

/// Why a request is turned down, if it is.
pub open spec fn refusal(frames: nat, r: RequestView) -> Option<Refusal> {
    if r.verdict.status != "ok"@ && r.verdict.status != "bad"@ {
        Some(Refusal::BadRequest)
    } else if r.i >= frames {
        Some(Refusal::NotFound)
    } else {
        None
    }
}

/// How many requests come before the first that is turned down.
pub open spec fn taken(frames: nat, reqs: Seq<RequestView>, from: int) -> int
    decreases reqs.len() - from,
{
    if 0 <= from < reqs.len() && refusal(frames, reqs[from]) is None {
        taken(frames, reqs, from + 1)
    } else {
        from
    }
}

/// The verdict on a part once requests were taken in order, the latest winning.
pub open spec fn after(
    items: Seq<ItemView>,
    before: Option<VerdictView>,
    reqs: Seq<RequestView>,
    name: Seq<char>,
) -> Option<VerdictView>
    decreases reqs.len(),
{
    if reqs.len() == 0 {
        before
    } else if items[reqs.last().i as int].name == name {
        Some(reqs.last().verdict)
    } else {
        after(items, before, reqs.drop_last(), name)
    }
}

/// Whether a verdict calls for triage.
pub fn needs_triage(status: &str) -> (r: bool)
    ensures
        r == (status@ == "bad"@),
{
    same_text(status, "bad")
}

/// Why a request is turned down, if it is.
fn refuse(frames: usize, r: &VerdictReq) -> (o: Option<Refusal>)
    ensures
        o == refusal(frames as nat, r@),
{
    if !same_text(r.status.as_str(), "ok") && !same_text(r.status.as_str(), "bad") {
        Some(Refusal::BadRequest)
    } else if r.i >= frames {
        Some(Refusal::NotFound)
    } else {
        None
    }
}

/// Take one verdict. One that is turned down changes nothing.
pub fn verdict(verdicts: &mut Verdicts, items: &[Item], req: &VerdictReq) -> (r: Result<
    Tally,
    Refusal,
>)
    requires
        old(verdicts).well_formed(),
    ensures
        final(verdicts).well_formed(),
        match r {
            Err(e) => refusal(items@.len(), req@) == Some(e) && *final(verdicts) == *old(verdicts),
            Ok(t) => {
                &&& refusal(items@.len(), req@) is None
                &&& forall|n: Seq<char>|
                    #[trigger] final(verdicts).of(n) == after(
                        item_views(items@),
                        old(verdicts).of(n),
                        seq![req@],
                        n,
                    )
                &&& t.done == final(verdicts).all().len()
                &&& t.bad == bad_among(final(verdicts).all())
            },
        },
{
    if let Some(e) = refuse(items.len(), req) {
        return Err(e);
    }
    assert(item_views(items@)[req.i as int] == items@[req.i as int]@);
    assert(seq![req@].drop_last() =~= Seq::<RequestView>::empty());
    proof {
        reveal_with_fuel(after, 2);
    }
    let v = Verdict { status: req.status.clone(), note: req.note.clone(), at: req.at };
    verdicts.insert(items[req.i].name.as_str(), v);
    Ok(verdicts.tally())
}

/// The "all good" commit: several verdicts, in order, up to the first that is
/// turned down. Those before it stand.
pub fn verdicts_batch(verdicts: &mut Verdicts, items: &[Item], reqs: &[VerdictReq]) -> (r: Result<
    Tally,
    Refusal,
>)
    requires
        old(verdicts).well_formed(),
    ensures
        final(verdicts).well_formed(),
        forall|n: Seq<char>|
            #[trigger] final(verdicts).of(n) == after(
                item_views(items@),
                old(verdicts).of(n),
                request_views(reqs@).take(taken(items@.len(), request_views(reqs@), 0)),
                n,
            ),
        match r {
            Err(e) => {
                let k = taken(items@.len(), request_views(reqs@), 0);
                k < reqs@.len() && refusal(items@.len(), request_views(reqs@)[k]) == Some(e)
            },
            Ok(t) => {
                &&& taken(items@.len(), request_views(reqs@), 0) == reqs@.len()
                &&& t.done == final(verdicts).all().len()
                &&& t.bad == bad_among(final(verdicts).all())
            },
        },
{
    let ghost views = request_views(reqs@);
    let ghost frames = item_views(items@);
    let ghost start = *verdicts;
    let mut i: usize = 0;
    while i < reqs.len()
        invariant
            i <= reqs@.len(),
            views == request_views(reqs@),
            frames == item_views(items@),
            verdicts.well_formed(),
            taken(items@.len(), views, 0) == taken(items@.len(), views, i as int),
            forall|n: Seq<char>|
                #[trigger] verdicts.of(n) == after(frames, start.of(n), views.take(i as int), n),
            start == *old(verdicts),
        decreases reqs@.len() - i,
    {
        let req = &reqs[i];
        assert(views[i as int] == req@);
        if let Some(e) = refuse(items.len(), req) {
            assert(taken(items@.len(), views, i as int) == i);
            return Err(e);
        }
        assert(frames[req.i as int] == items@[req.i as int]@);
        assert(views.take(i + 1).drop_last() =~= views.take(i as int));
        assert(views.take(i + 1).last() == req@);
        let v = Verdict { status: req.status.clone(), note: req.note.clone(), at: req.at };
        verdicts.insert(items[req.i].name.as_str(), v);
        i += 1;
    }
    assert(views.take(i as int) =~= views);
    Ok(verdicts.tally())
}

/// A part that was flagged bad and then called ok is ok: the later verdict
/// stands.
pub proof fn lemma_ok_retracts_bad(
    items: Seq<ItemView>,
    before: Option<VerdictView>,
    flag: RequestView,
    retraction: RequestView,
)
    requires
        refusal(items.len(), flag) is None,
        refusal(items.len(), retraction) is None,
        flag.i == retraction.i,
    ensures
        after(items, before, seq![flag, retraction], items[flag.i as int].name) == Some(
            retraction.verdict,
        ),
{
}

} // verus!
