//! The two deflate decoders: a whole raw stream, and a zlib stream that ends
//! somewhere in the bytes at hand.

use std::io::Read;

use vstd::prelude::*;

verus! {

/// What a raw deflate stream (no zlib header or trailer) inflates to; `None`
/// for a corrupt or truncated one.
pub uninterp spec fn raw_inflated(data: Seq<u8>) -> Option<Seq<u8>>;

/// `flate2::read::DeflateDecoder`, read to its end. The result depends on the
/// bytes alone: the inflated stream, or `None` where the decoder reports an error.
#[verifier::external_body]
pub(crate) fn inflate_raw(data: &[u8]) -> (r: Option<Vec<u8>>)
    ensures
        match r {
            Some(v) => raw_inflated(data@) == Some(v@),
            None => raw_inflated(data@) is None,
        },
{
    let mut out = Vec::new();
    let mut dec = flate2::read::DeflateDecoder::new(data);
    match dec.read_to_end(&mut out) {
        Ok(_) => Some(out),
        Err(_) => None,
    }
}

/// `flate2::Decompress`, a zlib decoder fed piece by piece.
#[verifier::external_type_specification]
#[verifier::external_body]
pub struct ExDecompress(flate2::Decompress);

/// The calls of `decompress` that a decoder has had since it was made: the
/// input of each, and the room that its output buffer had.
pub uninterp spec fn decoder_calls(dec: flate2::Decompress) -> Seq<(Seq<u8>, nat)>;

/// How a zlib decoder answers the last of `calls`: the number of input bytes it
/// takes, the bytes it writes, and whether the stream ended there (`None` for
/// an error).
pub uninterp spec fn zlib_answer(calls: Seq<(Seq<u8>, nat)>) -> (nat, Seq<u8>, Option<bool>);

/// The number of input bytes taken over all of `calls`.
pub open spec fn bytes_in(calls: Seq<(Seq<u8>, nat)>) -> nat
    decreases calls.len(),
{
    if calls.len() == 0 {
        0
    } else {
        bytes_in(calls.drop_last()) + zlib_answer(calls).0
    }
}

/// The bytes written over all of `calls`.
pub open spec fn bytes_out(calls: Seq<(Seq<u8>, nat)>) -> Seq<u8>
    decreases calls.len(),
{
    if calls.len() == 0 {
        Seq::empty()
    } else {
        bytes_out(calls.drop_last()) + zlib_answer(calls).1
    }
}

/// `flate2::Decompress::new(true)`: a zlib decoder that has had no call yet.
#[verifier::external_body]
pub(crate) fn new_zlib_decoder() -> (r: flate2::Decompress)
    ensures
        decoder_calls(r) == Seq::<(Seq<u8>, nat)>::empty(),
{
    flate2::Decompress::new(true)
}

/// `flate2::Decompress::total_in`: the input bytes taken so far.
#[verifier::external_body]
pub(crate) fn total_in(dec: &flate2::Decompress) -> (r: u64)
    ensures
        r == bytes_in(decoder_calls(*dec)),
{
    dec.total_in()
}

/// `flate2::Decompress::total_out`: the number of bytes written so far.
#[verifier::external_body]
pub(crate) fn total_out(dec: &flate2::Decompress) -> (r: u64)
    ensures
        r == bytes_out(decoder_calls(*dec)).len(),
{
    dec.total_out()
}

/// `flate2::Decompress::decompress` without a flush. It takes at most the
/// input, writes to the front of the buffer and no further than its end, and
/// its answer is fixed by the calls that the decoder has had. `Some` tells
/// whether the stream ended, `None` reports an error.
#[verifier::external_body]
pub(crate) fn decompress(
    dec: &mut flate2::Decompress,
    input: &[u8],
    buf: &mut Vec<u8>,
) -> (r: Option<bool>)
    ensures
        decoder_calls(*final(dec)) == decoder_calls(*old(dec)).push((input@, old(buf)@.len())),
        final(buf)@.len() == old(buf)@.len(),
        zlib_answer(decoder_calls(*final(dec))).0 <= input@.len(),
        zlib_answer(decoder_calls(*final(dec))).1.len() <= final(buf)@.len(),
        final(buf)@.take(zlib_answer(decoder_calls(*final(dec))).1.len() as int) == zlib_answer(
            decoder_calls(*final(dec)),
        ).1,
        r == zlib_answer(decoder_calls(*final(dec))).2,
{
    match dec.decompress(input, buf, flate2::FlushDecompress::None) {
        Ok(flate2::Status::StreamEnd) => Some(true),
        Ok(flate2::Status::Ok) => Some(false),
        Ok(flate2::Status::BufError) => Some(false),
        Err(_) => None,
    }
}

/// Room given to the decoder at each call.
pub const BUFFER: usize = 65536;

/// The call that follows `calls` when `input` is inflated: all input that is
/// left, and a whole buffer.
pub open spec fn next_calls(input: Seq<u8>, calls: Seq<(Seq<u8>, nat)>) -> Seq<(Seq<u8>, nat)> {
    calls.push((input.skip(bytes_in(calls) as int), BUFFER as nat))
}

/// The answer to the last call asks for another one: no error, not at the
/// stream's end, and some bytes taken or written.
pub open spec fn goes_on(calls: Seq<(Seq<u8>, nat)>) -> bool {
    &&& zlib_answer(calls).2 == Some(false)
    &&& zlib_answer(calls).0 > 0 || zlib_answer(calls).1.len() > 0
}

/// `calls` are the calls that inflating `input` makes, up to some point: each
/// is the one that follows, and all but the last ask for another.
pub open spec fn calls_on(input: Seq<u8>, calls: Seq<(Seq<u8>, nat)>) -> bool
    decreases calls.len(),
{
    calls.len() > 0 ==> {
        let before = calls.drop_last();
        &&& calls_on(input, before)
        &&& before.len() > 0 ==> goes_on(before)
        &&& calls == next_calls(input, before)
    }
}

/// `calls` are all the calls that inflating `input` makes.
pub open spec fn complete_calls(input: Seq<u8>, calls: Seq<(Seq<u8>, nat)>) -> bool {
    calls.len() > 0 && calls_on(input, calls) && !goes_on(calls)
}

/// Two beginnings of the calls for one input agree as far as both reach.
proof fn lemma_calls_agree(
    input: Seq<u8>,
    a: Seq<(Seq<u8>, nat)>,
    b: Seq<(Seq<u8>, nat)>,
)
    requires
        calls_on(input, a),
        calls_on(input, b),
        a.len() <= b.len(),
    ensures
        b.take(a.len() as int) == a,
    decreases a.len() + b.len(),
{
    if a.len() < b.len() {
        lemma_calls_agree(input, a, b.drop_last());
        assert(b.take(a.len() as int) =~= b.drop_last().take(a.len() as int));
    } else if a.len() > 0 {
        lemma_calls_agree(input, a.drop_last(), b.drop_last());
        assert(b.drop_last().take(a.len() - 1) =~= b.drop_last());
        assert(a =~= b);
        assert(b.take(a.len() as int) =~= b);
    } else {
        assert(b.take(0) =~= a);
    }
}

/// Every beginning that goes on is shorter than a complete run.
proof fn lemma_before_end(input: Seq<u8>, a: Seq<(Seq<u8>, nat)>, n: int)
    requires
        calls_on(input, a),
        0 < n < a.len(),
    ensures
        goes_on(a.take(n)),
    decreases a.len(),
{
    if n == a.len() - 1 {
        assert(a.take(n) =~= a.drop_last());
    } else {
        lemma_before_end(input, a.drop_last(), n);
        assert(a.drop_last().take(n) =~= a.take(n));
    }
}

/// Inflating one input makes one series of calls.
proof fn lemma_one_run(input: Seq<u8>, a: Seq<(Seq<u8>, nat)>, b: Seq<(Seq<u8>, nat)>)
    requires
        complete_calls(input, a),
        complete_calls(input, b),
    ensures
        a == b,
{
    if a.len() <= b.len() {
        lemma_calls_agree(input, a, b);
        if a.len() < b.len() {
            lemma_before_end(input, b, a.len() as int);
        } else {
            assert(b.take(a.len() as int) =~= b);
        }
    } else {
        lemma_calls_agree(input, b, a);
        lemma_before_end(input, a, b.len() as int);
    }
}

/// What the calls give: the bytes written and the number of input bytes used.
/// A stream that neither ends nor fails counts as having used all of the input.
pub open spec fn prefix_result(input: Seq<u8>, calls: Seq<(Seq<u8>, nat)>) -> Option<
    (Seq<u8>, nat),
> {
    match zlib_answer(calls).2 {
        None => None,
        Some(true) => Some((bytes_out(calls), bytes_in(calls))),
        Some(false) => Some((bytes_out(calls), input.len())),
    }
}

/// What the zlib stream at the head of `input` inflates to, and how many of
/// the input's bytes it takes up; `None` when the bytes are no zlib stream.
pub open spec fn zlib_prefix(input: Seq<u8>) -> Option<(Seq<u8>, nat)> {
    prefix_result(input, choose|calls: Seq<(Seq<u8>, nat)>| complete_calls(input, calls))
}

/// Inflate one zlib stream starting at the head of `input`.
///
/// Returns the inflated bytes and the number of input bytes consumed. A
/// truncated (but otherwise valid) stream yields what was decoded and consumes
/// all of the input.
pub fn inflate_zlib_prefix(input: &[u8]) -> (r: Option<(Vec<u8>, usize)>)
    ensures
        match r {
            Some((out, used)) => zlib_prefix(input@) == Some((out@, used as nat)) && used
                <= input@.len(),
            None => zlib_prefix(input@) is None,
        },
{
    let mut dec = new_zlib_decoder();
    let mut out: Vec<u8> = Vec::new();
    let mut buf: Vec<u8> = vec![0u8; 65536];
    loop
        invariant
            buf@.len() == BUFFER,
            out@ == bytes_out(decoder_calls(dec)),
            bytes_in(decoder_calls(dec)) <= input@.len(),
            calls_on(input@, decoder_calls(dec)),
            decoder_calls(dec).len() > 0 ==> goes_on(decoder_calls(dec)),
        decreases (input@.len() - bytes_in(decoder_calls(dec))) + (usize::MAX - out@.len()),
    {
        let ghost before = decoder_calls(dec);
        let ghost out_before = out@;
        let consumed: usize = total_in(&dec) as usize;
        let before_out: u64 = total_out(&dec);
        let rest = vstd::slice::slice_subrange(input, consumed, input.len());
        let status = decompress(&mut dec, rest, &mut buf);
        let ghost calls = decoder_calls(dec);
        proof {
            assert(rest@ =~= input@.skip(bytes_in(before) as int));
            assert(calls.drop_last() =~= before);
            lemma_end_of_run(input@, calls);
        }
        let ended = match status {
            Some(e) => e,
            None => {
                return None;
            },
        };
        let produced: usize = (total_out(&dec) - before_out) as usize;
        let piece = vstd::slice::slice_subrange(buf.as_slice(), 0, produced);
        out.extend_from_slice(piece);
        assert(piece@ =~= zlib_answer(calls).1);
        assert(out@ =~= bytes_out(calls));
        let now: usize = total_in(&dec) as usize;
        if ended {
            return Some((out, now));
        }
        if now <= consumed && produced == 0 {
            // Out of input (truncated stream) or stalled: stop here.
            return Some((out, input.len()));
        }
        assert(out.len() <= usize::MAX);
    }
}

/// A finished series of calls is the one that `zlib_prefix` speaks of.
proof fn lemma_end_of_run(input: Seq<u8>, calls: Seq<(Seq<u8>, nat)>)
    requires
        calls_on(input, calls),
        calls.len() > 0,
    ensures
        !goes_on(calls) ==> zlib_prefix(input) == prefix_result(input, calls),
{
    if !goes_on(calls) {
        assert(complete_calls(input, calls));
        let c = choose|c: Seq<(Seq<u8>, nat)>| complete_calls(input, c);
        lemma_one_run(input, c, calls);
    }
}

} // verus!
