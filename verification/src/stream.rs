//! Streaming: what the writers and readers of the three codecs share.
//!
//! A writer takes raw bytes in chunks of any size and hands the encoding on
//! block by block; a reader takes encoded bytes in chunks of any size and
//! hands the decoded bytes on in the amounts asked for. Each call is one
//! step of a state machine; the steps are stated here, and it is proved
//! that any run of them gives what the one-shot codec gives.

use vstd::prelude::*;
use vstd::slice::{slice_subrange, slice_to_vec};
use crate::alphabet::Alphabet;
use crate::model::{
    decoded,
    encoded,
    last_block_len,
    lemma_block_lengths,
    misplaced,
    visible,
    whole_blocks,
};
use crate::error::CodecError;
use crate::scan::{
    absorb,
    absorbed,
    count_visible,
    lemma_absorbed_carry,
    lemma_absorbed_concat,
    lemma_absorbed_nothing,
    lemma_pass_of_absorbed,
    misplaced_of,
};
use crate::util::{BinaryEncoder, GroupDecoder};

verus! {

/// One `write`: the chunk is put behind the bytes that were held back; the
/// whole blocks of the result are encoded and pushed, the rest is held
/// back. Gives the encoded bytes pushed and the bytes now held back.
pub open spec fn write_step(a: Alphabet, pending: Seq<u8>, buf: Seq<u8>) -> (Seq<u8>, Seq<u8>) {
    let all = pending + buf;
    let k = whole_blocks(a, all.len() as int);
    (encoded(a, all.take(k)), all.skip(k))
}

/// `close`: the bytes held back are encoded as a last, padded block.
pub open spec fn close_step(a: Alphabet, pending: Seq<u8>) -> Seq<u8> {
    encoded(a, pending)
}

/// How whole blocks add up: whole blocks followed by `m` bytes hold the
/// whole blocks of both.
#[verifier::rlimit(40)]
pub proof fn lemma_whole_blocks(a: Alphabet, k: int, m: int)
    requires
        0 <= k,
        0 <= m,
        whole_blocks(a, k) == k,
    ensures
        whole_blocks(a, k + m) == k + whole_blocks(a, m),
        0 <= whole_blocks(a, m) <= m,
        m - whole_blocks(a, m) < a.block_raw(),
        whole_blocks(a, whole_blocks(a, m)) == whole_blocks(a, m),
        m < a.block_raw() ==> whole_blocks(a, m) == 0,
        whole_blocks(a, a.block_raw()) == a.block_raw(),
        m > 0 ==> last_block_len(a, k + m) == last_block_len(a, m),
{
}

/// Encoding whole blocks followed by more bytes is the encoding of the
/// blocks followed by the encoding of the rest.
pub proof fn lemma_encoded_concat(a: Alphabet, x: Seq<u8>, y: Seq<u8>)
    requires
        whole_blocks(a, x.len() as int) == x.len(),
    ensures
        encoded(a, x + y) == encoded(a, x) + encoded(a, y),
    decreases y.len(),
{
    if y.len() == 0 {
        assert(x + y =~= x);
        assert(encoded(a, x) + encoded(a, y) =~= encoded(a, x));
    } else {
        let v = x + y;
        let r = last_block_len(a, y.len() as int);
        lemma_whole_blocks(a, x.len() as int, y.len() as int);
        lemma_block_lengths(a, y.len() as int);
        assert(v.take(v.len() - r) =~= x + y.take(y.len() - r));
        assert(v.skip(v.len() - r) =~= y.skip(y.len() - r));
        lemma_encoded_concat(a, x, y.take(y.len() - r));
        assert(encoded(a, v) =~= encoded(a, x) + encoded(a, y));
    }
}

/// A chunk too short to complete a block: nothing is pushed.
proof fn lemma_write_short(a: Alphabet, pending: Seq<u8>, buf: Seq<u8>)
    requires
        pending.len() + buf.len() < a.block_raw(),
    ensures
        write_step(a, pending, buf) == (Seq::<u8>::empty(), pending + buf),
{
    let all = pending + buf;
    lemma_whole_blocks(a, 0, all.len() as int);
    assert(all.take(0) =~= Seq::<u8>::empty());
    assert(all.skip(0) =~= all);
}

/// A chunk that completes the block held back with its first `i` bytes:
/// that block is pushed, then the whole blocks of the rest of the chunk.
proof fn lemma_write_long(a: Alphabet, pending: Seq<u8>, buf: Seq<u8>, i: int, nn: int)
    requires
        0 <= i <= buf.len(),
        pending.len() + i == a.block_raw() || (pending.len() == 0 && i == 0),
        nn == whole_blocks(a, buf.len() - i),
    ensures
        i + nn <= buf.len(),
        write_step(a, pending, buf) == (
            encoded(a, pending + buf.take(i)) + encoded(a, buf.subrange(i, i + nn)),
            buf.subrange(i + nn, buf.len() as int),
        ),
{
    let all = pending + buf;
    let first = pending + buf.take(i);
    let second = buf.subrange(i, i + nn);
    lemma_whole_blocks(a, first.len() as int, buf.len() - i);
    let k = whole_blocks(a, all.len() as int);
    assert(k == first.len() + nn);
    assert(all.take(k) =~= first + second);
    assert(all.skip(k) =~= buf.subrange(i + nn, buf.len() as int));
    lemma_encoded_concat(a, first, second);
}

/// Executable form of [`whole_blocks`].
pub fn whole_blocks_of(a: Alphabet, n: usize) -> (k: usize)
    ensures
        k == whole_blocks(a, n as int),
        k <= n,
{
    match a {
        Alphabet::Hex => n,
        Alphabet::Base32Std | Alphabet::Base32Hex => n - n % 5,
        Alphabet::Base64Std | Alphabet::Base64Url => n - n % 3,
    }
}

/// One `write` of a streaming writer: see [`write_step`]. The encoded
/// bytes are pushed to `sink`; the result is what the writer now holds back.
#[verifier::rlimit(30)]
pub fn write_blocks<E: BinaryEncoder>(
    codec: &E,
    pending: &[u8],
    buf: &[u8],
    sink: &mut Vec<u8>,
) -> (held: Vec<u8>)
    requires
        pending@.len() < codec.alphabet().block_raw(),
    ensures
        final(sink)@ == old(sink)@ + write_step(codec.alphabet(), pending@, buf@).0,
        held@ == write_step(codec.alphabet(), pending@, buf@).1,
        held@.len() < codec.alphabet().block_raw(),
{
    let a = codec.letters();
    let b = a.block_len();
    let len = buf.len();
    let mut held: Vec<u8> = Vec::new();
    held.extend_from_slice(pending);
    let mut i: usize = 0;
    if held.len() > 0 {
        proof {
            assert(held@ =~= pending@ + buf@.take(0));
        }
        while i < len && held.len() < b
            invariant
                len == buf@.len(),
                b == a.block_raw(),
                i <= len,
                held@.len() <= b,
                held@ == pending@ + buf@.take(i as int),
            decreases len - i,
        {
            held.push(buf[i]);
            proof {
                assert(buf@.take(i + 1) =~= buf@.take(i as int).push(buf@[i as int]));
                assert(held@ =~= pending@ + buf@.take(i + 1));
            }
            i += 1;
        }
        if held.len() < b {
            proof {
                assert(buf@.take(len as int) =~= buf@);
                lemma_write_short(a, pending@, buf@);
                assert(sink@ + Seq::<u8>::empty() =~= sink@);
            }
            return held;
        }
        codec.encode(sink, held.as_slice());
        held.clear();
    } else {
        proof {
            assert(pending@ + buf@.take(0) =~= Seq::<u8>::empty());
            assert(encoded(a, Seq::<u8>::empty()) =~= Seq::<u8>::empty());
            assert(sink@ + Seq::<u8>::empty() =~= sink@);
        }
    }
    let nn = whole_blocks_of(a, len - i);
    proof {
        lemma_write_long(a, pending@, buf@, i as int, nn as int);
    }
    codec.encode(sink, slice_subrange(buf, i, i + nn));
    held.extend_from_slice(slice_subrange(buf, i + nn, len));
    proof {
        assert(held@ =~= buf@.subrange(i + nn, len as int));
        assert(sink@ =~= old(sink)@ + (encoded(a, pending@ + buf@.take(i as int)) + encoded(
            a,
            buf@.subrange(i as int, i + nn),
        )));
    }
    held
}

/// `close` of a streaming writer: see [`close_step`].
pub fn close_blocks<E: BinaryEncoder>(codec: &E, pending: &[u8], sink: &mut Vec<u8>)
    ensures
        final(sink)@ == old(sink)@ + close_step(codec.alphabet(), pending@),
{
    if pending.len() > 0 {
        codec.encode(sink, pending);
    } else {
        proof {
            assert(encoded(codec.alphabet(), pending@) =~= Seq::<u8>::empty());
            assert(sink@ + Seq::<u8>::empty() =~= sink@);
        }
    }
}

/// The chunks of a run, one after the other.
pub open spec fn flatten(chunks: Seq<Seq<u8>>) -> Seq<u8>
    decreases chunks.len(),
{
    if chunks.len() == 0 {
        Seq::empty()
    } else {
        flatten(chunks.drop_last()) + chunks.last()
    }
}

/// A run of `write` calls on a new writer, one for each chunk: all the
/// encoded bytes pushed, and the bytes held back at the end.
pub open spec fn written(a: Alphabet, chunks: Seq<Seq<u8>>) -> (Seq<u8>, Seq<u8>)
    decreases chunks.len(),
{
    if chunks.len() == 0 {
        (Seq::empty(), Seq::empty())
    } else {
        let before = written(a, chunks.drop_last());
        let step = write_step(a, before.1, chunks.last());
        (before.0 + step.0, step.1)
    }
}

/// After any run of `write` calls the writer has pushed the encoding of
/// the whole blocks of all that it was given, and holds the rest back.
#[verifier::rlimit(30)]
pub proof fn lemma_written(a: Alphabet, chunks: Seq<Seq<u8>>)
    ensures
        ({
            let all = flatten(chunks);
            let k = whole_blocks(a, all.len() as int);
            written(a, chunks) == (encoded(a, all.take(k)), all.skip(k))
        }),
    decreases chunks.len(),
{
    if chunks.len() == 0 {
        let all = flatten(chunks);
        assert(all.take(0) =~= Seq::<u8>::empty());
        assert(all.skip(0) =~= Seq::<u8>::empty());
    } else {
        let head = flatten(chunks.drop_last());
        let c = chunks.last();
        let all = head + c;
        let k = whole_blocks(a, head.len() as int);
        lemma_written(a, chunks.drop_last());
        let joined = head.skip(k) + c;
        let m = whole_blocks(a, joined.len() as int);
        lemma_whole_blocks(a, 0, head.len() as int);
        lemma_whole_blocks(a, k, joined.len() as int);
        assert(whole_blocks(a, all.len() as int) == k + m);
        assert(all.take(k + m) =~= head.take(k) + joined.take(m));
        assert(all.skip(k + m) =~= joined.skip(m));
        lemma_encoded_concat(a, head.take(k), joined.take(m));
    }
}

/// Streaming equivalence for writing: however the input is cut into
/// chunks, the bytes pushed by the `write` calls followed by those pushed
/// by `close` are the one-shot encoding of the whole input.
pub proof fn lemma_writer_equals_encode(a: Alphabet, chunks: Seq<Seq<u8>>)
    ensures
        written(a, chunks).0 + close_step(a, written(a, chunks).1) == encoded(a, flatten(chunks)),
{
    let all = flatten(chunks);
    let k = whole_blocks(a, all.len() as int);
    lemma_written(a, chunks);
    lemma_whole_blocks(a, 0, all.len() as int);
    lemma_encoded_concat(a, all.take(k), all.skip(k));
    assert(all.take(k) + all.skip(k) =~= all);
}

/// What a streaming reader holds, as plain values.
pub struct ReaderView {
    /// Visible symbols of a group that is not complete yet.
    pub carry: Seq<u8>,
    /// Decoded bytes that the caller has not taken yet, oldest first.
    pub queue: Seq<u8>,
    /// Whether a padded group has ended the message.
    pub at_end: bool,
    /// Whether the source has said that it holds no more bytes.
    pub exhausted: bool,
}

/// The state of a streaming reader.
pub struct ReaderState {
    carry: Vec<u8>,
    queue: Vec<u8>,
    at_end: bool,
    exhausted: bool,
}

impl View for ReaderState {
    type V = ReaderView;

    closed spec fn view(&self) -> ReaderView {
        ReaderView {
            carry: self.carry@,
            queue: self.queue@,
            at_end: self.at_end,
            exhausted: self.exhausted,
        }
    }
}

/// A reader that has read nothing.
pub open spec fn reader_start() -> ReaderView {
    ReaderView { carry: Seq::empty(), queue: Seq::empty(), at_end: false, exhausted: false }
}

/// What every reader state satisfies: the carried symbols are fewer than
/// a group, and none are kept once the message has ended.
pub open spec fn reader_wf(a: Alphabet, st: ReaderView) -> bool {
    &&& st.carry.len() < a.block_encoded()
    &&& st.at_end ==> st.carry.len() == 0
}

/// The smaller of two numbers.
pub open spec fn least(x: int, y: int) -> int {
    if x <= y {
        x
    } else {
        y
    }
}

/// One `read`: the bytes that the source gave are taken in, then up to
/// `len` decoded bytes are handed out, oldest first.
///
/// Taking in: the visible symbols of the input are put behind the carried
/// ones and the full groups are decoded into the queue; an error of a
/// group is the error of the call. A padded group ends the message:
/// visible symbols behind it, in this input or in a later one, fail the
/// call, see [`misplaced`]. Where the source is exhausted and symbols are
/// left that fill no group, the stream is truncated. A failed call leaves
/// the reader as it was.
pub open spec fn read_step(
    a: Alphabet,
    st: ReaderView,
    len: int,
    input: Seq<u8>,
    exhausted: bool,
) -> Result<(ReaderView, Seq<u8>), CodecError> {
    let taken = if !st.at_end {
        absorbed(a, st.carry, input)
    } else if visible(a, input).len() == 0 {
        Ok((Seq::empty(), st.carry, true))
    } else {
        Err(misplaced(a, visible(a, input).len() as int))
    };
    match taken {
        Err(e) => Err(e),
        Ok((bytes, carry, end)) => if exhausted && !end && carry.len() > 0 {
            Err(CodecError::TruncatedInput)
        } else {
            let queue = st.queue + bytes;
            let n = least(len, queue.len() as int);
            Ok(
                (
                    ReaderView {
                        carry,
                        queue: queue.skip(n),
                        at_end: end,
                        exhausted: st.exhausted || exhausted,
                    },
                    queue.take(n),
                ),
            )
        },
    }
}

/// Whether nothing more will come out of the reader: no decoded byte is
/// waiting, and the message has ended or the source is exhausted.
pub open spec fn at_eof(st: ReaderView) -> bool {
    st.queue.len() == 0 && (st.at_end || st.exhausted)
}

/// How many encoded bytes to ask the source for before a `read` of `len`
/// bytes: none while decoded bytes are waiting or the message has ended;
/// else one group for each block that `len` bytes hold, one group at
/// least, and no more than a `usize` can count.
pub open spec fn wanted(a: Alphabet, st: ReaderView, len: int) -> int {
    if st.queue.len() > 0 || st.at_end {
        0
    } else {
        match a {
            Alphabet::Hex => if len < 1 {
                2
            } else if len > usize::MAX / 2 {
                usize::MAX / 2 * 2
            } else {
                len * 2
            },
            Alphabet::Base32Std | Alphabet::Base32Hex => if len < 5 {
                8
            } else if len / 5 > usize::MAX / 8 {
                usize::MAX / 8 * 8
            } else {
                len / 5 * 8
            },
            Alphabet::Base64Std | Alphabet::Base64Url => if len < 3 {
                4
            } else if len / 3 > usize::MAX / 4 {
                usize::MAX / 4 * 4
            } else {
                len / 3 * 4
            },
        }
    }
}

impl ReaderState {
    /// The state of a reader that has read nothing.
    pub fn new() -> (st: ReaderState)
        ensures
            st@ == reader_start(),
    {
        ReaderState { carry: Vec::new(), queue: Vec::new(), at_end: false, exhausted: false }
    }

    /// See [`at_eof`].
    pub fn eof(&self) -> (b: bool)
        ensures
            b == at_eof(self@),
    {
        self.queue.len() == 0 && (self.at_end || self.exhausted)
    }

    /// See [`wanted`].
    pub fn wanted(&self, a: Alphabet, len: usize) -> (n: usize)
        ensures
            n == wanted(a, self@, len as int),
    {
        if self.queue.len() > 0 || self.at_end {
            0
        } else {
            match a {
                Alphabet::Hex => if len < 1 {
                    2
                } else if len > usize::MAX / 2 {
                    usize::MAX / 2 * 2
                } else {
                    len * 2
                },
                Alphabet::Base32Std | Alphabet::Base32Hex => if len < 5 {
                    8
                } else if len / 5 > usize::MAX / 8 {
                    usize::MAX / 8 * 8
                } else {
                    len / 5 * 8
                },
                Alphabet::Base64Std | Alphabet::Base64Url => if len < 3 {
                    4
                } else if len / 3 > usize::MAX / 4 {
                    usize::MAX / 4 * 4
                } else {
                    len / 3 * 4
                },
            }
        }
    }
}

/// One `read` of a streaming reader: see [`read_step`]. Gives the state
/// after the call and the bytes handed out.
#[verifier::rlimit(30)]
pub fn read_blocks<D: GroupDecoder>(
    codec: &D,
    st: &ReaderState,
    len: usize,
    input: &[u8],
    exhausted: bool,
) -> (res: Result<(ReaderState, Vec<u8>), CodecError>)
    requires
        reader_wf(codec.alphabet(), st@),
    ensures
        match read_step(codec.alphabet(), st@, len as int, input@, exhausted) {
            Err(e) => res is Err && res->Err_0 == e,
            Ok((next, bytes)) => res is Ok && res->Ok_0.0@ == next && res->Ok_0.1@ == bytes
                && reader_wf(codec.alphabet(), next),
        },
{
    let ghost a = codec.alphabet();
    let mut queue: Vec<u8> = Vec::new();
    queue.extend_from_slice(st.queue.as_slice());
    let mut carry: Vec<u8> = Vec::new();
    let mut at_end = st.at_end;
    if !st.at_end {
        match absorb(codec, st.carry.as_slice(), input) {
            Err(e) => {
                return Err(e);
            },
            Ok(pass) => {
                if exhausted && !pass.end && pass.carry.len() > 0 {
                    return Err(CodecError::TruncatedInput);
                }
                proof {
                    lemma_absorbed_carry(a, st.carry@, input@);
                }
                queue.extend_from_slice(pass.bytes.as_slice());
                carry = pass.carry;
                at_end = pass.end;
                proof {
                    assert(queue@ =~= st.queue@ + pass.bytes@);
                }
            },
        }
    } else {
        proof {
            assert(input@.skip(0) =~= input@);
        }
        let behind = count_visible(codec.letters(), input, 0);
        if behind > 0 {
            return Err(misplaced_of(codec.letters(), behind));
        }
        proof {
            assert(queue@ =~= st.queue@ + Seq::<u8>::empty());
            assert(carry@ =~= st.carry@);
        }
    }
    let have = queue.len();
    let n = if len <= have { len } else { have };
    let out = slice_to_vec(slice_subrange(queue.as_slice(), 0, n));
    let rest = slice_to_vec(slice_subrange(queue.as_slice(), n, have));
    proof {
        assert(out@ =~= queue@.take(n as int));
        assert(rest@ =~= queue@.skip(n as int));
    }
    Ok((ReaderState { carry, queue: rest, at_end, exhausted: st.exhausted || exhausted }, out))
}

/// One `read` call of a run: how many bytes were asked for, what the
/// source gave, and whether the source said that this was all.
pub struct ReadCall {
    pub len: nat,
    pub input: Seq<u8>,
    pub exhausted: bool,
}

/// All that the source gave over a run of calls.
pub open spec fn supplied(calls: Seq<ReadCall>) -> Seq<u8>
    decreases calls.len(),
{
    if calls.len() == 0 {
        Seq::empty()
    } else {
        supplied(calls.drop_last()) + calls.last().input
    }
}

/// A run of `read` calls on a new reader: the state at the end and all
/// the bytes handed out, or the error of the call that failed.
pub open spec fn reading(a: Alphabet, calls: Seq<ReadCall>) -> Result<
    (ReaderView, Seq<u8>),
    CodecError,
>
    decreases calls.len(),
{
    if calls.len() == 0 {
        Ok((reader_start(), Seq::empty()))
    } else {
        match reading(a, calls.drop_last()) {
            Err(e) => Err(e),
            Ok((st, got)) => {
                let c = calls.last();
                match read_step(a, st, c.len as int, c.input, c.exhausted) {
                    Err(e) => Err(e),
                    Ok((next, bytes)) => Ok((next, got + bytes)),
                }
            },
        }
    }
}

/// After any run of successful `read` calls, the bytes handed out and the
/// bytes still waiting are what one pass over all the input decodes, and
/// the reader carries on what that pass carries on.
#[verifier::rlimit(30)]
pub proof fn lemma_reading(a: Alphabet, calls: Seq<ReadCall>)
    ensures
        match reading(a, calls) {
            Err(e) => true,
            Ok((st, got)) => reader_wf(a, st) && absorbed(a, Seq::empty(), supplied(calls)) == Ok::<
                (Seq<u8>, Seq<u8>, bool),
                CodecError,
            >((got + st.queue, st.carry, st.at_end)),
        },
    decreases calls.len(),
{
    let none = Seq::<u8>::empty();
    if calls.len() == 0 {
        lemma_absorbed_nothing(a);
        assert(none + none =~= none);
    } else {
        lemma_reading(a, calls.drop_last());
        match reading(a, calls.drop_last()) {
            Err(e) => {},
            Ok((st, got)) => {
                let c = calls.last();
                let x = supplied(calls.drop_last());
                lemma_absorbed_concat(a, none, x, c.input);
                lemma_absorbed_carry(a, st.carry, c.input);
                match read_step(a, st, c.len as int, c.input, c.exhausted) {
                    Err(e) => {},
                    Ok((next, bytes)) => {
                        if st.at_end {
                            let n = least(c.len as int, st.queue.len() as int);
                            assert(st.queue + none =~= st.queue);
                            assert((got + st.queue.take(n)) + st.queue.skip(n) =~= got
                                + st.queue);
                        } else {
                            let more = absorbed(a, st.carry, c.input)->Ok_0.0;
                            let queue = st.queue + more;
                            let n = least(c.len as int, queue.len() as int);
                            assert((got + queue.take(n)) + queue.skip(n) =~= (got + st.queue)
                                + more);
                        }
                    },
                }
            },
        }
    }
}

/// Streaming equivalence for reading: however the input is cut into
/// chunks and in whatever amounts the decoded bytes are asked for, once
/// the source was read to its end or a padded group has ended the
/// message, and every decoded byte has been handed out, the bytes handed
/// out are what the one-shot decoder gives for the whole input.
pub proof fn lemma_reader_equals_decode(a: Alphabet, calls: Seq<ReadCall>)
    requires
        calls.len() > 0,
        reading(a, calls) is Ok,
        reading(a, calls)->Ok_0.0.queue.len() == 0,
        reading(a, calls)->Ok_0.0.at_end || calls.last().exhausted,
    ensures
        decoded(a, supplied(calls)) == Ok::<Seq<u8>, CodecError>(reading(a, calls)->Ok_0.1),
        at_eof(reading(a, calls)->Ok_0.0),
{
    let st = reading(a, calls)->Ok_0.0;
    let got = reading(a, calls)->Ok_0.1;
    lemma_reading(a, calls);
    lemma_reading(a, calls.drop_last());
    assert(got + st.queue =~= got);
    lemma_pass_of_absorbed(a, supplied(calls));
    if !st.at_end {
        let prev = reading(a, calls.drop_last())->Ok_0.0;
        assert(!prev.at_end);
        assert(st.carry.len() == 0);
    }
}

/// A `read` call fails as the one-shot decoder does: where a run of
/// successful calls is followed by one that fails, the one-shot decoder
/// gives the same error for all the input up to and with that call's.
pub proof fn lemma_reader_fails_as_decode(a: Alphabet, calls: Seq<ReadCall>)
    requires
        calls.len() > 0,
        reading(a, calls.drop_last()) is Ok,
        reading(a, calls) is Err,
    ensures
        decoded(a, supplied(calls)) == Err::<Seq<u8>, CodecError>(reading(a, calls)->Err_0),
{
    let none = Seq::<u8>::empty();
    let st = reading(a, calls.drop_last())->Ok_0.0;
    let c = calls.last();
    lemma_reading(a, calls.drop_last());
    lemma_absorbed_concat(a, none, supplied(calls.drop_last()), c.input);
    lemma_pass_of_absorbed(a, supplied(calls));
}

} // verus!
