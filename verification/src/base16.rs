//! Base16, that is hex: one raw byte against two symbols. There is no
//! padding, so a decoding pass never reports that the message has ended.
//! Whitespace is skipped between pairs of digits; inside a pair it counts
//! as a symbol that is no digit.

use vstd::prelude::*;
use crate::alphabet::Alphabet;
use crate::error::CodecError;
use crate::model::{
    block_number,
    decoded,
    encode_block,
    encoded,
    encoded_len,
    group_number,
    group_value,
    lemma_encoded_len,
    lemma_encoded_step,
    unpack,
};
use crate::scan::{decode_all, decode_into, group_values};
use crate::stream::{
    at_eof,
    close_blocks,
    close_step,
    read_blocks,
    read_step,
    reader_start,
    reader_wf,
    wanted,
    write_blocks,
    write_step,
    ReaderState,
    ReaderView,
};
use crate::util::{BinaryDecoder, BinaryEncoder, DecodeResult, GroupDecoder, Lettered};

verus! {

/// The Base16 codec: the hex alphabet with its two lookup tables.
pub struct Base16 {
    table: [u8; 16],
    decode_map: [u8; 256],
}

/// The eight bits of a byte, cut into two groups of four.
proof fn lemma_cut8(b0: u8)
    by (bit_vector)
    ensures
        b0 >> 4 == (b0 / 0x10) % 16,
        b0 & 0x0f == b0 % 16,
{
}

/// Two groups of four bits, joined into a byte.
proof fn lemma_join8(v0: u8, v1: u8, n: u8)
    by (bit_vector)
    requires
        v0 < 16 && v1 < 16,
        n == v0 << 4 | v1,
    ensures
        n == v0 * 0x10 + v1,
{
}

impl Lettered for Base16 {
    open spec fn alphabet(&self) -> Alphabet {
        Alphabet::Hex
    }

    fn letters(&self) -> (a: Alphabet) {
        Alphabet::Hex
    }
}

impl Base16 {
    #[verifier::type_invariant]
    spec fn tables_match(self) -> bool {
        &&& forall|v: int| 0 <= v < 16 ==> #[trigger] self.table@[v] == Alphabet::Hex.forward(v)
        &&& forall|c: u8| #[trigger] self.decode_map@[c as int] == Alphabet::Hex.inverse(c)
    }

    /// The table of symbols that the codec holds: entry `v` is the digit for
    /// group value `v`.
    pub closed spec fn symbols(&self) -> Seq<u8> {
        self.table@
    }

    /// The decode map that the codec holds: entry `c` is the group value of
    /// byte `c`, or `INVALID`.
    pub closed spec fn values(&self) -> Seq<u8> {
        self.decode_map@
    }

    /// Builds the codec: the table of the sixteen digits and the decode map
    /// made from it, in which the lower-case digits stand too.
    pub fn new() -> (codec: Base16)
        ensures
            codec.symbols().len() == 16,
            forall|v: int|
                0 <= v < 16 ==> #[trigger] codec.symbols()[v] == Alphabet::Hex.forward(v),
            codec.values().len() == 256,
            forall|c: u8| #[trigger] codec.values()[c as int] == Alphabet::Hex.inverse(c),
    {
        let a = Alphabet::Hex;
        let mut table: [u8; 16] = [0u8; 16];
        let mut v: u8 = 0;
        while v < 16
            invariant
                v <= 16,
                a == Alphabet::Hex,
                forall|w: int| 0 <= w < v ==> #[trigger] table@[w] == a.forward(w),
            decreases 16 - v,
        {
            table[v as usize] = a.symbol(v);
            v += 1;
        }
        Base16 { table, decode_map: a.decode_map() }
    }

    /// The symbol that the table holds for group value `v`.
    pub fn symbol(&self, v: u8) -> (c: u8)
        requires
            v < 16,
        ensures
            c == self.symbols()[v as int],
            c == self.alphabet().forward(v as int),
    {
        proof {
            use_type_invariant(self);
        }
        self.table[v as usize]
    }

    /// The entry of the decode map for byte `c`: its group value, or
    /// `INVALID` where `c` is not part of the alphabet.
    pub fn value(&self, c: u8) -> (v: u8)
        ensures
            v == self.values()[c as int],
            v == self.alphabet().inverse(c),
    {
        proof {
            use_type_invariant(self);
        }
        self.decode_map[c as usize]
    }

    /// The two digits of the byte at `src[i]`.
    fn group(&self, src: &[u8], i: usize) -> (g: [u8; 2])
        requires
            i < src@.len(),
        ensures
            g@ == encode_block(Alphabet::Hex, src@.subrange(i as int, i + 1)),
    {
        proof {
            use_type_invariant(self);
        }
        let ghost a = Alphabet::Hex;
        let ghost blk = src@.subrange(i as int, i + 1);
        let b0: u8 = src[i];
        proof {
            lemma_cut8(b0);
            assert(b0 == block_number(a, blk));
        }
        let v0: u8 = b0 >> 4;
        let v1: u8 = b0 & 0x0f;
        proof {
            assert(v0 == group_value(a, blk, 0));
            assert(v1 == group_value(a, blk, 1));
        }
        let g: [u8; 2] = [self.table[v0 as usize], self.table[v1 as usize]];
        proof {
            assert(g@ =~= encode_block(a, blk));
        }
        g
    }
}

impl BinaryEncoder for Base16 {
#[verifier::rlimit(30)]
    fn encode(&self, dst: &mut Vec<u8>, src: &[u8]) {
        let len = src.len();
        let mut i: usize = 0;
        while i < len
            invariant
                len == src@.len(),
                i <= len,
                dst@ == old(dst)@ + encoded(Alphabet::Hex, src@.take(i as int)),
            decreases len - i,
        {
            let g = self.group(src, i);
            let ghost before = dst@;
            dst.extend_from_slice(g.as_slice());
            proof {
                assert(dst@ =~= before + g@);
                lemma_encoded_step(Alphabet::Hex, src@, i as int, 1);
                assert(before + g@ =~= old(dst)@ + (encoded(Alphabet::Hex, src@.take(i as int))
                    + g@));
            }
            i += 1;
        }
        proof {
            assert(src@.take(len as int) =~= src@);
        }
    }

    fn encoded_len(&self, src_length: usize) -> (n: usize) {
        src_length * 2
    }

    fn encode_bytes(&self, src: &[u8]) -> (dst: Vec<u8>) {
        let mut dst: Vec<u8> = Vec::new();
        self.encode(&mut dst, src);
        proof {
            lemma_encoded_len(self.alphabet(), src@);
            assert(Seq::<u8>::empty() + encoded(self.alphabet(), src@) =~= encoded(
                self.alphabet(),
                src@,
            ));
        }
        dst
    }
}

impl GroupDecoder for Base16 {
    fn decode_group(&self, dst: &mut Vec<u8>, group: &[u8]) -> (res: Result<bool, CodecError>) {
        proof {
            use_type_invariant(self);
        }
        let a = Alphabet::Hex;
        match group_values(a, &self.decode_map, group) {
            Err(e) => Err(e),
            Ok((vals, n)) => {
                let num: u8 = vals[0] << 4 | vals[1];
                proof {
                    lemma_join8(vals@[0], vals@[1], num);
                    assert(num == group_number(a, group@, n as int));
                }
                let ghost before = dst@;
                dst.push(num);
                proof {
                    assert(dst@ =~= before + unpack(a, group@, n as int));
                }
                Ok(false)
            },
        }
    }
}

impl BinaryDecoder for Base16 {
    fn decode(&self, dst: &mut Vec<u8>, src: &[u8]) -> (res: Result<DecodeResult, CodecError>) {
        decode_into(self, dst, src)
    }

    fn decoded_len(&self, src_length: usize) -> (n: usize) {
        src_length / 2
    }

    fn decode_bytes(&self, src: &[u8]) -> (res: Result<Vec<u8>, CodecError>) {
        decode_all(self, src)
    }
}

/// Encodes `src` as upper-case hex digits.
pub fn encode(src: &[u8]) -> (dst: Vec<u8>)
    ensures
        dst@ == encoded(Alphabet::Hex, src@),
        dst@.len() == encoded_len(Alphabet::Hex, src@.len() as int),
{
    Base16::new().encode_bytes(src)
}

/// Decodes hex digits of either case, or says why they do not decode.
pub fn decode(src: &[u8]) -> (res: Result<Vec<u8>, CodecError>)
    ensures
        match decoded(Alphabet::Hex, src@) {
            Ok(bytes) => res is Ok && res->Ok_0@ == bytes,
            Err(e) => res == Err::<Vec<u8>, CodecError>(e),
        },
{
    decode_result(src)
}

/// Decodes hex digits of either case, or says why they do not decode.
pub fn decode_result(src: &[u8]) -> (res: Result<Vec<u8>, CodecError>)
    ensures
        match decoded(Alphabet::Hex, src@) {
            Ok(bytes) => res is Ok && res->Ok_0@ == bytes,
            Err(e) => res == Err::<Vec<u8>, CodecError>(e),
        },
{
    Base16::new().decode_bytes(src)
}

/// A streaming Base16 encoder. Raw bytes are written in chunks of any
/// size and the two digits of each byte are pushed to the sink at once; a
/// block is one byte, so nothing is ever held back and `close` only closes.
pub struct Base16Writer {
    base16: Base16,
    buf: Vec<u8>,
    closed: bool,
}

impl Base16Writer {
    #[verifier::type_invariant]
    spec fn holds_less_than_a_block(self) -> bool {
        self.buf@.len() < 1
    }

    /// The codec that the writer was made with, whose tables it encodes by.
    pub closed spec fn codec(&self) -> Base16 {
        self.base16
    }

    /// The alphabet of the codec that the writer was made with.
    pub closed spec fn alphabet(&self) -> Alphabet {
        self.base16.alphabet()
    }

    /// The raw bytes held back until their block is complete.
    pub closed spec fn pending(&self) -> Seq<u8> {
        self.buf@
    }

    /// Whether `close` has been called.
    pub closed spec fn is_closed(&self) -> bool {
        self.closed
    }

    /// A writer on the given codec that holds nothing back and is open.
    pub fn new(base16: Base16) -> (w: Base16Writer)
        ensures
            w.codec() == base16,
            w.alphabet() == base16.alphabet(),
            w.pending() == Seq::<u8>::empty(),
            !w.is_closed(),
    {
        Base16Writer { base16, buf: Vec::new(), closed: false }
    }

    /// Takes one chunk of raw bytes and pushes its encoding to `sink`.
    /// Fails on a closed writer, which it leaves as it is.
    pub fn write(&mut self, buf: &[u8], sink: &mut Vec<u8>) -> (res: Result<(), CodecError>)
        ensures
            final(self).codec() == old(self).codec(),
            final(self).alphabet() == old(self).alphabet(),
            final(self).is_closed() == old(self).is_closed(),
            final(self).pending().len() < final(self).alphabet().block_raw(),
            old(self).is_closed() ==> res == Err::<(), CodecError>(CodecError::WriterClosed)
                && final(self).pending() == old(self).pending() && final(sink)@ == old(sink)@,
            !old(self).is_closed() ==> ({
                let step = write_step(old(self).alphabet(), old(self).pending(), buf@);
                &&& res == Ok::<(), CodecError>(())
                &&& final(sink)@ == old(sink)@ + step.0
                &&& final(self).pending() == step.1
            }),
    {
        proof {
            use_type_invariant(&*self);
        }
        if self.closed {
            return Err(CodecError::WriterClosed);
        }
        self.buf = write_blocks(&self.base16, self.buf.as_slice(), buf, sink);
        Ok(())
    }

    /// Closes the writer; there is never anything left to push. Fails on a
    /// closed writer, which it leaves as it is.
    pub fn close(&mut self, sink: &mut Vec<u8>) -> (res: Result<(), CodecError>)
        ensures
            final(self).codec() == old(self).codec(),
            final(self).alphabet() == old(self).alphabet(),
            final(self).is_closed(),
            old(self).is_closed() ==> res == Err::<(), CodecError>(CodecError::WriterClosed)
                && final(self).pending() == old(self).pending() && final(sink)@ == old(sink)@,
            !old(self).is_closed() ==> ({
                &&& res == Ok::<(), CodecError>(())
                &&& final(sink)@ == old(sink)@ + close_step(
                    old(self).alphabet(),
                    old(self).pending(),
                )
                &&& final(self).pending() == Seq::<u8>::empty()
            }),
    {
        proof {
            use_type_invariant(&*self);
        }
        if self.closed {
            return Err(CodecError::WriterClosed);
        }
        close_blocks(&self.base16, self.buf.as_slice(), sink);
        self.buf = Vec::new();
        self.closed = true;
        Ok(())
    }
}

/// A streaming Base16 decoder. Encoded bytes are handed over as the source
/// gives them, in chunks of any size; decoded bytes are handed out in the
/// amounts asked for.
pub struct Base16Reader {
    base16: Base16,
    state: ReaderState,
}

impl View for Base16Reader {
    type V = ReaderView;

    closed spec fn view(&self) -> ReaderView {
        self.state@
    }
}

impl Base16Reader {
    #[verifier::type_invariant]
    spec fn state_is_sound(self) -> bool {
        reader_wf(self.base16.alphabet(), self.state@)
    }

    /// The codec that the reader was made with, whose tables it decodes by.
    pub closed spec fn codec(&self) -> Base16 {
        self.base16
    }

    /// The alphabet of the codec that the reader was made with.
    pub closed spec fn alphabet(&self) -> Alphabet {
        self.base16.alphabet()
    }

    /// A reader on the given codec that has read nothing.
    pub fn new(base16: Base16) -> (r: Base16Reader)
        ensures
            r.codec() == base16,
            r.alphabet() == base16.alphabet(),
            r@ == reader_start(),
            reader_wf(r.alphabet(), r@),
    {
        Base16Reader { base16, state: ReaderState::new() }
    }

    /// How many encoded bytes to ask the source for before the next `read`
    /// of `len` bytes.
    pub fn wanted(&self, len: usize) -> (n: usize)
        ensures
            n == wanted(self.alphabet(), self@, len as int),
    {
        self.state.wanted(self.base16.letters(), len)
    }

    /// Takes in `input`, the bytes that the source gave, with `exhausted`
    /// telling whether the source has no more; then hands out up to `len`
    /// decoded bytes. A failed call leaves the reader as it was.
    pub fn read(&mut self, len: usize, input: &[u8], exhausted: bool) -> (res: Result<
        Vec<u8>,
        CodecError,
    >)
        ensures
            final(self).codec() == old(self).codec(),
            final(self).alphabet() == old(self).alphabet(),
            match read_step(old(self).alphabet(), old(self)@, len as int, input@, exhausted) {
                Err(e) => res == Err::<Vec<u8>, CodecError>(e) && final(self)@ == old(self)@,
                Ok((next, bytes)) => res is Ok && res->Ok_0@ == bytes && final(self)@ == next,
            },
            reader_wf(final(self).alphabet(), final(self)@),
            res is Ok && final(self)@.queue.len() > 0 ==> res->Ok_0@.len() == len,
    {
        proof {
            use_type_invariant(&*self);
        }
        match read_blocks(&self.base16, &self.state, len, input, exhausted) {
            Err(e) => Err(e),
            Ok((next, bytes)) => {
                self.state = next;
                Ok(bytes)
            },
        }
    }

    /// Whether nothing more will come out: no decoded byte is waiting, and
    /// the message has ended or the source is exhausted.
    pub fn eof(&self) -> (b: bool)
        ensures
            b == at_eof(self@),
    {
        self.state.eof()
    }
}

} // verus!
