//! Base64 with the standard and the URL-safe alphabet: blocks of three raw
//! bytes against groups of four symbols.

use vstd::prelude::*;
use crate::alphabet::{Alphabet, PAD};
use crate::error::CodecError;
use crate::model::{
    block_number,
    decoded,
    encode_block,
    encoded,
    encoded_len,
    group_number,
    group_value,
    lemma_encoded_len,
    lemma_encoded_step,
    unpack,
    whole_blocks,
};
use crate::scan::{decode_all, decode_into, group_values};
use crate::stream::{
    at_eof,
    close_blocks,
    close_step,
    read_blocks,
    read_step,
    reader_start,
    reader_wf,
    wanted,
    write_blocks,
    write_step,
    ReaderState,
    ReaderView,
};
use crate::util::{BinaryDecoder, BinaryEncoder, DecodeResult, GroupDecoder, Lettered};

verus! {

/// Which of the two Base64 alphabets to use.
#[derive(Clone, Copy, Debug, PartialEq, Eq, Structural)]
pub enum Base64Type {
    Standard,
    UrlSafe,
}

impl Base64Type {
    /// The alphabet that the variant names.
    pub open spec fn alphabet(self) -> Alphabet {
        match self {
            Base64Type::Standard => Alphabet::Base64Std,
            Base64Type::UrlSafe => Alphabet::Base64Url,
        }
    }

    /// Executable form of [`Base64Type::alphabet`].
    pub fn letters(self) -> (a: Alphabet)
        ensures
            a == self.alphabet(),
    {
        match self {
            Base64Type::Standard => Alphabet::Base64Std,
            Base64Type::UrlSafe => Alphabet::Base64Url,
        }
    }
}

/// A Base64 codec: one alphabet with its two lookup tables.
pub struct Base64 {
    kind: Base64Type,
    table: [u8; 64],
    decode_map: [u8; 256],
}

/// The twenty-four bits of a block, cut into four groups of six.
proof fn lemma_cut24(b0: u8, b1: u8, b2: u8, n: u32)
    by (bit_vector)
    requires
        n == (b0 as u32) << 16 | (b1 as u32) << 8 | (b2 as u32),
    ensures
        n == (b0 as u32) * 0x1_0000 + (b1 as u32) * 0x100 + (b2 as u32),
        (n >> 18) & 0x3f == (n / 0x4_0000) % 64,
        (n >> 12) & 0x3f == (n / 0x1000) % 64,
        (n >> 6) & 0x3f == (n / 0x40) % 64,
        n & 0x3f == n % 64,
{
}

impl Lettered for Base64 {
    closed spec fn alphabet(&self) -> Alphabet {
        self.kind.alphabet()
    }

    fn letters(&self) -> (a: Alphabet) {
        self.kind.letters()
    }
}

impl Base64 {
    #[verifier::type_invariant]
    spec fn tables_match(self) -> bool {
        &&& forall|v: int| 0 <= v < 64 ==> #[trigger] self.table@[v] == self.kind.alphabet().forward(v)
        &&& forall|c: u8| #[trigger] self.decode_map@[c as int] == self.kind.alphabet().inverse(c)
    }

    /// Builds the codec for one alphabet: the table of its sixty-four
    /// symbols and the decode map made from it.
    pub fn new(kind: Base64Type) -> (codec: Base64)
        ensures
            codec.alphabet() == kind.alphabet(),
    {
        let a = kind.letters();
        let mut table: [u8; 64] = [0u8; 64];
        let mut v: u8 = 0;
        while v < 64
            invariant
                v <= 64,
                a == kind.alphabet(),
                forall|w: int| 0 <= w < v ==> #[trigger] table@[w] == a.forward(w),
            decreases 64 - v,
        {
            table[v as usize] = a.symbol(v);
            v += 1;
        }
        Base64 { kind, table, decode_map: a.decode_map() }
    }

    /// The symbol that the table holds for group value `v`.
    pub fn symbol(&self, v: u8) -> (c: u8)
        requires
            v < 64,
        ensures
            c == self.alphabet().forward(v as int),
    {
        proof {
            use_type_invariant(self);
        }
        self.table[v as usize]
    }

    /// The entry of the decode map for byte `c`: its group value, or
    /// `INVALID` where `c` is not part of the alphabet.
    pub fn value(&self, c: u8) -> (v: u8)
        ensures
            v == self.alphabet().inverse(c),
    {
        proof {
            use_type_invariant(self);
        }
        self.decode_map[c as usize]
    }

    /// The variant that the codec was built for.
    pub fn kind(&self) -> (kind: Base64Type)
        ensures
            kind.alphabet() == self.alphabet(),
    {
        self.kind
    }

    /// The group of four symbols for the block of `r` bytes at `src[i..]`.
#[verifier::rlimit(30)]
    fn group(&self, src: &[u8], i: usize, r: usize) -> (g: [u8; 4])
        requires
            1 <= r <= 3,
            i + r <= src@.len(),
        ensures
            g@ == encode_block(self.alphabet(), src@.subrange(i as int, i + r)),
    {
        proof {
            use_type_invariant(self);
        }
        let ghost a = self.alphabet();
        let ghost blk = src@.subrange(i as int, i + r);
        let b0: u8 = src[i];
        let b1: u8 = if r > 1 { src[i + 1] } else { 0 };
        let b2: u8 = if r > 2 { src[i + 2] } else { 0 };
        let n: u32 = (b0 as u32) << 16 | (b1 as u32) << 8 | (b2 as u32);
        proof {
            lemma_cut24(b0, b1, b2, n);
            assert(n == block_number(a, blk));
        }
        let v0: u8 = ((n >> 18) & 0x3f) as u8;
        let v1: u8 = ((n >> 12) & 0x3f) as u8;
        let v2: u8 = ((n >> 6) & 0x3f) as u8;
        let v3: u8 = (n & 0x3f) as u8;
        proof {
            assert(v0 == group_value(a, blk, 0));
            assert(v1 == group_value(a, blk, 1));
            assert(v2 == group_value(a, blk, 2));
            assert(v3 == group_value(a, blk, 3));
        }
        let g: [u8; 4] = [
            self.table[v0 as usize],
            self.table[v1 as usize],
            if r > 1 { self.table[v2 as usize] } else { PAD },
            if r > 2 { self.table[v3 as usize] } else { PAD },
        ];
        proof {
            assert(g@ =~= encode_block(a, blk));
        }
        g
    }
}

impl BinaryEncoder for Base64 {
#[verifier::rlimit(30)]
    fn encode(&self, dst: &mut Vec<u8>, src: &[u8]) {
        let ghost a = self.alphabet();
        let len = src.len();
        let mut i: usize = 0;
        while i < len
            invariant
                a == self.alphabet(),
                a.block_raw() == 3,
                len == src@.len(),
                i <= len,
                i % 3 == 0 || i == len,
                dst@ == old(dst)@ + encoded(a, src@.take(i as int)),
            decreases len - i,
        {
            let remain = len - i;
            let r: usize = if remain > 3 { 3 } else { remain };
            let g = self.group(src, i, r);
            let ghost before = dst@;
            dst.extend_from_slice(g.as_slice());
            proof {
                assert(dst@ =~= before + g@);
                assert(whole_blocks(a, i as int) == i);
                lemma_encoded_step(a, src@, i as int, r as int);
                assert(before + g@ =~= old(dst)@ + (encoded(a, src@.take(i as int)) + g@));
            }
            i += r;
        }
        proof {
            assert(src@.take(len as int) =~= src@);
        }
    }

    fn encoded_len(&self, src_length: usize) -> (n: usize) {
        (src_length / 3 + (if src_length % 3 == 0 { 0 } else { 1 })) * 4
    }

    fn encode_bytes(&self, src: &[u8]) -> (dst: Vec<u8>) {
        let mut dst: Vec<u8> = Vec::new();
        self.encode(&mut dst, src);
        proof {
            lemma_encoded_len(self.alphabet(), src@);
            assert(Seq::<u8>::empty() + encoded(self.alphabet(), src@) =~= encoded(
                self.alphabet(),
                src@,
            ));
        }
        dst
    }
}

/// Four groups of six bits, joined into the twenty-four bits of a block.
proof fn lemma_join24(v0: u8, v1: u8, v2: u8, v3: u8, n: u32)
    by (bit_vector)
    requires
        v0 < 64 && v1 < 64 && v2 < 64 && v3 < 64,
        n == (v0 as u32) << 18 | (v1 as u32) << 12 | (v2 as u32) << 6 | (v3 as u32),
    ensures
        n == (v0 as u32) * 0x4_0000 + (v1 as u32) * 0x1000 + (v2 as u32) * 0x40 + (v3 as u32),
        (n >> 16) & 0xff == (n / 0x1_0000) % 256,
        (n >> 8) & 0xff == (n / 0x100) % 256,
        n & 0xff == n % 256,
{
}

impl GroupDecoder for Base64 {
#[verifier::rlimit(30)]
    fn decode_group(&self, dst: &mut Vec<u8>, group: &[u8]) -> (res: Result<bool, CodecError>) {
        proof {
            use_type_invariant(self);
        }
        let a = self.kind.letters();
        match group_values(a, &self.decode_map, group) {
            Err(e) => Err(e),
            Ok((vals, n)) => {
                let num: u32 = (vals[0] as u32) << 18 | (vals[1] as u32) << 12 | (vals[2] as u32)
                    << 6 | (vals[3] as u32);
                proof {
                    lemma_join24(vals@[0], vals@[1], vals@[2], vals@[3], num);
                    assert(num == group_number(a, group@, n as int));
                }
                let ghost before = dst@;
                dst.push(((num >> 16) & 0xff) as u8);
                if n > 2 {
                    dst.push(((num >> 8) & 0xff) as u8);
                }
                if n > 3 {
                    dst.push((num & 0xff) as u8);
                }
                proof {
                    assert(dst@ =~= before + unpack(a, group@, n as int));
                }
                Ok(n < 4)
            },
        }
    }

}

impl BinaryDecoder for Base64 {
    fn decode(&self, dst: &mut Vec<u8>, src: &[u8]) -> (res: Result<DecodeResult, CodecError>) {
        decode_into(self, dst, src)
    }

    fn decoded_len(&self, src_length: usize) -> (n: usize) {
        src_length / 4 * 3
    }

    fn decode_bytes(&self, src: &[u8]) -> (res: Result<Vec<u8>, CodecError>) {
        decode_all(self, src)
    }
}

impl Base64Type {
    /// The encoding of `src` in this alphabet.
    pub fn encode(self, src: &[u8]) -> (dst: Vec<u8>)
        ensures
            dst@ == encoded(self.alphabet(), src@),
            dst@.len() == encoded_len(self.alphabet(), src@.len() as int),
    {
        Base64::new(self).encode_bytes(src)
    }

    /// The bytes that `src` decodes to in this alphabet, or the reason why
    /// it does not decode.
    pub fn decode(self, src: &[u8]) -> (res: Result<Vec<u8>, CodecError>)
        ensures
            match decoded(self.alphabet(), src@) {
                Ok(bytes) => res is Ok && res->Ok_0@ == bytes,
                Err(e) => res == Err::<Vec<u8>, CodecError>(e),
            },
    {
        self.decode_result(src)
    }

    /// The bytes that `src` decodes to in this alphabet, or the reason why
    /// it does not decode.
    pub fn decode_result(self, src: &[u8]) -> (res: Result<Vec<u8>, CodecError>)
        ensures
            match decoded(self.alphabet(), src@) {
                Ok(bytes) => res is Ok && res->Ok_0@ == bytes,
                Err(e) => res == Err::<Vec<u8>, CodecError>(e),
            },
    {
        Base64::new(self).decode_bytes(src)
    }
}

/// Encodes `src` with the standard Base64 alphabet.
pub fn encode(src: &[u8]) -> (dst: Vec<u8>)
    ensures
        dst@ == encoded(Alphabet::Base64Std, src@),
        dst@.len() == encoded_len(Alphabet::Base64Std, src@.len() as int),
{
    Base64Type::Standard.encode(src)
}

/// Encodes `src` with the URL-safe Base64 alphabet.
pub fn urlsafe_encode(src: &[u8]) -> (dst: Vec<u8>)
    ensures
        dst@ == encoded(Alphabet::Base64Url, src@),
        dst@.len() == encoded_len(Alphabet::Base64Url, src@.len() as int),
{
    Base64Type::UrlSafe.encode(src)
}

/// Decodes `src` with the standard Base64 alphabet.
pub fn decode(src: &[u8]) -> (res: Result<Vec<u8>, CodecError>)
    ensures
        match decoded(Alphabet::Base64Std, src@) {
            Ok(bytes) => res is Ok && res->Ok_0@ == bytes,
            Err(e) => res == Err::<Vec<u8>, CodecError>(e),
        },
{
    Base64Type::Standard.decode_result(src)
}

/// Decodes `src` with the URL-safe Base64 alphabet.
pub fn urlsafe_decode(src: &[u8]) -> (res: Result<Vec<u8>, CodecError>)
    ensures
        match decoded(Alphabet::Base64Url, src@) {
            Ok(bytes) => res is Ok && res->Ok_0@ == bytes,
            Err(e) => res == Err::<Vec<u8>, CodecError>(e),
        },
{
    Base64Type::UrlSafe.decode_result(src)
}

/// A streaming Base64 encoder. Raw bytes are written in chunks of any
/// size; the encoding is pushed to the sink block by block, and `close`
/// pushes the last, padded block.
pub struct Base64Writer {
    base64: Base64,
    buf: Vec<u8>,
    closed: bool,
}

impl Base64Writer {
    #[verifier::type_invariant]
    spec fn holds_less_than_a_block(self) -> bool {
        self.buf@.len() < 3
    }

    /// The alphabet of the codec that the writer was made with.
    pub closed spec fn alphabet(&self) -> Alphabet {
        self.base64.alphabet()
    }

    /// The raw bytes held back until their block is complete.
    pub closed spec fn pending(&self) -> Seq<u8> {
        self.buf@
    }

    /// Whether `close` has been called.
    pub closed spec fn is_closed(&self) -> bool {
        self.closed
    }

    /// A writer that holds nothing back and is open.
    pub fn new(base64: Base64) -> (w: Base64Writer)
        ensures
            w.alphabet() == base64.alphabet(),
            w.pending() == Seq::<u8>::empty(),
            !w.is_closed(),
    {
        Base64Writer { base64, buf: Vec::new(), closed: false }
    }

    /// Takes one chunk of raw bytes and pushes the encoding of every block
    /// that is now complete to `sink`. Fails on a closed writer, which it
    /// leaves as it is.
    pub fn write(&mut self, buf: &[u8], sink: &mut Vec<u8>) -> (res: Result<(), CodecError>)
        ensures
            final(self).alphabet() == old(self).alphabet(),
            final(self).is_closed() == old(self).is_closed(),
            final(self).pending().len() < final(self).alphabet().block_raw(),
            old(self).is_closed() ==> res == Err::<(), CodecError>(CodecError::WriterClosed)
                && final(self).pending() == old(self).pending() && final(sink)@ == old(sink)@,
            !old(self).is_closed() ==> ({
                let step = write_step(old(self).alphabet(), old(self).pending(), buf@);
                &&& res == Ok::<(), CodecError>(())
                &&& final(sink)@ == old(sink)@ + step.0
                &&& final(self).pending() == step.1
            }),
    {
        proof {
            use_type_invariant(&*self);
        }
        if self.closed {
            return Err(CodecError::WriterClosed);
        }
        self.buf = write_blocks(&self.base64, self.buf.as_slice(), buf, sink);
        Ok(())
    }

    /// Pushes the bytes held back to `sink` as a last, padded block and
    /// closes the writer. Fails on a closed writer, which it leaves as it
    /// is.
    pub fn close(&mut self, sink: &mut Vec<u8>) -> (res: Result<(), CodecError>)
        ensures
            final(self).alphabet() == old(self).alphabet(),
            final(self).is_closed(),
            old(self).is_closed() ==> res == Err::<(), CodecError>(CodecError::WriterClosed)
                && final(self).pending() == old(self).pending() && final(sink)@ == old(sink)@,
            !old(self).is_closed() ==> ({
                &&& res == Ok::<(), CodecError>(())
                &&& final(sink)@ == old(sink)@ + close_step(
                    old(self).alphabet(),
                    old(self).pending(),
                )
                &&& final(self).pending() == Seq::<u8>::empty()
            }),
    {
        proof {
            use_type_invariant(&*self);
        }
        if self.closed {
            return Err(CodecError::WriterClosed);
        }
        close_blocks(&self.base64, self.buf.as_slice(), sink);
        self.buf = Vec::new();
        self.closed = true;
        Ok(())
    }
}

/// A streaming Base64 decoder. Encoded bytes are handed over as the source
/// gives them, in chunks of any size; decoded bytes are handed out in the
/// amounts asked for.
pub struct Base64Reader {
    base64: Base64,
    state: ReaderState,
}

impl View for Base64Reader {
    type V = ReaderView;

    closed spec fn view(&self) -> ReaderView {
        self.state@
    }
}

impl Base64Reader {
    #[verifier::type_invariant]
    spec fn state_is_sound(self) -> bool {
        reader_wf(self.base64.alphabet(), self.state@)
    }

    /// The alphabet of the codec that the reader was made with.
    pub closed spec fn alphabet(&self) -> Alphabet {
        self.base64.alphabet()
    }

    /// A reader that has read nothing.
    pub fn new(base64: Base64) -> (r: Base64Reader)
        ensures
            r.alphabet() == base64.alphabet(),
            r@ == reader_start(),
            reader_wf(r.alphabet(), r@),
    {
        Base64Reader { base64, state: ReaderState::new() }
    }

    /// How many encoded bytes to ask the source for before the next `read`
    /// of `len` bytes.
    pub fn wanted(&self, len: usize) -> (n: usize)
        ensures
            n == wanted(self.alphabet(), self@, len as int),
    {
        self.state.wanted(self.base64.letters(), len)
    }

    /// Takes in `input`, the bytes that the source gave, with `exhausted`
    /// telling whether the source has no more; then hands out up to `len`
    /// decoded bytes. A failed call leaves the reader as it was.
    pub fn read(&mut self, len: usize, input: &[u8], exhausted: bool) -> (res: Result<
        Vec<u8>,
        CodecError,
    >)
        ensures
            final(self).alphabet() == old(self).alphabet(),
            match read_step(old(self).alphabet(), old(self)@, len as int, input@, exhausted) {
                Err(e) => res == Err::<Vec<u8>, CodecError>(e) && final(self)@ == old(self)@,
                Ok((next, bytes)) => res is Ok && res->Ok_0@ == bytes && final(self)@ == next,
            },
            reader_wf(final(self).alphabet(), final(self)@),
            res is Ok && final(self)@.queue.len() > 0 ==> res->Ok_0@.len() == len,
    {
        proof {
            use_type_invariant(&*self);
        }
        match read_blocks(&self.base64, &self.state, len, input, exhausted) {
            Err(e) => Err(e),
            Ok((next, bytes)) => {
                self.state = next;
                Ok(bytes)
            },
        }
    }

    /// Whether nothing more will come out: no decoded byte is waiting, and
    /// the message has ended or the source is exhausted.
    pub fn eof(&self) -> (b: bool)
        ensures
            b == at_eof(self@),
    {
        self.state.eof()
    }
}

} // verus!
