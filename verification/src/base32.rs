//! Base32 with the standard and the extended-hex alphabet: blocks of five
//! raw bytes against groups of eight symbols.

use vstd::prelude::*;
use crate::alphabet::{Alphabet, PAD};
use crate::error::CodecError;
use crate::model::{
    block_number,
    decoded,
    encode_block,
    encoded,
    encoded_len,
    group_number,
    group_value,
    lemma_encoded_len,
    lemma_encoded_step,
    unpack,
    whole_blocks,
};
use crate::scan::{decode_all, decode_into, group_values};
use crate::stream::{
    at_eof,
    close_blocks,
    close_step,
    read_blocks,
    read_step,
    reader_start,
    reader_wf,
    wanted,
    write_blocks,
    write_step,
    ReaderState,
    ReaderView,
};
use crate::util::{BinaryDecoder, BinaryEncoder, DecodeResult, GroupDecoder, Lettered};

verus! {

/// Which of the two Base32 alphabets to use.
#[derive(Clone, Copy, Debug, PartialEq, Eq, Structural)]
pub enum Base32Type {
    Standard,
    Hex,
}

impl Base32Type {
    /// The alphabet that the variant names.
    pub open spec fn alphabet(self) -> Alphabet {
        match self {
            Base32Type::Standard => Alphabet::Base32Std,
            Base32Type::Hex => Alphabet::Base32Hex,
        }
    }

    /// Executable form of [`Base32Type::alphabet`].
    pub fn letters(self) -> (a: Alphabet)
        ensures
            a == self.alphabet(),
    {
        match self {
            Base32Type::Standard => Alphabet::Base32Std,
            Base32Type::Hex => Alphabet::Base32Hex,
        }
    }
}

/// A Base32 codec: one alphabet with its two lookup tables.
pub struct Base32 {
    kind: Base32Type,
    table: [u8; 32],
    decode_map: [u8; 256],
}

/// The forty bits of a block, cut into eight groups of five.
proof fn lemma_cut40(b0: u8, b1: u8, b2: u8, b3: u8, b4: u8, n: u64)
    by (bit_vector)
    requires
        n == (b0 as u64) << 32 | (b1 as u64) << 24 | (b2 as u64) << 16 | (b3 as u64) << 8 | (
        b4 as u64),
    ensures
        n == (b0 as u64) * 0x1_0000_0000 + (b1 as u64) * 0x100_0000 + (b2 as u64) * 0x1_0000 + (
        b3 as u64) * 0x100 + (b4 as u64),
        (n >> 35) & 0x1f == (n / 0x8_0000_0000) % 32,
        (n >> 30) & 0x1f == (n / 0x4000_0000) % 32,
        (n >> 25) & 0x1f == (n / 0x200_0000) % 32,
        (n >> 20) & 0x1f == (n / 0x10_0000) % 32,
        (n >> 15) & 0x1f == (n / 0x8000) % 32,
        (n >> 10) & 0x1f == (n / 0x400) % 32,
        (n >> 5) & 0x1f == (n / 0x20) % 32,
        n & 0x1f == n % 32,
{
}

impl Lettered for Base32 {
    closed spec fn alphabet(&self) -> Alphabet {
        self.kind.alphabet()
    }

    fn letters(&self) -> (a: Alphabet) {
        self.kind.letters()
    }
}

impl Base32 {
    #[verifier::type_invariant]
    spec fn tables_match(self) -> bool {
        &&& forall|v: int| 0 <= v < 32 ==> #[trigger] self.table@[v] == self.kind.alphabet().forward(v)
        &&& forall|c: u8| #[trigger] self.decode_map@[c as int] == self.kind.alphabet().inverse(c)
    }

    /// Builds the codec for one alphabet: the table of its thirty-two
    /// symbols and the decode map made from it.
    pub fn new(kind: Base32Type) -> (codec: Base32)
        ensures
            codec.alphabet() == kind.alphabet(),
    {
        let a = kind.letters();
        let mut table: [u8; 32] = [0u8; 32];
        let mut v: u8 = 0;
        while v < 32
            invariant
                v <= 32,
                a == kind.alphabet(),
                forall|w: int| 0 <= w < v ==> #[trigger] table@[w] == a.forward(w),
            decreases 32 - v,
        {
            table[v as usize] = a.symbol(v);
            v += 1;
        }
        Base32 { kind, table, decode_map: a.decode_map() }
    }

    /// The symbol that the table holds for group value `v`.
    pub fn symbol(&self, v: u8) -> (c: u8)
        requires
            v < 32,
        ensures
            c == self.alphabet().forward(v as int),
    {
        proof {
            use_type_invariant(self);
        }
        self.table[v as usize]
    }

    /// The entry of the decode map for byte `c`: its group value, or
    /// `INVALID` where `c` is not part of the alphabet.
    pub fn value(&self, c: u8) -> (v: u8)
        ensures
            v == self.alphabet().inverse(c),
    {
        proof {
            use_type_invariant(self);
        }
        self.decode_map[c as usize]
    }

    /// The variant that the codec was built for.
    pub fn kind(&self) -> (kind: Base32Type)
        ensures
            kind.alphabet() == self.alphabet(),
    {
        self.kind
    }

    /// The group of eight symbols for the block of `r` bytes at `src[i..]`.
#[verifier::rlimit(30)]
    fn group(&self, src: &[u8], i: usize, r: usize) -> (g: [u8; 8])
        requires
            1 <= r <= 5,
            i + r <= src@.len(),
        ensures
            g@ == encode_block(self.alphabet(), src@.subrange(i as int, i + r)),
    {
        proof {
            use_type_invariant(self);
        }
        let ghost a = self.alphabet();
        let ghost blk = src@.subrange(i as int, i + r);
        let b0: u8 = src[i];
        let b1: u8 = if r > 1 { src[i + 1] } else { 0 };
        let b2: u8 = if r > 2 { src[i + 2] } else { 0 };
        let b3: u8 = if r > 3 { src[i + 3] } else { 0 };
        let b4: u8 = if r > 4 { src[i + 4] } else { 0 };
        let n: u64 = (b0 as u64) << 32 | (b1 as u64) << 24 | (b2 as u64) << 16 | (b3 as u64) << 8
            | (b4 as u64);
        proof {
            lemma_cut40(b0, b1, b2, b3, b4, n);
            assert(n == block_number(a, blk));
        }
        let v0: u8 = ((n >> 35) & 0x1f) as u8;
        let v1: u8 = ((n >> 30) & 0x1f) as u8;
        let v2: u8 = ((n >> 25) & 0x1f) as u8;
        let v3: u8 = ((n >> 20) & 0x1f) as u8;
        let v4: u8 = ((n >> 15) & 0x1f) as u8;
        let v5: u8 = ((n >> 10) & 0x1f) as u8;
        let v6: u8 = ((n >> 5) & 0x1f) as u8;
        let v7: u8 = (n & 0x1f) as u8;
        proof {
            assert(v0 == group_value(a, blk, 0));
            assert(v1 == group_value(a, blk, 1));
            assert(v2 == group_value(a, blk, 2));
            assert(v3 == group_value(a, blk, 3));
            assert(v4 == group_value(a, blk, 4));
            assert(v5 == group_value(a, blk, 5));
            assert(v6 == group_value(a, blk, 6));
            assert(v7 == group_value(a, blk, 7));
        }
        let g: [u8; 8] = [
            self.table[v0 as usize],
            self.table[v1 as usize],
            if r > 1 { self.table[v2 as usize] } else { PAD },
            if r > 1 { self.table[v3 as usize] } else { PAD },
            if r > 2 { self.table[v4 as usize] } else { PAD },
            if r > 3 { self.table[v5 as usize] } else { PAD },
            if r > 3 { self.table[v6 as usize] } else { PAD },
            if r > 4 { self.table[v7 as usize] } else { PAD },
        ];
        proof {
            assert(g@ =~= encode_block(a, blk));
        }
        g
    }
}

impl BinaryEncoder for Base32 {
#[verifier::rlimit(30)]
    fn encode(&self, dst: &mut Vec<u8>, src: &[u8]) {
        let ghost a = self.alphabet();
        let len = src.len();
        let mut i: usize = 0;
        while i < len
            invariant
                a == self.alphabet(),
                a.block_raw() == 5,
                len == src@.len(),
                i <= len,
                i % 5 == 0 || i == len,
                dst@ == old(dst)@ + encoded(a, src@.take(i as int)),
            decreases len - i,
        {
            let remain = len - i;
            let r: usize = if remain > 5 { 5 } else { remain };
            let g = self.group(src, i, r);
            let ghost before = dst@;
            dst.extend_from_slice(g.as_slice());
            proof {
                assert(dst@ =~= before + g@);
                assert(whole_blocks(a, i as int) == i);
                lemma_encoded_step(a, src@, i as int, r as int);
                assert(before + g@ =~= old(dst)@ + (encoded(a, src@.take(i as int)) + g@));
            }
            i += r;
        }
        proof {
            assert(src@.take(len as int) =~= src@);
        }
    }

    fn encoded_len(&self, src_length: usize) -> (n: usize) {
        (src_length / 5 + (if src_length % 5 == 0 { 0 } else { 1 })) * 8
    }

    fn encode_bytes(&self, src: &[u8]) -> (dst: Vec<u8>) {
        let mut dst: Vec<u8> = Vec::new();
        self.encode(&mut dst, src);
        proof {
            lemma_encoded_len(self.alphabet(), src@);
            assert(Seq::<u8>::empty() + encoded(self.alphabet(), src@) =~= encoded(
                self.alphabet(),
                src@,
            ));
        }
        dst
    }
}

/// Eight groups of five bits, joined into the forty bits of a block.
proof fn lemma_join40(v0: u8, v1: u8, v2: u8, v3: u8, v4: u8, v5: u8, v6: u8, v7: u8, n: u64)
    by (bit_vector)
    requires
        v0 < 32 && v1 < 32 && v2 < 32 && v3 < 32 && v4 < 32 && v5 < 32 && v6 < 32 && v7 < 32,
        n == (v0 as u64) << 35 | (v1 as u64) << 30 | (v2 as u64) << 25 | (v3 as u64) << 20 | (
        v4 as u64) << 15 | (v5 as u64) << 10 | (v6 as u64) << 5 | (v7 as u64),
    ensures
        n == (v0 as u64) * 0x8_0000_0000 + (v1 as u64) * 0x4000_0000 + (v2 as u64) * 0x200_0000
            + (v3 as u64) * 0x10_0000 + (v4 as u64) * 0x8000 + (v5 as u64) * 0x400 + (v6 as u64)
            * 0x20 + (v7 as u64),
        (n >> 32) & 0xff == (n / 0x1_0000_0000) % 256,
        (n >> 24) & 0xff == (n / 0x100_0000) % 256,
        (n >> 16) & 0xff == (n / 0x1_0000) % 256,
        (n >> 8) & 0xff == (n / 0x100) % 256,
        n & 0xff == n % 256,
{
}

impl GroupDecoder for Base32 {
#[verifier::rlimit(30)]
    fn decode_group(&self, dst: &mut Vec<u8>, group: &[u8]) -> (res: Result<bool, CodecError>) {
        proof {
            use_type_invariant(self);
        }
        let a = self.kind.letters();
        match group_values(a, &self.decode_map, group) {
            Err(e) => Err(e),
            Ok((vals, n)) => {
                let num: u64 = (vals[0] as u64) << 35 | (vals[1] as u64) << 30 | (vals[2] as u64)
                    << 25 | (vals[3] as u64) << 20 | (vals[4] as u64) << 15 | (vals[5] as u64)
                    << 10 | (vals[6] as u64) << 5 | (vals[7] as u64);
                proof {
                    lemma_join40(
                        vals@[0],
                        vals@[1],
                        vals@[2],
                        vals@[3],
                        vals@[4],
                        vals@[5],
                        vals@[6],
                        vals@[7],
                        num,
                    );
                    assert(num == group_number(a, group@, n as int));
                }
                let ghost before = dst@;
                dst.push(((num >> 32) & 0xff) as u8);
                if n > 2 {
                    dst.push(((num >> 24) & 0xff) as u8);
                }
                if n > 4 {
                    dst.push(((num >> 16) & 0xff) as u8);
                }
                if n > 5 {
                    dst.push(((num >> 8) & 0xff) as u8);
                }
                if n > 7 {
                    dst.push((num & 0xff) as u8);
                }
                proof {
                    assert(dst@ =~= before + unpack(a, group@, n as int));
                }
                Ok(n < 8)
            },
        }
    }

}

impl BinaryDecoder for Base32 {
    fn decode(&self, dst: &mut Vec<u8>, src: &[u8]) -> (res: Result<DecodeResult, CodecError>) {
        decode_into(self, dst, src)
    }

    fn decoded_len(&self, src_length: usize) -> (n: usize) {
        src_length / 8 * 5
    }

    fn decode_bytes(&self, src: &[u8]) -> (res: Result<Vec<u8>, CodecError>) {
        decode_all(self, src)
    }
}

impl Base32Type {
    /// The encoding of `src` in this alphabet.
    pub fn encode(self, src: &[u8]) -> (dst: Vec<u8>)
        ensures
            dst@ == encoded(self.alphabet(), src@),
            dst@.len() == encoded_len(self.alphabet(), src@.len() as int),
    {
        Base32::new(self).encode_bytes(src)
    }

    /// The bytes that `src` decodes to in this alphabet, or the reason why
    /// it does not decode.
    pub fn decode(self, src: &[u8]) -> (res: Result<Vec<u8>, CodecError>)
        ensures
            match decoded(self.alphabet(), src@) {
                Ok(bytes) => res is Ok && res->Ok_0@ == bytes,
                Err(e) => res == Err::<Vec<u8>, CodecError>(e),
            },
    {
        self.decode_result(src)
    }

    /// The bytes that `src` decodes to in this alphabet, or the reason why
    /// it does not decode.
    pub fn decode_result(self, src: &[u8]) -> (res: Result<Vec<u8>, CodecError>)
        ensures
            match decoded(self.alphabet(), src@) {
                Ok(bytes) => res is Ok && res->Ok_0@ == bytes,
                Err(e) => res == Err::<Vec<u8>, CodecError>(e),
            },
    {
        Base32::new(self).decode_bytes(src)
    }
}

/// Encodes `src` with the standard Base32 alphabet.
pub fn encode(src: &[u8]) -> (dst: Vec<u8>)
    ensures
        dst@ == encoded(Alphabet::Base32Std, src@),
        dst@.len() == encoded_len(Alphabet::Base32Std, src@.len() as int),
{
    Base32Type::Standard.encode(src)
}

/// Encodes `src` with the extended-hex Base32 alphabet.
pub fn hex_encode(src: &[u8]) -> (dst: Vec<u8>)
    ensures
        dst@ == encoded(Alphabet::Base32Hex, src@),
        dst@.len() == encoded_len(Alphabet::Base32Hex, src@.len() as int),
{
    Base32Type::Hex.encode(src)
}

/// Decodes `src` with the standard Base32 alphabet.
pub fn decode(src: &[u8]) -> (res: Result<Vec<u8>, CodecError>)
    ensures
        match decoded(Alphabet::Base32Std, src@) {
            Ok(bytes) => res is Ok && res->Ok_0@ == bytes,
            Err(e) => res == Err::<Vec<u8>, CodecError>(e),
        },
{
    Base32Type::Standard.decode_result(src)
}

/// Decodes `src` with the extended-hex Base32 alphabet.
pub fn hex_decode(src: &[u8]) -> (res: Result<Vec<u8>, CodecError>)
    ensures
        match decoded(Alphabet::Base32Hex, src@) {
            Ok(bytes) => res is Ok && res->Ok_0@ == bytes,
            Err(e) => res == Err::<Vec<u8>, CodecError>(e),
        },
{
    Base32Type::Hex.decode_result(src)
}

/// A streaming Base32 encoder. Raw bytes are written in chunks of any
/// size; the encoding is pushed to the sink block by block, and `close`
/// pushes the last, padded block.
pub struct Base32Writer {
    base32: Base32,
    buf: Vec<u8>,
    closed: bool,
}

impl Base32Writer {
    #[verifier::type_invariant]
    spec fn holds_less_than_a_block(self) -> bool {
        self.buf@.len() < 5
    }

    /// The alphabet of the codec that the writer was made with.
    pub closed spec fn alphabet(&self) -> Alphabet {
        self.base32.alphabet()
    }

    /// The raw bytes held back until their block is complete.
    pub closed spec fn pending(&self) -> Seq<u8> {
        self.buf@
    }

    /// Whether `close` has been called.
    pub closed spec fn is_closed(&self) -> bool {
        self.closed
    }

    /// A writer that holds nothing back and is open.
    pub fn new(base32: Base32) -> (w: Base32Writer)
        ensures
            w.alphabet() == base32.alphabet(),
            w.pending() == Seq::<u8>::empty(),
            !w.is_closed(),
    {
        Base32Writer { base32, buf: Vec::new(), closed: false }
    }

    /// Takes one chunk of raw bytes and pushes the encoding of every block
    /// that is now complete to `sink`. Fails on a closed writer, which it
    /// leaves as it is.
    pub fn write(&mut self, buf: &[u8], sink: &mut Vec<u8>) -> (res: Result<(), CodecError>)
        ensures
            final(self).alphabet() == old(self).alphabet(),
            final(self).is_closed() == old(self).is_closed(),
            final(self).pending().len() < final(self).alphabet().block_raw(),
            old(self).is_closed() ==> res == Err::<(), CodecError>(CodecError::WriterClosed)
                && final(self).pending() == old(self).pending() && final(sink)@ == old(sink)@,
            !old(self).is_closed() ==> ({
                let step = write_step(old(self).alphabet(), old(self).pending(), buf@);
                &&& res == Ok::<(), CodecError>(())
                &&& final(sink)@ == old(sink)@ + step.0
                &&& final(self).pending() == step.1
            }),
    {
        proof {
            use_type_invariant(&*self);
        }
        if self.closed {
            return Err(CodecError::WriterClosed);
        }
        self.buf = write_blocks(&self.base32, self.buf.as_slice(), buf, sink);
        Ok(())
    }

    /// Pushes the bytes held back to `sink` as a last, padded block and
    /// closes the writer. Fails on a closed writer, which it leaves as it
    /// is.
    pub fn close(&mut self, sink: &mut Vec<u8>) -> (res: Result<(), CodecError>)
        ensures
            final(self).alphabet() == old(self).alphabet(),
            final(self).is_closed(),
            old(self).is_closed() ==> res == Err::<(), CodecError>(CodecError::WriterClosed)
                && final(self).pending() == old(self).pending() && final(sink)@ == old(sink)@,
            !old(self).is_closed() ==> ({
                &&& res == Ok::<(), CodecError>(())
                &&& final(sink)@ == old(sink)@ + close_step(
                    old(self).alphabet(),
                    old(self).pending(),
                )
                &&& final(self).pending() == Seq::<u8>::empty()
            }),
    {
        proof {
            use_type_invariant(&*self);
        }
        if self.closed {
            return Err(CodecError::WriterClosed);
        }
        close_blocks(&self.base32, self.buf.as_slice(), sink);
        self.buf = Vec::new();
        self.closed = true;
        Ok(())
    }
}

/// A streaming Base32 decoder. Encoded bytes are handed over as the source
/// gives them, in chunks of any size; decoded bytes are handed out in the
/// amounts asked for.
pub struct Base32Reader {
    base32: Base32,
    state: ReaderState,
}

impl View for Base32Reader {
    type V = ReaderView;

    closed spec fn view(&self) -> ReaderView {
        self.state@
    }
}

impl Base32Reader {
    #[verifier::type_invariant]
    spec fn state_is_sound(self) -> bool {
        reader_wf(self.base32.alphabet(), self.state@)
    }

    /// The alphabet of the codec that the reader was made with.
    pub closed spec fn alphabet(&self) -> Alphabet {
        self.base32.alphabet()
    }

    /// A reader that has read nothing.
    pub fn new(base32: Base32) -> (r: Base32Reader)
        ensures
            r.alphabet() == base32.alphabet(),
            r@ == reader_start(),
            reader_wf(r.alphabet(), r@),
    {
        Base32Reader { base32, state: ReaderState::new() }
    }

    /// How many encoded bytes to ask the source for before the next `read`
    /// of `len` bytes.
    pub fn wanted(&self, len: usize) -> (n: usize)
        ensures
            n == wanted(self.alphabet(), self@, len as int),
    {
        self.state.wanted(self.base32.letters(), len)
    }

    /// Takes in `input`, the bytes that the source gave, with `exhausted`
    /// telling whether the source has no more; then hands out up to `len`
    /// decoded bytes. A failed call leaves the reader as it was.
    pub fn read(&mut self, len: usize, input: &[u8], exhausted: bool) -> (res: Result<
        Vec<u8>,
        CodecError,
    >)
        ensures
            final(self).alphabet() == old(self).alphabet(),
            match read_step(old(self).alphabet(), old(self)@, len as int, input@, exhausted) {
                Err(e) => res == Err::<Vec<u8>, CodecError>(e) && final(self)@ == old(self)@,
                Ok((next, bytes)) => res is Ok && res->Ok_0@ == bytes && final(self)@ == next,
            },
            reader_wf(final(self).alphabet(), final(self)@),
            res is Ok && final(self)@.queue.len() > 0 ==> res->Ok_0@.len() == len,
    {
        proof {
            use_type_invariant(&*self);
        }
        match read_blocks(&self.base32, &self.state, len, input, exhausted) {
            Err(e) => Err(e),
            Ok((next, bytes)) => {
                self.state = next;
                Ok(bytes)
            },
        }
    }

    /// Whether nothing more will come out: no decoded byte is waiting, and
    /// the message has ended or the source is exhausted.
    pub fn eof(&self) -> (b: bool)
        ensures
            b == at_eof(self@),
    {
        self.state.eof()
    }
}

} // verus!
