//! What the block codecs have in common: the outcome of a decoding pass and
//! the two interfaces that each codec offers.

use vstd::prelude::*;
use crate::alphabet::Alphabet;
use crate::error::CodecError;
use crate::model::{decode_group, decode_pass, decoded, decoded_len, encoded, encoded_len};

verus! {

/// Outcome of a decoding pass. `end` tells whether a padded group ended the
/// message; `ndecoded` is the number of raw bytes written.
#[derive(Clone, Copy, Debug, PartialEq, Eq, Structural)]
pub struct DecodeResult {
    pub end: bool,
    pub ndecoded: usize,
}

/// A codec is bound to one alphabet.
pub trait Lettered {
    /// The alphabet whose tables the codec holds.
    spec fn alphabet(&self) -> Alphabet;

    /// Executable form of [`Lettered::alphabet`].
    fn letters(&self) -> (a: Alphabet)
        ensures
            a == self.alphabet(),
    ;
}

/// Turns raw bytes into symbols.
pub trait BinaryEncoder: Lettered {
    /// Appends the encoding of `src` to `dst`.
    fn encode(&self, dst: &mut Vec<u8>, src: &[u8])
        ensures
            final(dst)@ == old(dst)@ + encoded(self.alphabet(), src@),
    ;

    /// Length of the encoding of `src_length` raw bytes.
    fn encoded_len(&self, src_length: usize) -> (n: usize)
        requires
            encoded_len(self.alphabet(), src_length as int) <= usize::MAX,
        ensures
            n == encoded_len(self.alphabet(), src_length as int),
    ;

    /// The encoding of `src`; its length is what the length formula gives.
    fn encode_bytes(&self, src: &[u8]) -> (dst: Vec<u8>)
        ensures
            dst@ == encoded(self.alphabet(), src@),
            dst@.len() == encoded_len(self.alphabet(), src@.len() as int),
    ;
}

/// Decodes single groups; the decoding pass is built on this.
pub trait GroupDecoder: Lettered {
    /// Decodes one group of `block_encoded` symbols. On success its bytes
    /// are appended to `dst` and the result tells whether the group was
    /// padded; on failure `dst` is left as it was.
    fn decode_group(&self, dst: &mut Vec<u8>, group: &[u8]) -> (res: Result<bool, CodecError>)
        requires
            group@.len() == self.alphabet().block_encoded(),
        ensures
            match decode_group(self.alphabet(), group@) {
                Ok((bytes, end)) => res == Ok::<bool, CodecError>(end) && final(dst)@ == old(dst)@
                    + bytes,
                Err(e) => res == Err::<bool, CodecError>(e) && final(dst)@ == old(dst)@,
            },
    ;
}

/// Turns symbols back into raw bytes.
pub trait BinaryDecoder: Lettered {
    /// One decoding pass over `src`. On success the decoded bytes are
    /// appended to `dst` and counted in the result; on failure `dst` is left
    /// as it was.
    fn decode(&self, dst: &mut Vec<u8>, src: &[u8]) -> (res: Result<DecodeResult, CodecError>)
        ensures
            match decode_pass(self.alphabet(), src@) {
                Ok((bytes, end)) => res == Ok::<DecodeResult, CodecError>(
                    (DecodeResult { end, ndecoded: bytes.len() as usize }),
                ) && final(dst)@ == old(dst)@ + bytes,
                Err(e) => res == Err::<DecodeResult, CodecError>(e) && final(dst)@ == old(dst)@,
            },
    ;

    /// An upper bound on the number of bytes that `src_length` input bytes
    /// decode to.
    fn decoded_len(&self, src_length: usize) -> (n: usize)
        ensures
            n == decoded_len(self.alphabet(), src_length as int),
    ;

    /// The bytes that `src` decodes to, or the reason why it does not.
    fn decode_bytes(&self, src: &[u8]) -> (res: Result<Vec<u8>, CodecError>)
        ensures
            match decoded(self.alphabet(), src@) {
                Ok(bytes) => res is Ok && res->Ok_0@ == bytes,
                Err(e) => res == Err::<Vec<u8>, CodecError>(e),
            },
    ;
}

} // verus!
