//! Picking a codec by name: one value for each of the five encodings, and
//! the interfaces through which bytes and strings are encoded with it.

use vstd::prelude::*;
use vstd::string::StringSliceAdditionalSpecFns;
use crate::alphabet::Alphabet;
use crate::error::CodecError;
use crate::model::{decoded, encoded};
use crate::util::Lettered;

verus! {

/// Encodes raw bytes.
pub trait Encode: Lettered {
    /// The encoding of `buf`.
    fn encode(&self, buf: &[u8]) -> (out: Vec<u8>)
        ensures
            out@ == encoded(self.alphabet(), buf@),
    ;
}

/// Decodes symbols.
pub trait Decode: Lettered {
    /// The bytes that `buf` decodes to, or the reason why it does not.
    fn decode(&self, buf: &[u8]) -> (res: Result<Vec<u8>, CodecError>)
        ensures
            match decoded(self.alphabet(), buf@) {
                Ok(bytes) => res is Ok && res->Ok_0@ == bytes,
                Err(e) => res == Err::<Vec<u8>, CodecError>(e),
            },
    ;
}

/// What converting `buf` from one encoding to another gives: `buf` is
/// decoded with `from`, and the result is encoded with `to`.
pub open spec fn converted(buf: Seq<u8>, to: Alphabet, from: Alphabet) -> Result<
    Seq<u8>,
    CodecError,
> {
    match decoded(from, buf) {
        Ok(bytes) => Ok(encoded(to, bytes)),
        Err(e) => Err(e),
    }
}

/// Re-encodes symbols.
pub trait Convert: Lettered + Sized {
    /// Decodes `buf` with `from` and encodes the result with `to`.
    fn convert(buf: &[u8], to: Self, from: Self) -> (res: Result<Vec<u8>, CodecError>)
        ensures
            match converted(buf@, to.alphabet(), from.alphabet()) {
                Ok(bytes) => res is Ok && res->Ok_0@ == bytes,
                Err(e) => res == Err::<Vec<u8>, CodecError>(e),
            },
    ;
}

/// A codec that encodes, decodes and converts.
pub trait Codec: Encode + Decode + Convert {

}

/// The five encodings by name.
#[derive(Clone, Copy, Debug, PartialEq, Eq, Structural)]
pub enum Binary {
    Base16,
    Base32,
    Base64,
    Base32Hex,
    Base64Url,
}

impl Lettered for Binary {
    open spec fn alphabet(&self) -> Alphabet {
        match self {
            Binary::Base16 => Alphabet::Hex,
            Binary::Base32 => Alphabet::Base32Std,
            Binary::Base64 => Alphabet::Base64Std,
            Binary::Base32Hex => Alphabet::Base32Hex,
            Binary::Base64Url => Alphabet::Base64Url,
        }
    }

    fn letters(&self) -> (a: Alphabet) {
        match self {
            Binary::Base16 => Alphabet::Hex,
            Binary::Base32 => Alphabet::Base32Std,
            Binary::Base64 => Alphabet::Base64Std,
            Binary::Base32Hex => Alphabet::Base32Hex,
            Binary::Base64Url => Alphabet::Base64Url,
        }
    }
}

impl Encode for Binary {
    fn encode(&self, buf: &[u8]) -> (out: Vec<u8>) {
        match self {
            Binary::Base16 => crate::base16::encode(buf),
            Binary::Base32 => crate::base32::encode(buf),
            Binary::Base64 => crate::base64::encode(buf),
            Binary::Base32Hex => crate::base32::hex_encode(buf),
            Binary::Base64Url => crate::base64::urlsafe_encode(buf),
        }
    }
}

impl Decode for Binary {
    fn decode(&self, buf: &[u8]) -> (res: Result<Vec<u8>, CodecError>) {
        match self {
            Binary::Base16 => crate::base16::decode(buf),
            Binary::Base32 => crate::base32::decode(buf),
            Binary::Base64 => crate::base64::decode(buf),
            Binary::Base32Hex => crate::base32::hex_decode(buf),
            Binary::Base64Url => crate::base64::urlsafe_decode(buf),
        }
    }
}

impl Convert for Binary {
    fn convert(buf: &[u8], to: Binary, from: Binary) -> (res: Result<Vec<u8>, CodecError>) {
        match from.decode(buf) {
            Ok(bytes) => Ok(to.encode(bytes.as_slice())),
            Err(e) => Err(e),
        }
    }
}

impl Codec for Binary {

}

/// Encoding, decoding and converting as methods of the data: of a slice of
/// bytes, and of a string, which stands for its bytes.
pub trait BinaryCodec<T: Codec> {
    /// The bytes that the value stands for.
    spec fn content(&self) -> Seq<u8>;

    /// The encoding of the value with `encoder`.
    fn encode(&self, encoder: T) -> (out: Vec<u8>)
        ensures
            out@ == encoded(encoder.alphabet(), self.content()),
    ;

    /// The bytes that the value decodes to with `decoder`.
    fn decode(&self, decoder: T) -> (res: Result<Vec<u8>, CodecError>)
        ensures
            match decoded(decoder.alphabet(), self.content()) {
                Ok(bytes) => res is Ok && res->Ok_0@ == bytes,
                Err(e) => res == Err::<Vec<u8>, CodecError>(e),
            },
    ;

    /// The value decoded with `from` and encoded again with `to`.
    fn convert(&self, to: T, from: T) -> (res: Result<Vec<u8>, CodecError>)
        ensures
            match converted(self.content(), to.alphabet(), from.alphabet()) {
                Ok(bytes) => res is Ok && res->Ok_0@ == bytes,
                Err(e) => res == Err::<Vec<u8>, CodecError>(e),
            },
    ;
}

impl<T: Codec> BinaryCodec<T> for [u8] {
    open spec fn content(&self) -> Seq<u8> {
        self@
    }

    fn encode(&self, encoder: T) -> (out: Vec<u8>) {
        encoder.encode(self)
    }

    fn decode(&self, decoder: T) -> (res: Result<Vec<u8>, CodecError>) {
        decoder.decode(self)
    }

    fn convert(&self, to: T, from: T) -> (res: Result<Vec<u8>, CodecError>) {
        T::convert(self, to, from)
    }
}

impl<T: Codec> BinaryCodec<T> for str {
    open spec fn content(&self) -> Seq<u8> {
        self.spec_bytes()
    }

    fn encode(&self, encoder: T) -> (out: Vec<u8>) {
        encoder.encode(self.as_bytes())
    }

    fn decode(&self, decoder: T) -> (res: Result<Vec<u8>, CodecError>) {
        decoder.decode(self.as_bytes())
    }

    fn convert(&self, to: T, from: T) -> (res: Result<Vec<u8>, CodecError>) {
        T::convert(self.as_bytes(), to, from)
    }
}

} // verus!
