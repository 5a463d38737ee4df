//! RFC 4648 binary-to-text codecs: Base16, Base32 and Base64, one-shot and
//! streaming, with their behaviour stated in contracts and proved.

pub mod alphabet;
pub mod error;
pub mod laws;
pub mod model;
pub mod util;
pub mod scan;
pub mod stream;
pub mod base16;
pub mod base32;
pub mod base64;
pub mod binary;
