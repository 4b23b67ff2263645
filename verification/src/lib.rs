//! Base64 transcoding between raw bytes and printable text, verified with Verus.
//!
//! [`encode`] maps any byte sequence to text over the alphabet `A`-`Z`, `a`-`z`, `0`-`9`,
//! `+`, `/` and the pad character `=`; [`decode`] maps such text back and refuses anything
//! else. The contracts state both as functions on sequences, and the module `laws` proves
//! that decoding undoes encoding.

pub mod alphabet;
pub mod decode;
pub mod encode;
pub mod error;
pub mod laws;
pub mod quad;
pub mod triplet;

pub use crate::alphabet::{base64_to_char, base64char_to_byte, Symbol};
pub use crate::decode::decode;
pub use crate::encode::encode;
pub use crate::error::Base64Error;
pub use crate::quad::base64char_x4_to_rawbytes;
pub use crate::triplet::rawbyte_x3_to_base64_x4;
