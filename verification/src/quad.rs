//! Unpacking four characters into up to three bytes, and the shape of well-formed text.

use vstd::prelude::*;
use crate::alphabet::{base64char_to_byte, char_sextet, is_data_char, pad_char};
use crate::error::Base64Error;

verus! {

/// How many pad characters end the text, where no more than two count.
pub open spec fn trailing_pads(s: Seq<char>) -> nat {
    if s.len() >= 1 && s[s.len() - 1] == pad_char() {
        if s.len() >= 2 && s[s.len() - 2] == pad_char() {
            2
        } else {
            1
        }
    } else {
        0
    }
}

/// Text that the decoder accepts: whole groups of four, made of data characters up to one
/// or two pad characters at the very end. A pad character anywhere else, or a third one,
/// makes the text ill-formed.
pub open spec fn well_formed(s: Seq<char>) -> bool {
    &&& s.len() % 4 == 0
    &&& forall|i: int| 0 <= i < s.len() - trailing_pads(s) ==> is_data_char(#[trigger] s[i])
}

/// What a character adds to the number of its group: its six-bit value, or nothing where
/// it is the pad character.
pub open spec fn char_value(c: char) -> int {
    if is_data_char(c) {
        char_sextet(c)
    } else {
        0
    }
}

/// The 24-bit number whose six-bit fields, most significant first, are the values of the
/// four characters.
pub open spec fn quad_value(q: Seq<char>) -> int
    recommends
        q.len() == 4,
{
    char_value(q[0]) * 0x4_0000 + char_value(q[1]) * 0x1000 + char_value(q[2]) * 0x40 + char_value(
        q[3],
    )
}

/// The `m`-th byte of a 24-bit number, counted from the most significant one.
pub open spec fn octet_of(n: int, m: int) -> int
    recommends
        0 <= m < 3,
{
    if m == 0 {
        (n / 0x1_0000) % 256
    } else if m == 1 {
        (n / 0x100) % 256
    } else {
        n % 256
    }
}

/// The bytes of a well-formed group of four characters: the leading bytes of its number,
/// one fewer for each pad character. Bits of the last data character that reach beyond
/// those bytes are not looked at.
pub open spec fn unpacked(q: Seq<char>) -> Seq<u8>
    recommends
        q.len() == 4,
        well_formed(q),
{
    Seq::new((3 - trailing_pads(q)) as nat, |m: int| octet_of(quad_value(q), m) as u8)
}

/// The outcome of unpacking one group: refused for its length unless it has four
/// characters, refused for a character unless it is well-formed, its bytes otherwise.
pub open spec fn unpack_quad(q: Seq<char>) -> Result<Seq<u8>, Base64Error> {
    if q.len() != 4 {
        Err(Base64Error::InvalidLength)
    } else if !well_formed(q) {
        Err(Base64Error::InvalidCharacter)
    } else {
        Ok(unpacked(q))
    }
}

/// The bytes of the number made of four six-bit values, each written with the bit
/// operations that put it together from those values.
proof fn lemma_octets_as_bits(s0: u8, s1: u8, s2: u8, s3: u8)
    requires
        s0 < 64,
        s1 < 64,
        s2 < 64,
        s3 < 64,
    ensures
        octet_of(s0 * 0x4_0000 + s1 * 0x1000 + s2 * 0x40 + s3, 0) == ((s0 & 0x3f) << 2) + ((s1
            & 0x30) >> 4),
        octet_of(s0 * 0x4_0000 + s1 * 0x1000 + s2 * 0x40 + s3, 1) == ((s1 & 0x0f) << 4) + ((s2
            & 0x3c) >> 2),
        octet_of(s0 * 0x4_0000 + s1 * 0x1000 + s2 * 0x40 + s3, 2) == ((s2 & 0x03) << 6) + (s3
            & 0x3f),
        ((s0 & 0x3f) << 2) + ((s1 & 0x30) >> 4) < 256,
        ((s1 & 0x0f) << 4) + ((s2 & 0x3c) >> 2) < 256,
        ((s2 & 0x03) << 6) + (s3 & 0x3f) < 256,
{
    let n: u32 = (s0 as u32 * 0x4_0000 + s1 as u32 * 0x1000 + s2 as u32 * 0x40 + s3 as u32) as u32;
    assert({
        &&& (n / 0x1_0000) % 256 == ((s0 & 0x3f) << 2) + ((s1 & 0x30) >> 4)
        &&& ((s0 & 0x3f) << 2) + ((s1 & 0x30) >> 4) < 256
    }) by (bit_vector)
        requires
            n == s0 as u32 * 0x4_0000 + s1 as u32 * 0x1000 + s2 as u32 * 0x40 + s3 as u32,
            s0 < 64,
            s1 < 64,
            s2 < 64,
            s3 < 64,
    ;
    assert({
        &&& (n / 0x100) % 256 == ((s1 & 0x0f) << 4) + ((s2 & 0x3c) >> 2)
        &&& ((s1 & 0x0f) << 4) + ((s2 & 0x3c) >> 2) < 256
    }) by (bit_vector)
        requires
            n == s0 as u32 * 0x4_0000 + s1 as u32 * 0x1000 + s2 as u32 * 0x40 + s3 as u32,
            s0 < 64,
            s1 < 64,
            s2 < 64,
            s3 < 64,
    ;
    assert({
        &&& n % 256 == ((s2 & 0x03) << 6) + (s3 & 0x3f)
        &&& ((s2 & 0x03) << 6) + (s3 & 0x3f) < 256
    }) by (bit_vector)
        requires
            n == s0 as u32 * 0x4_0000 + s1 as u32 * 0x1000 + s2 as u32 * 0x40 + s3 as u32,
            s0 < 64,
            s1 < 64,
            s2 < 64,
            s3 < 64,
    ;
}

/// Unpacks one group of four characters into one, two or three bytes, by the pad
/// characters that end it: two leave one byte, one leaves two, none leaves three. A pad
/// character in any other place is refused as an invalid character, and so is any
/// character outside the alphabet. A slice of another length than four is refused for its
/// length.
pub fn base64char_x4_to_rawbytes(chars: &[char]) -> (r: Result<Vec<u8>, Base64Error>)
    ensures
        match r {
            Ok(bytes) => unpack_quad(chars@) == Ok::<Seq<u8>, Base64Error>(bytes@),
            Err(e) => unpack_quad(chars@) == Err::<Seq<u8>, Base64Error>(e),
        },
{
    if chars.len() != 4 {
        return Err(Base64Error::InvalidLength);
    }
    let ghost q = chars@;
    let s0: u8 = match base64char_to_byte(chars[0]) {
        Ok(v) => v,
        Err(e) => {
            return Err(e);
        },
    };
    let s1: u8 = match base64char_to_byte(chars[1]) {
        Ok(v) => v,
        Err(e) => {
            return Err(e);
        },
    };
    if chars[2] == '=' && chars[3] == '=' {
        proof {
            lemma_octets_as_bits(s0, s1, 0, 0);
        }
        let b1: u8 = ((s0 & 0x3f) << 2) + ((s1 & 0x30) >> 4);
        let bytes = vec![b1];
        assert(bytes@ =~= unpacked(q));
        Ok(bytes)
    } else if chars[3] == '=' {
        let s2: u8 = match base64char_to_byte(chars[2]) {
            Ok(v) => v,
            Err(e) => {
                return Err(e);
            },
        };
        proof {
            lemma_octets_as_bits(s0, s1, s2, 0);
        }
        let b1: u8 = ((s0 & 0x3f) << 2) + ((s1 & 0x30) >> 4);
        let b2: u8 = ((s1 & 0x0f) << 4) + ((s2 & 0x3c) >> 2);
        let bytes = vec![b1, b2];
        assert(bytes@ =~= unpacked(q));
        Ok(bytes)
    } else {
        let s2: u8 = match base64char_to_byte(chars[2]) {
            Ok(v) => v,
            Err(e) => {
                return Err(e);
            },
        };
        let s3: u8 = match base64char_to_byte(chars[3]) {
            Ok(v) => v,
            Err(e) => {
                return Err(e);
            },
        };
        proof {
            lemma_octets_as_bits(s0, s1, s2, s3);
        }
        let b1: u8 = ((s0 & 0x3f) << 2) + ((s1 & 0x30) >> 4);
        let b2: u8 = ((s1 & 0x0f) << 4) + ((s2 & 0x3c) >> 2);
        let b3: u8 = ((s2 & 0x03) << 6) + (s3 & 0x3f);
        let bytes = vec![b1, b2, b3];
        assert(bytes@ =~= unpacked(q));
        Ok(bytes)
    }
}

} // verus!
