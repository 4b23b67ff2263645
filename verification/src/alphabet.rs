//! The alphabet: which character stands for which six-bit value, and back.

use vstd::prelude::*;
use crate::error::Base64Error;

verus! {

/// The unit between bit-repacking and character mapping: six bits of data, or the pad marker.
#[derive(Clone, Copy, Debug, PartialEq, Eq, Structural)]
pub enum Symbol {
    /// Six bits of data, as a number from 0 to 63.
    Data(u8),
    /// Fills a group of four where the input had no byte left.
    Pad,
}

impl Symbol {
    /// A data symbol holds a value below 64; the pad marker is always well-formed.
    pub open spec fn wf(self) -> bool {
        match self {
            Symbol::Data(v) => v < 64,
            Symbol::Pad => true,
        }
    }
}

/// The character that fills incomplete groups.
pub open spec fn pad_char() -> char {
    '='
}

/// The character for the six-bit value `v`: `A`-`Z`, then `a`-`z`, then `0`-`9`, then `+` and `/`.
pub open spec fn sextet_char(v: int) -> char
    recommends
        0 <= v < 64,
{
    if v < 26 {
        ('A' as int + v) as char
    } else if v < 52 {
        ('a' as int + (v - 26)) as char
    } else if v < 62 {
        ('0' as int + (v - 52)) as char
    } else if v == 62 {
        '+'
    } else {
        '/'
    }
}

/// The character for a symbol: its data character, or the pad character.
pub open spec fn symbol_char(s: Symbol) -> char
    recommends
        s.wf(),
{
    match s {
        Symbol::Data(v) => sextet_char(v as int),
        Symbol::Pad => pad_char(),
    }
}

/// Whether `c` is one of the 64 data characters. The pad character is not.
pub open spec fn is_data_char(c: char) -> bool {
    ||| 'A' <= c <= 'Z'
    ||| 'a' <= c <= 'z'
    ||| '0' <= c <= '9'
    ||| c == '+'
    ||| c == '/'
}

/// Whether `c` may occur in encoded text at all: a data character or the pad character.
pub open spec fn is_alphabet_char(c: char) -> bool {
    is_data_char(c) || c == pad_char()
}

/// The six-bit value that the data character `c` stands for.
pub open spec fn char_sextet(c: char) -> int
    recommends
        is_data_char(c),
{
    if 'A' <= c <= 'Z' {
        c as int - 'A' as int
    } else if 'a' <= c <= 'z' {
        c as int - 'a' as int + 26
    } else if '0' <= c <= '9' {
        c as int - '0' as int + 52
    } else if c == '+' {
        62
    } else {
        63
    }
}

/// Every six-bit value has a data character of its own, from which it is read back.
pub proof fn lemma_sextet_char_inverse(v: int)
    requires
        0 <= v < 64,
    ensures
        is_data_char(sextet_char(v)),
        sextet_char(v) != pad_char(),
        char_sextet(sextet_char(v)) == v,
{
}

/// Every data character stands for a six-bit value, which maps back to that character.
pub proof fn lemma_char_sextet_inverse(c: char)
    requires
        is_data_char(c),
    ensures
        0 <= char_sextet(c) < 64,
        sextet_char(char_sextet(c)) == c,
{
}

/// Maps a symbol to its character.
pub fn base64_to_char(b: &Symbol) -> (c: char)
    requires
        b.wf(),
    ensures
        c == symbol_char(*b),
        is_alphabet_char(c),
        c == pad_char() <==> *b == Symbol::Pad,
{
    match *b {
        Symbol::Pad => '=',
        Symbol::Data(v) => {
            proof {
                lemma_sextet_char_inverse(v as int);
            }
            if v < 26 {
                (v + 'A' as u8) as char
            } else if v < 52 {
                (v - 26 + 'a' as u8) as char
            } else if v < 62 {
                (v - 52 + '0' as u8) as char
            } else if v == 62 {
                '+'
            } else {
                '/'
            }
        },
    }
}

/// Maps a data character to its six-bit value; any other character, the pad character
/// included, is refused.
pub fn base64char_to_byte(c: char) -> (r: Result<u8, Base64Error>)
    ensures
        is_data_char(c) ==> r == Ok::<u8, Base64Error>(char_sextet(c) as u8),
        !is_data_char(c) ==> r == Err::<u8, Base64Error>(Base64Error::InvalidCharacter),
        r matches Ok(v) ==> v < 64,
{
    if 'A' <= c && c <= 'Z' {
        Ok((c as u32 - 'A' as u32) as u8)
    } else if 'a' <= c && c <= 'z' {
        Ok((c as u32 - 'a' as u32) as u8 + 26)
    } else if '0' <= c && c <= '9' {
        Ok((c as u32 - '0' as u32) as u8 + 52)
    } else if c == '+' {
        Ok(62)
    } else if c == '/' {
        Ok(63)
    } else {
        Err(Base64Error::InvalidCharacter)
    }
}

} // verus!
