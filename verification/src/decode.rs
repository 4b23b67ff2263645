//! Decoding: text to bytes.

use vstd::prelude::*;
use crate::alphabet::{is_alphabet_char, is_data_char};
use crate::error::Base64Error;
use crate::quad::{
    base64char_x4_to_rawbytes,
    octet_of,
    quad_value,
    trailing_pads,
    well_formed,
};

verus! {

/// The `q`-th group of four characters of the text.
pub open spec fn quad_at(s: Seq<char>, q: int) -> Seq<char>
    recommends
        0 <= 4 * q,
        4 * q + 4 <= s.len(),
{
    s.subrange(4 * q, 4 * q + 4)
}

/// The number of bytes that well-formed text decodes to: three for each group of four
/// characters, less one for each pad character at the end.
pub open spec fn decoded_len(s: Seq<char>) -> nat
    recommends
        well_formed(s),
{
    (3 * (s.len() / 4) - trailing_pads(s)) as nat
}

/// The `j`-th byte of the decoding: the `j mod 3`-th byte of the `j div 3`-th group.
pub open spec fn decoded_byte(s: Seq<char>, j: int) -> u8
    recommends
        0 <= j,
        4 * (j / 3) + 4 <= s.len(),
{
    octet_of(quad_value(quad_at(s, j / 3)), j % 3) as u8
}

/// The bytes that well-formed text decodes to.
pub open spec fn decoded(s: Seq<char>) -> Seq<u8>
    recommends
        well_formed(s),
{
    Seq::new(decoded_len(s), |j: int| decoded_byte(s, j))
}

/// The outcome of decoding: refused for its length where the number of characters is no
/// multiple of four, refused for a character where the text is ill-formed in another way,
/// its bytes otherwise.
pub open spec fn decoding(s: Seq<char>) -> Result<Seq<u8>, Base64Error> {
    if s.len() % 4 != 0 {
        Err(Base64Error::InvalidLength)
    } else if !well_formed(s) {
        Err(Base64Error::InvalidCharacter)
    } else {
        Ok(decoded(s))
    }
}

/// Each group of well-formed text is well-formed by itself; only the last group can end in
/// pad characters, and it ends in as many as the text does.
pub proof fn lemma_quad_of_well_formed(s: Seq<char>, q: int)
    requires
        well_formed(s),
        0 <= 4 * q < s.len(),
    ensures
        well_formed(quad_at(s, q)),
        4 * q + 4 < s.len() ==> trailing_pads(quad_at(s, q)) == 0,
        4 * q + 4 == s.len() ==> trailing_pads(quad_at(s, q)) == trailing_pads(s),
{
    let quad = quad_at(s, q);
    assert forall|i: int| 0 <= i < quad.len() - trailing_pads(quad) implies is_data_char(
        #[trigger] quad[i],
    ) by {}
}

/// Text that holds a character outside the alphabet is ill-formed, wherever that character
/// stands.
pub proof fn lemma_foreign_character_ill_formed(s: Seq<char>, i: int)
    requires
        0 <= i < s.len(),
        !is_alphabet_char(s[i]),
    ensures
        !well_formed(s),
        decoding(s) is Err,
{
}

/// The characters of a string, in order.
fn chars_of(s: &str) -> (chars: Vec<char>)
    ensures
        chars@ == s@,
{
    let mut chars: Vec<char> = Vec::new();
    for c in it: s.chars()
        invariant
            chars@ == it.seq().take(it.index()),
    {
        chars.push(c);
    }
    chars
}

/// Decodes text to bytes. The text is taken in groups of four characters, each of which
/// gives three bytes; a last group that ends in one or two pad characters gives two bytes
/// or one. The length is counted in characters and looked at first: text whose length is no
/// multiple of four is refused for its length, whatever it holds. Text of whole groups is
/// refused for a character where it holds one outside the alphabet, or a pad character
/// anywhere but in the last two places of the last group, or one in the last place but one
/// that no second one follows. The empty text decodes to no bytes.
pub fn decode(s: &str) -> (r: Result<Vec<u8>, Base64Error>)
    ensures
        match r {
            Ok(bytes) => decoding(s@) == Ok::<Seq<u8>, Base64Error>(bytes@),
            Err(e) => decoding(s@) == Err::<Seq<u8>, Base64Error>(e),
        },
        s@.len() % 4 != 0 <==> r == Err::<Vec<u8>, Base64Error>(Base64Error::InvalidLength),
        s@.len() % 4 == 0 && !well_formed(s@) <==> r == Err::<Vec<u8>, Base64Error>(
            Base64Error::InvalidCharacter,
        ),
        forall|i: int| 0 <= i < s@.len() && !is_alphabet_char(#[trigger] s@[i]) ==> r is Err,
{
    let owned: Vec<char> = chars_of(s);
    let chars: &[char] = owned.as_slice();
    let n: usize = chars.len();
    if n % 4 != 0 {
        return Err(Base64Error::InvalidLength);
    }
    let mut out: Vec<u8> = Vec::new();
    let mut i: usize = 0;
    while i < n
        invariant
            chars@ == s@,
            n == chars@.len(),
            n % 4 == 0,
            i % 4 == 0,
            i <= n,
            forall|k: int| 0 <= k < i ==> is_data_char(#[trigger] chars@[k]),
            out@.len() == 3 * (i as int / 4),
            forall|j: int| 0 <= j < out@.len() ==> #[trigger] out@[j] == decoded_byte(chars@, j),
        decreases n - i,
    {
        let quad: &[char] = &chars[i..i + 4];
        let ghost q = i as int / 4;
        let ghost before = out@;
        assert forall|k: int| 0 <= k < 4 implies #[trigger] quad@[k] == chars@[i + k] by {}
        match base64char_x4_to_rawbytes(quad) {
            Err(e) => {
                proof {
                    if well_formed(chars@) {
                        lemma_quad_of_well_formed(chars@, q);
                    }
                }
                return Err(e);
            },
            Ok(mut bytes) => {
                let last: bool = i + 4 == n;
                let padded: bool = bytes.len() < 3;
                if padded && !last {
                    proof {
                        if well_formed(chars@) {
                            lemma_quad_of_well_formed(chars@, q);
                        }
                    }
                    return Err(Base64Error::InvalidCharacter);
                }
                out.append(&mut bytes);
                assert forall|j: int| 0 <= j < out@.len() implies #[trigger] out@[j]
                    == decoded_byte(chars@, j) by {
                    if j >= before.len() {
                        assert(j / 3 == q);
                    }
                }
                if padded {
                    proof {
                        assert forall|k: int|
                            0 <= k < chars@.len() - trailing_pads(chars@) implies is_data_char(
                            #[trigger] chars@[k],
                        ) by {}
                        assert(out@ =~= decoded(chars@));
                    }
                    return Ok(out);
                }
                proof {
                    assert forall|k: int| 0 <= k < i + 4 implies is_data_char(
                        #[trigger] chars@[k],
                    ) by {}
                }
            },
        }
        i = i + 4;
    }
    proof {
        assert(out@ =~= decoded(chars@));
    }
    Ok(out)
}

} // verus!
