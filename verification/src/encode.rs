//! Encoding: bytes to text.

use vstd::prelude::*;
use crate::alphabet::{
    base64_to_char,
    is_alphabet_char,
    lemma_sextet_char_inverse,
    pad_char,
    symbol_char,
    Symbol,
};
use crate::triplet::{
    lemma_sextet_of_range,
    lemma_triplet_value_range,
    pack_triplet,
    packed_symbol,
    rawbyte_x3_to_base64_x4,
    sextet_of,
    triplet_value,
};

verus! {

/// `String::push` of the standard library appends one character to the end of the string
/// and leaves the characters before it as they were.
pub assume_specification[ String::push ](s: &mut String, c: char)
    ensures
        final(s)@ == old(s)@.push(c),
;

/// The number of characters that `n` bytes encode to: four for every three bytes begun.
pub open spec fn encoded_len(n: nat) -> nat {
    4 * ((n + 2) / 3)
}

/// The number of pad characters that end the encoding of `n` bytes: none where the bytes
/// fill their groups of three, two after a single byte left over, one after two.
pub open spec fn padding_len(n: nat) -> nat {
    if n % 3 == 0 {
        0
    } else if n % 3 == 1 {
        2
    } else {
        1
    }
}

/// The `g`-th group of three bytes of the input; the last one may hold one or two.
pub open spec fn group(b: Seq<u8>, g: int) -> Seq<u8>
    recommends
        0 <= 3 * g < b.len(),
{
    b.subrange(
        3 * g,
        if 3 * g + 3 <= b.len() {
            3 * g + 3
        } else {
            b.len() as int
        },
    )
}

/// The `i`-th character of the encoding: that of the `i mod 4`-th symbol of the
/// `i div 4`-th group.
pub open spec fn encoded_char(b: Seq<u8>, i: int) -> char
    recommends
        0 <= i < encoded_len(b.len()),
{
    symbol_char(pack_triplet(group(b, i / 4))[i % 4])
}

/// The encoding of a byte sequence.
pub open spec fn encoded(b: Seq<u8>) -> Seq<char> {
    Seq::new(encoded_len(b.len()), |i: int| encoded_char(b, i))
}

/// Where the encoding has a symbol at position `i`, and which group it belongs to.
pub proof fn lemma_group_of_position(b: Seq<u8>, i: int)
    requires
        0 <= i < encoded_len(b.len()),
    ensures
        0 <= 3 * (i / 4) < b.len(),
        1 <= group(b, i / 4).len() <= 3,
        group(b, i / 4).len() == 3 || i / 4 == (b.len() - 1) / 3,
        group(b, i / 4).len() == 3 || group(b, i / 4).len() == b.len() % 3,
        encoded(b)[i] == symbol_char(packed_symbol(group(b, i / 4), i % 4)),
{
}

/// Every character of an encoding belongs to the alphabet of 64 data characters and the
/// pad character.
pub proof fn lemma_encoded_in_alphabet(b: Seq<u8>, i: int)
    requires
        0 <= i < encoded(b).len(),
    ensures
        is_alphabet_char(encoded(b)[i]),
{
    lemma_group_of_position(b, i);
    let t = group(b, i / 4);
    lemma_triplet_value_range(t);
    lemma_sextet_of_range(triplet_value(t), i % 4);
    if i % 4 <= t.len() {
        lemma_sextet_char_inverse(sextet_of(triplet_value(t), i % 4));
    }
}

/// The pad characters of an encoding are its last `padding_len` characters and no others.
pub proof fn lemma_encoded_padding(b: Seq<u8>, i: int)
    requires
        0 <= i < encoded(b).len(),
    ensures
        encoded(b)[i] == pad_char() <==> i >= encoded(b).len() - padding_len(b.len()),
{
    lemma_group_of_position(b, i);
    let t = group(b, i / 4);
    lemma_triplet_value_range(t);
    lemma_sextet_of_range(triplet_value(t), i % 4);
    if i % 4 <= t.len() {
        lemma_sextet_char_inverse(sextet_of(triplet_value(t), i % 4));
    }
}

/// Encodes bytes as text. The bytes are taken in groups of three, the last group holding
/// what is left; each group gives four characters, so that the text is always made of whole
/// groups of four. Every byte sequence has an encoding, the empty one the empty text.
pub fn encode(bytes: &[u8]) -> (text: String)
    ensures
        text@ == encoded(bytes@),
        text@.len() == 4 * ((bytes@.len() + 2) / 3),
        forall|i: int| 0 <= i < text@.len() ==> is_alphabet_char(#[trigger] text@[i]),
        forall|i: int|
            0 <= i < text@.len() ==> (#[trigger] text@[i] == pad_char() <==> i >= text@.len()
                - padding_len(bytes@.len())),
{
    let n: usize = bytes.len();
    let mut text = String::new();
    let mut i: usize = 0;
    while i < n
        invariant
            n == bytes@.len(),
            i <= n,
            i % 3 == 0 || i == n,
            text@.len() == encoded_len(i as nat),
            forall|j: int| 0 <= j < text@.len() ==> #[trigger] text@[j] == encoded_char(bytes@, j),
        decreases n - i,
    {
        let end: usize = if n - i >= 3 {
            i + 3
        } else {
            n
        };
        let chunk: &[u8] = &bytes[i..end];
        let symbols: [Symbol; 4] = rawbyte_x3_to_base64_x4(chunk);
        let ghost before = text@;
        for k in 0..4usize
            invariant
                text@.len() == before.len() + k,
                forall|j: int| 0 <= j < before.len() ==> text@[j] == before[j],
                forall|j: int|
                    0 <= j < k ==> #[trigger] text@[before.len() + j] == symbol_char(symbols@[j]),
                forall|j: int| 0 <= j < 4 ==> (#[trigger] symbols@[j]).wf(),
        {
            let c: char = base64_to_char(&symbols[k]);
            text.push(c);
        }
        assert forall|j: int| 0 <= j < text@.len() implies #[trigger] text@[j] == encoded_char(
            bytes@,
            j,
        ) by {
            if j >= before.len() {
                let m = j - before.len();
                assert(text@[before.len() + m] == symbol_char(symbols@[m]));
                assert(j % 4 == m);
            } else {
                assert(text@[j] == before[j]);
            }
        }
        i = end;
    }
    proof {
        assert forall|i: int| 0 <= i < text@.len() implies is_alphabet_char(#[trigger] text@[i]) by {
            lemma_encoded_in_alphabet(bytes@, i);
        }
        assert forall|i: int| 0 <= i < text@.len() implies (#[trigger] text@[i] == pad_char() <==> i
            >= text@.len() - padding_len(bytes@.len())) by {
            lemma_encoded_padding(bytes@, i);
        }
    }
    text
}

} // verus!
