//! What holds between encoding and decoding.

use vstd::prelude::*;
use crate::alphabet::{is_data_char, lemma_sextet_char_inverse};
use crate::decode::{decoded, decoded_byte, decoded_len, decoding, quad_at};
use crate::encode::{
    encoded,
    encoded_len,
    group,
    lemma_encoded_in_alphabet,
    lemma_encoded_padding,
    lemma_group_of_position,
    padding_len,
};
use crate::error::Base64Error;
use crate::quad::{char_value, octet_of, quad_value, trailing_pads, well_formed};
use crate::triplet::{
    byte_or_zero,
    lemma_sextet_of_range,
    lemma_triplet_value_range,
    sextet_of,
    triplet_value,
};

verus! {

/// A 24-bit number is made of its four six-bit fields.
proof fn lemma_sextets_compose(n: int)
    requires
        0 <= n < 0x100_0000,
    ensures
        sextet_of(n, 0) * 0x4_0000 + sextet_of(n, 1) * 0x1000 + sextet_of(n, 2) * 0x40 + sextet_of(
            n,
            3,
        ) == n,
{
}

/// The bytes of a group's number are the bytes of the group, and the fields that no byte of
/// the group reaches are zero.
proof fn lemma_triplet_value_parts(t: Seq<u8>, k: int)
    requires
        1 <= t.len() <= 3,
    ensures
        0 <= k < 3 ==> octet_of(triplet_value(t), k) == byte_or_zero(t, k),
        t.len() < k < 4 ==> sextet_of(triplet_value(t), k) == 0,
{
}

/// The group of four characters that encodes a group of bytes carries the number of that
/// group.
proof fn lemma_quad_value_of_encoded(b: Seq<u8>, q: int)
    requires
        0 <= 3 * q < b.len(),
    ensures
        quad_value(quad_at(encoded(b), q)) == triplet_value(group(b, q)),
{
    let e = encoded(b);
    let t = group(b, q);
    let n = triplet_value(t);
    let quad = quad_at(e, q);
    lemma_triplet_value_range(t);
    assert forall|k: int| 0 <= k < 4 implies char_value(#[trigger] quad[k]) == sextet_of(n, k) by {
        lemma_group_of_position(b, 4 * q + k);
        lemma_sextet_of_range(n, k);
        if k <= t.len() {
            lemma_sextet_char_inverse(sextet_of(n, k));
        } else {
            lemma_triplet_value_parts(t, k);
        }
    }
    lemma_sextets_compose(n);
}

/// An encoding ends in as many pad characters as its input leaves places open in the last
/// group, and is well-formed.
pub proof fn lemma_encoded_well_formed(b: Seq<u8>)
    ensures
        encoded(b).len() == encoded_len(b.len()),
        trailing_pads(encoded(b)) == padding_len(b.len()),
        well_formed(encoded(b)),
{
    let e = encoded(b);
    if e.len() > 0 {
        lemma_encoded_padding(b, e.len() - 1);
        lemma_encoded_padding(b, e.len() - 2);
    }
    assert forall|i: int| 0 <= i < e.len() - trailing_pads(e) implies is_data_char(
        #[trigger] e[i],
    ) by {
        lemma_encoded_padding(b, i);
        lemma_encoded_in_alphabet(b, i);
    }
}

/// Decoding is a left inverse of encoding: the encoding of any byte sequence is accepted by
/// the decoder, and decodes to that byte sequence.
pub proof fn lemma_round_trip(b: Seq<u8>)
    ensures
        decoding(encoded(b)) == Ok::<Seq<u8>, Base64Error>(b),
{
    let e = encoded(b);
    lemma_encoded_well_formed(b);
    assert(decoded_len(e) == b.len());
    assert forall|j: int| 0 <= j < b.len() implies decoded_byte(e, j) == #[trigger] b[j] by {
        let q = j / 3;
        let m = j % 3;
        lemma_quad_value_of_encoded(b, q);
        lemma_triplet_value_parts(group(b, q), m);
    }
    assert(decoded(e) =~= b);
}

} // verus!
