//! Packing up to three bytes into four symbols.

use vstd::prelude::*;
use crate::alphabet::Symbol;

verus! {

/// The byte at position `m` of a group, where a byte that the group lacks counts as zero.
pub open spec fn byte_or_zero(t: Seq<u8>, m: int) -> int {
    if 0 <= m < t.len() {
        t[m] as int
    } else {
        0
    }
}

/// The 24-bit number whose bytes, most significant first, are those of the group.
pub open spec fn triplet_value(t: Seq<u8>) -> int {
    byte_or_zero(t, 0) * 0x1_0000 + byte_or_zero(t, 1) * 0x100 + byte_or_zero(t, 2)
}

/// The `k`-th six-bit field of a 24-bit number, counted from the most significant one.
pub open spec fn sextet_of(n: int, k: int) -> int
    recommends
        0 <= k < 4,
{
    if k == 0 {
        (n / 0x4_0000) % 64
    } else if k == 1 {
        (n / 0x1000) % 64
    } else if k == 2 {
        (n / 0x40) % 64
    } else {
        n % 64
    }
}

/// The `k`-th symbol of a group of one to three bytes: a field of the group's number where
/// at least one bit of it comes from a byte that is there, the pad marker otherwise.
pub open spec fn packed_symbol(t: Seq<u8>, k: int) -> Symbol
    recommends
        1 <= t.len() <= 3,
        0 <= k < 4,
{
    if k <= t.len() {
        Symbol::Data(sextet_of(triplet_value(t), k) as u8)
    } else {
        Symbol::Pad
    }
}

/// The four symbols of a group of one to three bytes.
pub open spec fn pack_triplet(t: Seq<u8>) -> Seq<Symbol>
    recommends
        1 <= t.len() <= 3,
{
    Seq::new(4, |k: int| packed_symbol(t, k))
}

/// The fields of a 24-bit number lie below 64.
pub proof fn lemma_sextet_of_range(n: int, k: int)
    requires
        0 <= n < 0x100_0000,
    ensures
        0 <= sextet_of(n, k) < 64,
{
}

/// The number of a group fits in 24 bits.
pub proof fn lemma_triplet_value_range(t: Seq<u8>)
    ensures
        0 <= triplet_value(t) < 0x100_0000,
{
}

/// Every symbol of a packed group is well-formed.
pub proof fn lemma_packed_symbol_wf(t: Seq<u8>, k: int)
    ensures
        packed_symbol(t, k).wf(),
{
    lemma_triplet_value_range(t);
    lemma_sextet_of_range(triplet_value(t), k);
}

/// The fields of the number made of three bytes, each written with the bit operations that
/// cut it out of those bytes.
proof fn lemma_fields_as_bits(b0: u8, b1: u8, b2: u8)
    ensures
        sextet_of(b0 * 0x1_0000 + b1 * 0x100 + b2, 0) == (b0 & 0xfc) >> 2,
        sextet_of(b0 * 0x1_0000 + b1 * 0x100 + b2, 1) == ((b0 & 0x03) << 4) + ((b1 & 0xf0) >> 4),
        sextet_of(b0 * 0x1_0000 + b1 * 0x100 + b2, 2) == ((b1 & 0x0f) << 2) + ((b2 & 0xc0) >> 6),
        sextet_of(b0 * 0x1_0000 + b1 * 0x100 + b2, 3) == b2 & 0x3f,
        ((b0 & 0x03) << 4) + ((b1 & 0xf0) >> 4) < 64,
        ((b1 & 0x0f) << 2) + ((b2 & 0xc0) >> 6) < 64,
{
    let n: u32 = (b0 as u32 * 0x1_0000 + b1 as u32 * 0x100 + b2 as u32) as u32;
    assert((n / 0x4_0000) % 64 == (b0 & 0xfc) >> 2) by (bit_vector)
        requires
            n == b0 as u32 * 0x1_0000 + b1 as u32 * 0x100 + b2 as u32,
    ;
    assert({
        &&& (n / 0x1000) % 64 == ((b0 & 0x03) << 4) + ((b1 & 0xf0) >> 4)
        &&& ((b0 & 0x03) << 4) + ((b1 & 0xf0) >> 4) < 64
    }) by (bit_vector)
        requires
            n == b0 as u32 * 0x1_0000 + b1 as u32 * 0x100 + b2 as u32,
    ;
    assert({
        &&& (n / 0x40) % 64 == ((b1 & 0x0f) << 2) + ((b2 & 0xc0) >> 6)
        &&& ((b1 & 0x0f) << 2) + ((b2 & 0xc0) >> 6) < 64
    }) by (bit_vector)
        requires
            n == b0 as u32 * 0x1_0000 + b1 as u32 * 0x100 + b2 as u32,
    ;
    assert(n % 64 == b2 & 0x3f) by (bit_vector)
        requires
            n == b0 as u32 * 0x1_0000 + b1 as u32 * 0x100 + b2 as u32,
    ;
}

/// Repacks a group of one, two or three bytes into four symbols. The 24 bits of the group,
/// a missing byte counting as zero, are cut into four six-bit fields; a field that has no
/// bit of a byte that is there becomes the pad marker.
pub fn rawbyte_x3_to_base64_x4(b: &[u8]) -> (result: [Symbol; 4])
    requires
        1 <= b@.len() <= 3,
    ensures
        result@ == pack_triplet(b@),
        forall|k: int| 0 <= k < 4 ==> (#[trigger] result@[k]).wf(),
        forall|k: int| 0 <= k < 4 ==> (#[trigger] result@[k] == Symbol::Pad <==> k > b@.len()),
{
    let b0: u8 = b[0];
    let b1: u8 = if b.len() >= 2 { b[1] } else { 0 };
    let b2: u8 = if b.len() >= 3 { b[2] } else { 0 };
    proof {
        lemma_fields_as_bits(b0, b1, b2);
    }
    let s0 = Symbol::Data((b0 & 0xfc) >> 2);
    let s1 = Symbol::Data(((b0 & 0x03) << 4) + ((b1 & 0xf0) >> 4));
    let s2 = if b.len() >= 2 {
        Symbol::Data(((b1 & 0x0f) << 2) + ((b2 & 0xc0) >> 6))
    } else {
        Symbol::Pad
    };
    let s3 = if b.len() >= 3 {
        Symbol::Data(b2 & 0x3f)
    } else {
        Symbol::Pad
    };
    let result = [s0, s1, s2, s3];
    proof {
        assert forall|k: int| 0 <= k < 4 implies #[trigger] result@[k] == packed_symbol(b@, k) by {}
        assert forall|k: int| 0 <= k < 4 implies (#[trigger] result@[k]).wf() by {
            lemma_packed_symbol_wf(b@, k);
        }
    }
    result
}

} // verus!
