//! Bit order shared by the codecs: bytes are spread most significant bit
//! first over a list of positions.

use vstd::prelude::*;

verus! {

/// Bit `t` of `data`, counting from the most significant bit of byte 0.
pub open spec fn msb_bit(data: Seq<u8>, t: int) -> u8 {
    (data[t / 8] >> ((7 - t % 8) as u8)) & 1
}

/// Bit `t` of `first` followed by `second`.
pub open spec fn msb_bit2(first: Seq<u8>, second: Seq<u8>, t: int) -> u8 {
    msb_bit(first + second, t)
}

/// `acc` shifted left by one with `bit` in the freed place.
pub open spec fn push_bit(acc: u8, bit: u8) -> u8 {
    (acc << 1u8) | bit
}

/// The byte whose bits, most significant first, are `b(0) .. b(7)`.
pub open spec fn byte_from_bits(b: spec_fn(int) -> u8) -> u8 {
    let a1 = push_bit(b(0), b(1));
    let a2 = push_bit(a1, b(2));
    let a3 = push_bit(a2, b(3));
    let a4 = push_bit(a3, b(4));
    let a5 = push_bit(a4, b(5));
    let a6 = push_bit(a5, b(6));
    push_bit(a6, b(7))
}

proof fn lemma_byte_bits(x: u8)
    by (bit_vector)
    ensures
        ({
            let a1 = push_bit((x >> 7u8) & 1, (x >> 6u8) & 1);
            let a2 = push_bit(a1, (x >> 5u8) & 1);
            let a3 = push_bit(a2, (x >> 4u8) & 1);
            let a4 = push_bit(a3, (x >> 3u8) & 1);
            let a5 = push_bit(a4, (x >> 2u8) & 1);
            let a6 = push_bit(a5, (x >> 1u8) & 1);
            push_bit(a6, x & 1) == x
        }),
{
}

/// Reassembling the bits of a byte, most significant first, gives the byte.
pub proof fn lemma_assemble(data: Seq<u8>, k: int)
    requires
        0 <= k < data.len(),
    ensures
        byte_from_bits(|j: int| msb_bit(data, 8 * k + j)) == data[k],
{
    let x = data[k];
    lemma_byte_bits(x);
    assert(msb_bit(data, 8 * k + 0) == (x >> 7u8) & 1);
    assert(msb_bit(data, 8 * k + 1) == (x >> 6u8) & 1);
    assert(msb_bit(data, 8 * k + 2) == (x >> 5u8) & 1);
    assert(msb_bit(data, 8 * k + 3) == (x >> 4u8) & 1);
    assert(msb_bit(data, 8 * k + 4) == (x >> 3u8) & 1);
    assert(msb_bit(data, 8 * k + 5) == (x >> 2u8) & 1);
    assert(msb_bit(data, 8 * k + 6) == (x >> 1u8) & 1);
    assert(msb_bit(data, 8 * k + 7) == (x >> 0u8) & 1);
    assert((x >> 0u8) & 1 == x & 1) by (bit_vector);
}

/// Two bit sources that agree on bits 0 to 7 assemble the same byte.
pub proof fn lemma_byte_from_bits_eq(f: spec_fn(int) -> u8, g: spec_fn(int) -> u8)
    requires
        forall|j: int| 0 <= j < 8 ==> #[trigger] f(j) == g(j),
    ensures
        byte_from_bits(f) == byte_from_bits(g),
{
    assert(f(0) == g(0) && f(1) == g(1) && f(2) == g(2) && f(3) == g(3));
    assert(f(4) == g(4) && f(5) == g(5) && f(6) == g(6) && f(7) == g(7));
}

/// Bit `t` of `first` followed by `second`, as the codecs embed it.
pub fn payload_bit(first: &[u8], second: &[u8], t: usize) -> (bit: u8)
    requires
        t < 8 * (first@.len() + second@.len()),
    ensures
        bit == msb_bit2(first@, second@, t as int),
        bit <= 1,
{
    let byte_index = t / 8;
    let shift = (7 - t % 8) as u8;
    let byte = if byte_index < first.len() {
        first[byte_index]
    } else {
        second[byte_index - first.len()]
    };
    assert(byte == (first@ + second@)[t as int / 8]);
    let bit = (byte >> shift) & 1;
    assert((byte >> shift) & 1 <= 1) by (bit_vector);
    bit
}

} // verus!
