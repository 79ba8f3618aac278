//! Bits of a byte: reading one, reversing the bit order, building a byte
//! from its eight bits.

use vstd::prelude::*;

verus! {

/// Bit `k` of byte `b`, bit 0 being the least significant one.
pub open spec fn bit_of(b: u8, k: int) -> bool {
    0 <= k < 8 && ((b >> (k as u8)) & 1u8) == 1u8
}

/// Two bytes that agree on all eight bits are equal.
pub proof fn lemma_byte_eq_by_bits(a: u8, b: u8)
    requires
        forall|k: int| 0 <= k < 8 ==> bit_of(a, k) == bit_of(b, k),
    ensures
        a == b,
{
    assert(bit_of(a, 0) == bit_of(b, 0));
    assert(bit_of(a, 1) == bit_of(b, 1));
    assert(bit_of(a, 2) == bit_of(b, 2));
    assert(bit_of(a, 3) == bit_of(b, 3));
    assert(bit_of(a, 4) == bit_of(b, 4));
    assert(bit_of(a, 5) == bit_of(b, 5));
    assert(bit_of(a, 6) == bit_of(b, 6));
    assert(bit_of(a, 7) == bit_of(b, 7));
    assert(a == b) by (bit_vector)
        requires
            ((a >> 0u8) & 1u8 == 1u8) == ((b >> 0u8) & 1u8 == 1u8),
            ((a >> 1u8) & 1u8 == 1u8) == ((b >> 1u8) & 1u8 == 1u8),
            ((a >> 2u8) & 1u8 == 1u8) == ((b >> 2u8) & 1u8 == 1u8),
            ((a >> 3u8) & 1u8 == 1u8) == ((b >> 3u8) & 1u8 == 1u8),
            ((a >> 4u8) & 1u8 == 1u8) == ((b >> 4u8) & 1u8 == 1u8),
            ((a >> 5u8) & 1u8 == 1u8) == ((b >> 5u8) & 1u8 == 1u8),
            ((a >> 6u8) & 1u8 == 1u8) == ((b >> 6u8) & 1u8 == 1u8),
            ((a >> 7u8) & 1u8 == 1u8) == ((b >> 7u8) & 1u8 == 1u8),
    ;
}

/// Setting bit `k` changes bit `k` only.
pub proof fn lemma_set_bit(b: u8, k: u8, j: u8)
    requires
        k < 8,
        j < 8,
    ensures
        (((b | (1u8 << k)) >> j) & 1u8 == 1u8) == (j == k || ((b >> j) & 1u8 == 1u8)),
{
    assert((((b | (1u8 << k)) >> j) & 1u8 == 1u8) == (j == k || ((b >> j) & 1u8 == 1u8)))
        by (bit_vector)
        requires
            k < 8,
            j < 8,
    ;
}

/// The empty byte has no bit set.
pub proof fn lemma_zero_bits(j: u8)
    requires
        j < 8,
    ensures
        !(((0u8 >> j) & 1u8) == 1u8),
{
    assert(!(((0u8 >> j) & 1u8) == 1u8)) by (bit_vector)
        requires
            j < 8,
    ;
}

/// The byte with the bit order of `b` reversed (bit 0 ↔ bit 7, bit 1 ↔ bit 6, ...).
pub open spec fn reversed_byte(b: u8) -> u8 {
    ((b & 0x01u8) << 7u8) | ((b & 0x02u8) << 5u8) | ((b & 0x04u8) << 3u8) | ((b & 0x08u8) << 1u8)
        | ((b & 0x10u8) >> 1u8) | ((b & 0x20u8) >> 3u8) | ((b & 0x40u8) >> 5u8) | ((b & 0x80u8)
        >> 7u8)
}

/// Bit `k` of the reversed byte is bit `7 - k` of `b`.
pub proof fn lemma_reversed_byte_bits(b: u8)
    ensures
        forall|k: int| 0 <= k < 8 ==> bit_of(#[trigger] reversed_byte(b), k) == bit_of(b, 7 - k),
{
    assert forall|k: int| 0 <= k < 8 implies bit_of(#[trigger] reversed_byte(b), k) == bit_of(
        b,
        7 - k,
    ) by {
        let ku = k as u8;
        let km = (7 - k) as u8;
        let r = reversed_byte(b);
        assert(((r >> ku) & 1u8 == 1u8) == ((b >> km) & 1u8 == 1u8)) by (bit_vector)
            requires
                ku < 8,
                km + ku == 7,
                r == ((b & 0x01u8) << 7u8) | ((b & 0x02u8) << 5u8) | ((b & 0x04u8) << 3u8) | ((b
                    & 0x08u8) << 1u8) | ((b & 0x10u8) >> 1u8) | ((b & 0x20u8) >> 3u8) | ((b
                    & 0x40u8) >> 5u8) | ((b & 0x80u8) >> 7u8),
        ;
    }
}

/// Reverses the bit order inside one byte.
pub fn reverse_byte(b: u8) -> (r: u8)
    ensures
        r == reversed_byte(b),
        forall|k: int| 0 <= k < 8 ==> bit_of(r, k) == bit_of(b, 7 - k),
{
    let r = ((b & 0x01u8) << 7u8) | ((b & 0x02u8) << 5u8) | ((b & 0x04u8) << 3u8) | ((b & 0x08u8)
        << 1u8) | ((b & 0x10u8) >> 1u8) | ((b & 0x20u8) >> 3u8) | ((b & 0x40u8) >> 5u8) | ((b
        & 0x80u8) >> 7u8);
    proof {
        lemma_reversed_byte_bits(b);
        assert(r == reversed_byte(b));
    }
    r
}

/// Reversing the bit order twice gives the byte back.
pub proof fn law_reverse_byte_twice(b: u8)
    ensures
        reversed_byte(reversed_byte(b)) == b,
{
    lemma_reversed_byte_bits(b);
    lemma_reversed_byte_bits(reversed_byte(b));
    assert forall|k: int| 0 <= k < 8 implies bit_of(reversed_byte(reversed_byte(b)), k) == bit_of(
        b,
        k,
    ) by {
        assert(bit_of(reversed_byte(reversed_byte(b)), k) == bit_of(reversed_byte(b), 7 - k));
        assert(bit_of(reversed_byte(b), 7 - k) == bit_of(b, 7 - (7 - k)));
    }
    lemma_byte_eq_by_bits(reversed_byte(reversed_byte(b)), b);
}


/// The byte whose bit `k` is `p(k)` for `k` in `0..8`.
pub open spec fn byte_from_bits(p: spec_fn(int) -> bool) -> u8 {
    (if p(0) { 1u8 } else { 0u8 }) | (if p(1) { 2u8 } else { 0u8 }) | (if p(2) { 4u8 } else { 0u8 })
        | (if p(3) { 8u8 } else { 0u8 }) | (if p(4) { 16u8 } else { 0u8 }) | (if p(5) { 32u8 } else {
        0u8 }) | (if p(6) { 64u8 } else { 0u8 }) | (if p(7) { 128u8 } else { 0u8 })
}

/// Bit `k` of `byte_from_bits(p)` is `p(k)`.
pub proof fn lemma_byte_from_bits(p: spec_fn(int) -> bool)
    ensures
        forall|k: int| 0 <= k < 8 ==> bit_of(#[trigger] byte_from_bits(p), k) == p(k),
{
    let b0 = p(0);
    let b1 = p(1);
    let b2 = p(2);
    let b3 = p(3);
    let b4 = p(4);
    let b5 = p(5);
    let b6 = p(6);
    let b7 = p(7);
    let r = byte_from_bits(p);
    assert(((r >> 0u8) & 1u8 == 1u8) == b0 && ((r >> 1u8) & 1u8 == 1u8) == b1 && ((r >> 2u8) & 1u8
        == 1u8) == b2 && ((r >> 3u8) & 1u8 == 1u8) == b3 && ((r >> 4u8) & 1u8 == 1u8) == b4 && ((r
        >> 5u8) & 1u8 == 1u8) == b5 && ((r >> 6u8) & 1u8 == 1u8) == b6 && ((r >> 7u8) & 1u8 == 1u8)
        == b7) by (bit_vector)
        requires
            r == (if b0 { 1u8 } else { 0u8 }) | (if b1 { 2u8 } else { 0u8 }) | (if b2 { 4u8 } else {
                0u8 }) | (if b3 { 8u8 } else { 0u8 }) | (if b4 { 16u8 } else { 0u8 }) | (if b5 {
                32u8 } else { 0u8 }) | (if b6 { 64u8 } else { 0u8 }) | (if b7 { 128u8 } else { 0u8 }),
    ;
    assert forall|k: int| 0 <= k < 8 implies bit_of(#[trigger] byte_from_bits(p), k) == p(k) by {
        if k == 0 {
        } else if k == 1 {
        } else if k == 2 {
        } else if k == 3 {
        } else if k == 4 {
        } else if k == 5 {
        } else if k == 6 {
        } else {
        }
    }
}

} // verus!
