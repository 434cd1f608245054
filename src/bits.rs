//! Single bits inside a byte, addressed by an index from 0 (least significant) to 7.
use vstd::prelude::*;

verus! {

/// The byte whose only set bit is bit `c`.
pub open spec fn bit_mask(c: int) -> u8 {
    if c == 0 {
        1u8
    } else if c == 1 {
        2u8
    } else if c == 2 {
        4u8
    } else if c == 3 {
        8u8
    } else if c == 4 {
        16u8
    } else if c == 5 {
        32u8
    } else if c == 6 {
        64u8
    } else {
        128u8
    }
}

/// A byte with exactly one bit set.
pub open spec fn is_mask(m: u8) -> bool {
    m == 1 || m == 2 || m == 4 || m == 8 || m == 16 || m == 32 || m == 64 || m == 128
}

/// The index of the bit that a single-bit byte sets.
pub open spec fn mask_bit(m: u8) -> int {
    if m == 1 {
        0
    } else if m == 2 {
        1
    } else if m == 4 {
        2
    } else if m == 8 {
        3
    } else if m == 16 {
        4
    } else if m == 32 {
        5
    } else if m == 64 {
        6
    } else {
        7
    }
}

/// Bit `c` of byte `x`.
pub open spec fn has_bit(x: u8, c: int) -> bool {
    x & bit_mask(c) != 0
}

pub proof fn lemma_mask_bit(m: u8)
    requires
        is_mask(m),
    ensures
        0 <= mask_bit(m) < 8,
        bit_mask(mask_bit(m)) == m,
{
}

pub proof fn lemma_bit_mask(c: int)
    requires
        0 <= c < 8,
    ensures
        is_mask(bit_mask(c)),
        mask_bit(bit_mask(c)) == c,
{
}

/// No bit of zero is set.
pub proof fn lemma_zero_has_no_bit(c: int)
    requires
        0 <= c < 8,
    ensures
        !has_bit(0u8, c),
{
    let m = bit_mask(c);
    assert(0u8 & m == 0u8) by (bit_vector);
}

/// Inverting one bit leaves the others as they were.
pub proof fn lemma_xor_bit(x: u8, b: int, c: int)
    requires
        0 <= b < 8,
        0 <= c < 8,
    ensures
        has_bit(x ^ bit_mask(b), c) == if b == c {
            !has_bit(x, c)
        } else {
            has_bit(x, c)
        },
{
    let m = bit_mask(b);
    let n = bit_mask(c);
    lemma_bit_mask(b);
    lemma_bit_mask(c);
    assert(((x ^ m) & n != 0) == if m == n {
        x & n == 0
    } else {
        x & n != 0
    }) by (bit_vector)
        requires
            m == 1 || m == 2 || m == 4 || m == 8 || m == 16 || m == 32 || m == 64 || m == 128,
            n == 1 || n == 2 || n == 4 || n == 8 || n == 16 || n == 32 || n == 64 || n == 128,
    ;
}

/// Setting one bit leaves the others as they were.
pub proof fn lemma_or_bit(x: u8, b: int, c: int)
    requires
        0 <= b < 8,
        0 <= c < 8,
    ensures
        has_bit(x | bit_mask(b), c) == (b == c || has_bit(x, c)),
{
    let m = bit_mask(b);
    let n = bit_mask(c);
    lemma_bit_mask(b);
    lemma_bit_mask(c);
    assert(((x | m) & n != 0) == (m == n || x & n != 0)) by (bit_vector)
        requires
            m == 1 || m == 2 || m == 4 || m == 8 || m == 16 || m == 32 || m == 64 || m == 128,
            n == 1 || n == 2 || n == 4 || n == 8 || n == 16 || n == 32 || n == 64 || n == 128,
    ;
}

/// Clearing one bit leaves the others as they were.
pub proof fn lemma_clear_bit(x: u8, b: int, c: int)
    requires
        0 <= b < 8,
        0 <= c < 8,
    ensures
        has_bit(x & !bit_mask(b), c) == (b != c && has_bit(x, c)),
{
    let m = bit_mask(b);
    let n = bit_mask(c);
    lemma_bit_mask(b);
    lemma_bit_mask(c);
    assert(((x & !m) & n != 0) == (m != n && x & n != 0)) by (bit_vector)
        requires
            m == 1 || m == 2 || m == 4 || m == 8 || m == 16 || m == 32 || m == 64 || m == 128,
            n == 1 || n == 2 || n == 4 || n == 8 || n == 16 || n == 32 || n == 64 || n == 128,
    ;
}

} // verus!
