//! Byte-wise digits of a signed 32-bit key.

use vstd::prelude::*;

verus! {

/// The key of `v` moved into the naturals: `v + 2^31`, so that the order of
/// the keys is the order of the integers.
pub open spec fn biased(v: i32) -> nat {
    (v + 0x8000_0000) as nat
}

/// `256^n` for the digit positions in use, and for the full width.
pub open spec fn weight(n: int) -> nat {
    if n == 0 {
        1
    } else if n == 1 {
        0x100
    } else if n == 2 {
        0x1_0000
    } else if n == 3 {
        0x100_0000
    } else {
        0x1_0000_0000
    }
}

/// Digit `n` of `v`: the `n`-th base-256 digit of `biased(v)`.
pub open spec fn digit_of(v: i32, n: int) -> int {
    ((biased(v) / weight(n)) % 256) as int
}

/// What the shifts and masks compute, position by position: the bytes of
/// `v` in two's complement are the base-256 digits of `biased(v)`, once the
/// top bit of the most significant one is flipped.
pub proof fn lemma_bytes_are_digits(v: i32)
    ensures
        (v >> 0u32) & 0xFFi32 == ((v + 0x8000_0000) / 1) % 256,
        (v >> 8u32) & 0xFFi32 == ((v + 0x8000_0000) / 0x100) % 256,
        (v >> 16u32) & 0xFFi32 == ((v + 0x8000_0000) / 0x1_0000) % 256,
        ((v >> 24u32) & 0xFFi32) ^ 0x80i32 == ((v + 0x8000_0000) / 0x100_0000) % 256,
{
    assert((v >> 0u32) & 0xFFi32 == ((v + 0x8000_0000) / 1) % 256) by (bit_vector);
    assert((v >> 8u32) & 0xFFi32 == ((v + 0x8000_0000) / 0x100) % 256) by (bit_vector);
    assert((v >> 16u32) & 0xFFi32 == ((v + 0x8000_0000) / 0x1_0000) % 256) by (bit_vector);
    assert(((v >> 24u32) & 0xFFi32) ^ 0x80i32 == ((v + 0x8000_0000) / 0x100_0000) % 256)
        by (bit_vector);
}

/// Extracts digit `n` of `val`: the byte at bit offset `8 * n`, with its sign
/// bit flipped when it is the most significant byte.
pub fn digit(val: i32, n: u32) -> (k: usize)
    requires
        n < 4,
    ensures
        k == digit_of(val, n as int),
        k < 256,
{
    let shift: u32 = 8 * n;
    let mut k: i32 = (val >> shift) & 0xFFi32;
    if n == 3 {
        k ^= 0x80;
    }
    proof {
        lemma_bytes_are_digits(val);
    }
    k as usize
}

} // verus!
