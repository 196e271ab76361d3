//! Bit and byte-lane primitives shared by the grids and the neighbor kernels.

use vstd::prelude::*;

verus! {

/// Bit `i` of `w`.
pub open spec fn bit_of(w: u64, i: int) -> bool {
    (w >> i) & 1 == 1
}

/// Bit `i` of `w` as a number, 0 or 1.
pub open spec fn bit_val(w: u64, i: int) -> int {
    if bit_of(w, i) {
        1
    } else {
        0
    }
}

/// Byte `j` of `w`, counting from the least significant byte.
pub open spec fn byte_of(w: u64, j: int) -> int {
    ((w >> (8 * j)) & 0xFF) as int
}

proof fn lemma_bit_ops(w: u64, b: u64, c: u64)
    by (bit_vector)
    requires
        b < 64,
        c < 64,
    ensures
        (0u64 >> c) & 1 == 0,
        (0xFFFF_FFFF_FFFF_FFFFu64 >> c) & 1 == 1,
        (w & (1u64 << b) != 0) <==> (w >> b) & 1 == 1,
        ((w | (1u64 << b)) >> c) & 1 == 1 <==> (c == b || (w >> c) & 1 == 1),
        ((w & !(1u64 << b)) >> c) & 1 == 1 <==> (c != b && (w >> c) & 1 == 1),
{
}

/// No bit of zero is set.
pub proof fn lemma_bits_of_zero(i: int)
    requires
        0 <= i < 64,
    ensures
        !bit_of(0, i),
{
    lemma_bit_ops(0, 0, i as u64);
}

/// Every bit of the all-ones word is set.
pub proof fn lemma_bits_of_ones(i: int)
    requires
        0 <= i < 64,
    ensures
        bit_of(0xFFFF_FFFF_FFFF_FFFFu64, i),
{
    lemma_bit_ops(0, 0, i as u64);
}

/// Whether bit `b` of `w` is set.
pub fn test_bit(w: u64, b: u8) -> (r: bool)
    requires
        b < 64,
    ensures
        r == bit_of(w, b as int),
{
    proof {
        lemma_bit_ops(w, b as u64, 0);
    }
    w & (1u64 << b) != 0
}

/// `w` with bit `b` set to `value` and every other bit kept.
pub fn with_bit(w: u64, b: u8, value: bool) -> (r: u64)
    requires
        b < 64,
    ensures
        forall|i: int| 0 <= i < 64 ==> #[trigger] bit_of(r, i) == (if i == b { value } else { bit_of(w, i) }),
{
    let r = if value {
        w | (1u64 << b)
    } else {
        w & !(1u64 << b)
    };
    proof {
        assert forall|i: int| 0 <= i < 64 implies #[trigger] bit_of(r, i) == (if i == b { value } else { bit_of(w, i) }) by {
            lemma_bit_ops(w, b as u64, i as u64);
        }
    }
    r
}

proof fn lemma_byte_ext(a: u64, b: u64, k: u64)
    by (bit_vector)
    requires
        k < 8,
        ((a >> (8 * k + 0)) & 1 == 1) == ((b >> (8 * k + 0)) & 1 == 1),
        ((a >> (8 * k + 1)) & 1 == 1) == ((b >> (8 * k + 1)) & 1 == 1),
        ((a >> (8 * k + 2)) & 1 == 1) == ((b >> (8 * k + 2)) & 1 == 1),
        ((a >> (8 * k + 3)) & 1 == 1) == ((b >> (8 * k + 3)) & 1 == 1),
        ((a >> (8 * k + 4)) & 1 == 1) == ((b >> (8 * k + 4)) & 1 == 1),
        ((a >> (8 * k + 5)) & 1 == 1) == ((b >> (8 * k + 5)) & 1 == 1),
        ((a >> (8 * k + 6)) & 1 == 1) == ((b >> (8 * k + 6)) & 1 == 1),
        ((a >> (8 * k + 7)) & 1 == 1) == ((b >> (8 * k + 7)) & 1 == 1),
    ensures
        (a >> (8 * k)) & 0xFF == (b >> (8 * k)) & 0xFF,
{
}

proof fn lemma_word_ext(a: u64, b: u64)
    by (bit_vector)
    requires
        (a >> 0) & 0xFF == (b >> 0) & 0xFF,
        (a >> 8) & 0xFF == (b >> 8) & 0xFF,
        (a >> 16) & 0xFF == (b >> 16) & 0xFF,
        (a >> 24) & 0xFF == (b >> 24) & 0xFF,
        (a >> 32) & 0xFF == (b >> 32) & 0xFF,
        (a >> 40) & 0xFF == (b >> 40) & 0xFF,
        (a >> 48) & 0xFF == (b >> 48) & 0xFF,
        (a >> 56) & 0xFF == (b >> 56) & 0xFF,
    ensures
        a == b,
{
}

proof fn lemma_byte_from_bits(a: u64, b: u64, k: int)
    requires
        0 <= k < 8,
        forall|i: int| 0 <= i < 64 ==> #[trigger] bit_of(a, i) == bit_of(b, i),
    ensures
        byte_of(a, k) == byte_of(b, k),
{
    assert(bit_of(a, 8 * k + 0) == bit_of(b, 8 * k + 0));
    assert(bit_of(a, 8 * k + 1) == bit_of(b, 8 * k + 1));
    assert(bit_of(a, 8 * k + 2) == bit_of(b, 8 * k + 2));
    assert(bit_of(a, 8 * k + 3) == bit_of(b, 8 * k + 3));
    assert(bit_of(a, 8 * k + 4) == bit_of(b, 8 * k + 4));
    assert(bit_of(a, 8 * k + 5) == bit_of(b, 8 * k + 5));
    assert(bit_of(a, 8 * k + 6) == bit_of(b, 8 * k + 6));
    assert(bit_of(a, 8 * k + 7) == bit_of(b, 8 * k + 7));
    lemma_byte_ext(a, b, k as u64);
}

/// Words with the same bits are equal.
pub proof fn lemma_word_from_bits(a: u64, b: u64)
    requires
        forall|i: int| 0 <= i < 64 ==> #[trigger] bit_of(a, i) == bit_of(b, i),
    ensures
        a == b,
{
    lemma_byte_from_bits(a, b, 0);
    lemma_byte_from_bits(a, b, 1);
    lemma_byte_from_bits(a, b, 2);
    lemma_byte_from_bits(a, b, 3);
    lemma_byte_from_bits(a, b, 4);
    lemma_byte_from_bits(a, b, 5);
    lemma_byte_from_bits(a, b, 6);
    lemma_byte_from_bits(a, b, 7);
    assert(a == a >> 0 && b == b >> 0) by (bit_vector);
    lemma_word_ext(a, b);
}

} // verus!
