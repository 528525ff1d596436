//! Bit-level facts about the packed storage words.
//!
//! Each storage word carries 32 logical bits; bit `b` of word `w` is read as
//! `(w >> b) & 1`.
use vstd::prelude::*;

verus! {

/// Whether bit `b` of the word `w` is set.
pub open spec fn bit(w: u32, b: int) -> bool {
    (w >> (b as u32)) & 1u32 == 1u32
}

/// Word index and in-word offset of a position, as shift and mask.
pub proof fn lemma_split(j: usize)
    ensures
        j >> 5usize == j / 32,
        j & 31usize == j % 32,
{
    assert(j >> 5usize == j / 32) by (bit_vector);
    assert(j & 31usize == j % 32) by (bit_vector);
}

/// A bit of an exclusive or is the exclusive or of the bits.
pub proof fn lemma_bit_xor(a: u32, c: u32, b: u32)
    requires
        b < 32,
    ensures
        bit(a ^ c, b as int) == (bit(a, b as int) != bit(c, b as int)),
{
    assert((((a ^ c) >> b) & 1u32 == 1u32) == (((a >> b) & 1u32 == 1u32) != ((c >> b) & 1u32
        == 1u32))) by (bit_vector)
        requires
            b < 32,
    ;
}

/// Exclusive or with a single-bit mask flips that bit alone.
pub proof fn lemma_bit_flip(w: u32, b: u32, c: u32)
    requires
        b < 32,
        c < 32,
    ensures
        bit(w ^ (1u32 << b), c as int) == if c == b {
            !bit(w, c as int)
        } else {
            bit(w, c as int)
        },
{
    assert((((w ^ (1u32 << b)) >> c) & 1u32 == 1u32) == if c == b {
        !((w >> c) & 1u32 == 1u32)
    } else {
        (w >> c) & 1u32 == 1u32
    }) by (bit_vector)
        requires
            b < 32,
            c < 32,
    ;
}

/// A single-bit mask has exactly its own bit set.
pub proof fn lemma_bit_single(b: u32, c: u32)
    requires
        b < 32,
        c < 32,
    ensures
        bit(1u32 << b, c as int) == (b == c),
{
    assert(((((1u32 << b) >> c) & 1u32) == 1u32) == (b == c)) by (bit_vector)
        requires
            b < 32,
            c < 32,
    ;
}

/// The zero word has no bit set.
pub proof fn lemma_bit_zero(c: u32)
    requires
        c < 32,
    ensures
        !bit(0u32, c as int),
{
    assert(((0u32 >> c) & 1u32) != 1u32) by (bit_vector);
}

/// Row-major position of word `w` of row `i` when each row holds `o` words.
pub open spec fn slot(o: int, i: int, w: int) -> int {
    i * o + w
}

/// A word of a row lies within the matrix, after the row's earlier words.
pub proof fn lemma_slot(o: int, rows: int, i: int, w: int)
    requires
        0 <= i < rows,
        0 <= w < o,
    ensures
        0 <= slot(o, i, w) < rows * o,
        i * o + o <= rows * o,
        slot(o, i, w) == i * o + w,
{
    assert(0 <= i * o) by (nonlinear_arith)
        requires
            0 <= i,
            0 <= o,
    ;
    assert((i + 1) * o <= rows * o) by (nonlinear_arith)
        requires
            i + 1 <= rows,
            0 <= o,
    ;
    assert((i + 1) * o == i * o + o) by (nonlinear_arith);
}

/// Distinct (row, word) pairs occupy distinct positions.
pub proof fn lemma_slot_distinct(o: int, i: int, w: int, i2: int, w2: int)
    requires
        0 <= i,
        0 <= i2,
        0 <= w < o,
        0 <= w2 < o,
        i != i2 || w != w2,
    ensures
        slot(o, i, w) != slot(o, i2, w2),
{
    if i < i2 {
        assert((i + 1) * o <= i2 * o) by (nonlinear_arith)
            requires
                i + 1 <= i2,
                0 <= o,
        ;
        assert((i + 1) * o == i * o + o) by (nonlinear_arith);
    } else if i2 < i {
        assert((i2 + 1) * o <= i * o) by (nonlinear_arith)
            requires
                i2 + 1 <= i,
                0 <= o,
        ;
        assert((i2 + 1) * o == i2 * o + o) by (nonlinear_arith);
    }
}

} // verus!
