//! Row operations on a packed, row-major word matrix.
//!
//! A matrix of `rows` rows with `o` words per row is stored flat; word `w`
//! of row `i` lives at `slot(o, i, w)`.
use vstd::prelude::*;
use crate::bits::{slot, lemma_slot, lemma_slot_distinct};

verus! {

pub open spec fn shaped(v: Seq<u32>, o: int, rows: int) -> bool {
    0 < o && 0 <= rows && v.len() == rows * o && rows * o <= usize::MAX
}

/// Row `i` takes the words of row `k`.
pub fn copy_words(v: &mut Vec<u32>, o: usize, rows: usize, i: usize, k: usize)
    requires
        shaped(old(v)@, o as int, rows as int),
        i < rows,
        k < rows,
    ensures
        final(v)@.len() == old(v)@.len(),
        forall|a: int, w: int|
            0 <= a < rows && 0 <= w < o ==> #[trigger] final(v)@[slot(o as int, a, w)] == if a
                == i {
                old(v)@[slot(o as int, k as int, w)]
            } else {
                old(v)@[slot(o as int, a, w)]
            },
{
    let ghost v0 = v@;
    let mut w: usize = 0;
    while w < o
        invariant
            shaped(v0, o as int, rows as int),
            i < rows,
            k < rows,
            w <= o,
            v@.len() == v0.len(),
            forall|a: int, w2: int|
                0 <= a < rows && 0 <= w2 < o ==> #[trigger] v@[slot(o as int, a, w2)] == if a == i
                    && w2 < w {
                    v0[slot(o as int, k as int, w2)]
                } else {
                    v0[slot(o as int, a, w2)]
                },
        decreases o - w,
    {
        proof {
            lemma_slot(o as int, rows as int, i as int, w as int);
            lemma_slot(o as int, rows as int, k as int, w as int);
        }
        let val = v[k * o + w];
        v.set(i * o + w, val);
        proof {
            assert forall|a: int, w2: int| 0 <= a < rows && 0 <= w2 < o implies #[trigger] v@[slot(
                o as int,
                a,
                w2,
            )] == if a == i && w2 < w + 1 {
                v0[slot(o as int, k as int, w2)]
            } else {
                v0[slot(o as int, a, w2)]
            } by {
                lemma_slot(o as int, rows as int, a, w2);
                if a != i || w2 != w {
                    lemma_slot_distinct(o as int, a, w2, i as int, w as int);
                }
            }
        }
        w = w + 1;
    }
}

/// Row `i` becomes the word-wise exclusive or of rows `i` and `k`.
pub fn xor_words(v: &mut Vec<u32>, o: usize, rows: usize, i: usize, k: usize)
    requires
        shaped(old(v)@, o as int, rows as int),
        i < rows,
        k < rows,
        i != k,
    ensures
        final(v)@.len() == old(v)@.len(),
        forall|a: int, w: int|
            0 <= a < rows && 0 <= w < o ==> #[trigger] final(v)@[slot(o as int, a, w)] == if a
                == i {
                old(v)@[slot(o as int, i as int, w)] ^ old(v)@[slot(o as int, k as int, w)]
            } else {
                old(v)@[slot(o as int, a, w)]
            },
{
    let ghost v0 = v@;
    let mut w: usize = 0;
    while w < o
        invariant
            shaped(v0, o as int, rows as int),
            i < rows,
            k < rows,
            i != k,
            w <= o,
            v@.len() == v0.len(),
            forall|a: int, w2: int|
                0 <= a < rows && 0 <= w2 < o ==> #[trigger] v@[slot(o as int, a, w2)] == if a == i
                    && w2 < w {
                    v0[slot(o as int, i as int, w2)] ^ v0[slot(o as int, k as int, w2)]
                } else {
                    v0[slot(o as int, a, w2)]
                },
        decreases o - w,
    {
        proof {
            lemma_slot(o as int, rows as int, i as int, w as int);
            lemma_slot(o as int, rows as int, k as int, w as int);
        }
        let val = v[i * o + w] ^ v[k * o + w];
        v.set(i * o + w, val);
        proof {
            assert forall|a: int, w2: int| 0 <= a < rows && 0 <= w2 < o implies #[trigger] v@[slot(
                o as int,
                a,
                w2,
            )] == if a == i && w2 < w + 1 {
                v0[slot(o as int, i as int, w2)] ^ v0[slot(o as int, k as int, w2)]
            } else {
                v0[slot(o as int, a, w2)]
            } by {
                lemma_slot(o as int, rows as int, a, w2);
                if a != i || w2 != w {
                    lemma_slot_distinct(o as int, a, w2, i as int, w as int);
                }
            }
        }
        w = w + 1;
    }
}

/// Every word of row `i` becomes zero.
pub fn clear_words(v: &mut Vec<u32>, o: usize, rows: usize, i: usize)
    requires
        shaped(old(v)@, o as int, rows as int),
        i < rows,
    ensures
        final(v)@.len() == old(v)@.len(),
        forall|a: int, w: int|
            0 <= a < rows && 0 <= w < o ==> #[trigger] final(v)@[slot(o as int, a, w)] == if a
                == i {
                0u32
            } else {
                old(v)@[slot(o as int, a, w)]
            },
{
    let ghost v0 = v@;
    let mut w: usize = 0;
    while w < o
        invariant
            shaped(v0, o as int, rows as int),
            i < rows,
            w <= o,
            v@.len() == v0.len(),
            forall|a: int, w2: int|
                0 <= a < rows && 0 <= w2 < o ==> #[trigger] v@[slot(o as int, a, w2)] == if a == i
                    && w2 < w {
                    0u32
                } else {
                    v0[slot(o as int, a, w2)]
                },
        decreases o - w,
    {
        proof {
            lemma_slot(o as int, rows as int, i as int, w as int);
        }
        v.set(i * o + w, 0);
        proof {
            assert forall|a: int, w2: int| 0 <= a < rows && 0 <= w2 < o implies #[trigger] v@[slot(
                o as int,
                a,
                w2,
            )] == if a == i && w2 < w + 1 {
                0u32
            } else {
                v0[slot(o as int, a, w2)]
            } by {
                lemma_slot(o as int, rows as int, a, w2);
                if a != i || w2 != w {
                    lemma_slot_distinct(o as int, a, w2, i as int, w as int);
                }
            }
        }
        w = w + 1;
    }
}

} // verus!
