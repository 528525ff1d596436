//! Laws of the tableau transforms.
use vstd::prelude::*;
use crate::state::Tableau;
use vstd::arithmetic::power2::pow2;

verus! {

/// A fresh `n`-qubit state has destabilizer `i` equal to X on qubit `i`,
/// stabilizer `i` equal to Z on qubit `i`, and every phase zero.
pub proof fn lemma_initial_generators(n: nat, i: int, j: int)
    requires
        0 <= i < n,
        0 <= j < n,
    ensures
        Tableau::initial(n).wf(),
        Tableau::initial(n).xs[i][j] == (j == i),
        !Tableau::initial(n).zs[i][j],
        Tableau::initial(n).rs[i] == 0,
        !Tableau::initial(n).xs[n + i][j],
        Tableau::initial(n).zs[n + i][j] == (j == i),
        Tableau::initial(n).rs[n + i] == 0,
{
}

/// Applying the Hadamard gate twice to the same qubit restores the tableau.
pub proof fn lemma_hadamard_involution(t: Tableau, q: int)
    requires
        t.wf(),
        0 <= q < t.n,
    ensures
        t.hadamard_at(q).hadamard_at(q) == t,
{
    let u = t.hadamard_at(q).hadamard_at(q);
    assert(u.xs =~~= t.xs);
    assert(u.zs =~~= t.zs);
    assert(u.rs =~~= t.rs);
    assert(u =~~= t);
}

/// Applying the phase gate four times to the same qubit restores the tableau.
pub proof fn lemma_phase_order_four(t: Tableau, q: int)
    requires
        t.wf(),
        0 <= q < t.n,
    ensures
        t.phase_at(q).phase_at(q).phase_at(q).phase_at(q) == t,
{
    let u = t.phase_at(q).phase_at(q).phase_at(q).phase_at(q);
    assert(u.xs =~~= t.xs);
    assert(u.zs =~~= t.zs);
    assert(u.rs =~~= t.rs);
    assert(u =~~= t);
}

/// Applying the same CNOT twice restores the tableau.
pub proof fn lemma_cnot_involution(t: Tableau, a: int, b: int)
    requires
        t.wf(),
        0 <= a < t.n,
        0 <= b < t.n,
        a != b,
    ensures
        t.cnot_at(a, b).cnot_at(a, b) == t,
{
    let u = t.cnot_at(a, b).cnot_at(a, b);
    assert(u.xs =~~= t.xs);
    assert(u.zs =~~= t.zs);
    assert(u.rs =~~= t.rs);
    assert(u =~~= t);
}

/// No row in `lo..2n` has its bit (X if `p`, else Z) set at column `j`.
pub open spec fn zero_col(t: Tableau, j: int, p: bool, lo: int) -> bool {
    forall|r: int| lo <= r < 2 * (t.n as int) ==> !#[trigger] t.bit_in(r, j, p)
}

/// Rows `lo..hi` of `b` are those of `a`.
pub open spec fn rows_kept(a: Tableau, b: Tableau, lo: int, hi: int) -> bool {
    forall|r: int|
        lo <= r < hi ==> #[trigger] b.xs[r] == a.xs[r] && b.zs[r] == a.zs[r] && b.rs[r] == a.rs[r]
}

/// The generator rows, all but the scratch row, of `a` and `b` agree.
pub open spec fn same_generators(a: Tableau, b: Tableau) -> bool {
    a.n == b.n && rows_kept(a, b, 0, 2 * (a.n as int))
}

/// Column `j` of `u` is in echelon form for an elimination step that moved
/// the pivot row from `ij` to `ij1`: either row `ij` is the pivot with the
/// rows below it clear, or no row from `ij` on has the bit.
pub open spec fn column_settled(u: Tableau, j: int, p: bool, ij: int, ij1: int) -> bool {
    (ij1 == ij + 1 && u.bit_in(ij, j, p) && zero_col(u, j, p, ij + 1)) || (ij1 == ij && zero_col(
        u,
        j,
        p,
        ij,
    ))
}

/// The columns below `c` of `u` are in echelon form, with the pivot rows that
/// the elimination of `t` from row `i0` chose.
pub open spec fn settled_upto(t: Tableau, p: bool, i0: int, c: int, u: Tableau) -> bool {
    forall|j: int|
        0 <= j < c ==> column_settled(
            u,
            j,
            p,
            (#[trigger] t.pass(p, i0, j)).1,
            t.pass(p, i0, j + 1).1,
        )
}

/// One row of `rows_kept`.
pub proof fn lemma_kept(a: Tableau, b: Tableau, lo: int, hi: int, r: int)
    requires
        rows_kept(a, b, lo, hi),
        lo <= r < hi,
    ensures
        b.xs[r] == a.xs[r],
        b.zs[r] == a.zs[r],
        b.rs[r] == a.rs[r],
{
}

/// `first_in` finds a row with the bit, and none before it, or runs to `hi`.
pub proof fn lemma_first_in(t: Tableau, q: int, p: bool, lo: int, hi: int)
    requires
        lo <= hi,
    ensures
        lo <= t.first_in(q, p, lo, hi) <= hi,
        t.first_in(q, p, lo, hi) < hi ==> t.bit_in(t.first_in(q, p, lo, hi), q, p),
        forall|r: int| lo <= r < t.first_in(q, p, lo, hi) ==> !#[trigger] t.bit_in(r, q, p),
    decreases hi - lo,
{
    if lo < hi && !t.bit_in(lo, q, p) {
        lemma_first_in(t, q, p, lo + 1, hi);
    }
}

/// Elimination below pivot row `i` clears column `j` under the pivot, keeps
/// the other stabilizers, keeps clear columns clear, and changes nothing when
/// there is nothing to clear.
pub proof fn lemma_eliminate(s: Tableau, j: int, p: bool, i: int, m: int)
    requires
        s.wf(),
        0 <= j < s.n,
        s.n <= i < 2 * s.n,
        m <= 2 * s.n,
    ensures
        ({
            let e = s.eliminate_below(j, p, i, m);
            &&& e.wf()
            &&& e.n == s.n
            &&& rows_kept(s, e, s.n as int, i + 1)
            &&& rows_kept(s, e, m, 2 * (s.n as int))
            &&& s.bit_in(i, j, p) ==> forall|r: int| i < r < m ==> !#[trigger] e.bit_in(r, j, p)
            &&& forall|j2: int, p2: bool|
                0 <= j2 < s.n && zero_col(s, j2, p2, i) ==> #[trigger] zero_col(e, j2, p2, i)
            &&& zero_col(s, j, p, i + 1) ==> e == s
        }),
    decreases m - i,
{
    if m > i + 1 {
        lemma_eliminate(s, j, p, i, m - 1);
        let e0 = s.eliminate_below(j, p, i, m - 1);
        let n = s.n as int;
        if e0.bit_in(m - 1, j, p) {
            let e1 = e0.row_product(m - 1, i);
            let e2 = e1.row_product(i - n, m - 1 - n);
            assert(e2 == s.eliminate_below(j, p, i, m));
            assert(e0.bit_in(i, j, p) == s.bit_in(i, j, p));
            assert(e2.wf());
            assert(rows_kept(s, e2, s.n as int, i + 1));
            assert(rows_kept(s, e2, m, 2 * (s.n as int)));
            assert(s.bit_in(i, j, p) ==> forall|r: int| i < r < m ==> !#[trigger] e2.bit_in(r, j, p)) by {
                if s.bit_in(i, j, p) {
                    assert forall|r: int| i < r < m implies !#[trigger] e2.bit_in(r, j, p) by {
                        if r < m - 1 {
                            assert(e2.bit_in(r, j, p) == e0.bit_in(r, j, p));
                        }
                    }
                }
            }
            assert(zero_col(s, j, p, i + 1) ==> e2 == s) by {
                if zero_col(s, j, p, i + 1) {
                    assert(!s.bit_in(m - 1, j, p));
                }
            }
            assert forall|j2: int, p2: bool|
                0 <= j2 < s.n && zero_col(s, j2, p2, i) implies #[trigger] zero_col(
                e2,
                j2,
                p2,
                i,
            ) by {
                assert(zero_col(e0, j2, p2, i));
                assert forall|r: int| i <= r < 2 * n implies !#[trigger] e2.bit_in(r, j2, p2) by {
                    assert(!e0.bit_in(r, j2, p2));
                    assert(!e0.bit_in(i, j2, p2));
                    assert(!e0.bit_in(m - 1, j2, p2));
                }
            }
        }
    }
}

/// One column of elimination settles that column, keeps the stabilizers
/// above the pivot and keeps clear columns clear; on a settled column it
/// changes no generator row.
pub proof fn lemma_pivot_step(s: Tableau, c: int, p: bool, i: int)
    requires
        s.wf(),
        0 <= c < s.n,
        s.n <= i <= 2 * s.n,
    ensures
        ({
            let (u, i2) = s.pivot_step(c, p, i);
            let n = s.n as int;
            &&& u.wf()
            &&& u.n == s.n
            &&& i <= i2 <= i + 1
            &&& i2 <= 2 * n
            &&& rows_kept(s, u, n, i)
            &&& column_settled(u, c, p, i, i2)
            &&& forall|j2: int, p2: bool, lo: int|
                0 <= j2 < s.n && n <= lo <= i && zero_col(s, j2, p2, lo) ==> #[trigger] zero_col(
                    u,
                    j2,
                    p2,
                    lo,
                )
            &&& (zero_col(s, c, p, i) || (i < 2 * n && s.bit_in(i, c, p) && zero_col(
                s,
                c,
                p,
                i + 1,
            ))) ==> same_generators(s, u)
        }),
{
    let n = s.n as int;
    lemma_first_in(s, c, p, i, 2 * n);
    let k = s.first_in(c, p, i, 2 * n);
    if k < 2 * n {
        let t = s.row_swapped(i, k).row_swapped(i - n, k - n);
        assert(t.wf());
        assert(forall|r: int| n <= r < 2 * n && r != i && r != k ==> #[trigger] t.xs[r] == s.xs[r] && t.zs[r] == s.zs[r] && t.rs[r] == s.rs[r]);
        assert(t.xs[i] == s.xs[k] && t.zs[i] == s.zs[k] && t.rs[i] == s.rs[k]);
        assert(t.xs[k] == s.xs[i] && t.zs[k] == s.zs[i] && t.rs[k] == s.rs[i]);
        assert(t.bit_in(i, c, p));
        lemma_eliminate(t, c, p, i, 2 * n);
        let e = t.eliminate_below(c, p, i, 2 * n);
        assert(t.n == s.n);
        assert(rows_kept(t, e, n, i + 1));
        assert(s.pivot_step(c, p, i) == (e, i + 1));
        assert(rows_kept(s, e, n, i)) by {
            assert forall|r: int| n <= r < i implies #[trigger] e.xs[r] == s.xs[r] && e.zs[r]
                == s.zs[r] && e.rs[r] == s.rs[r] by {
                assert(e.xs[r] == t.xs[r]);
            }
        }
        assert(zero_col(e, c, p, i + 1)) by {
            assert forall|r: int| i + 1 <= r < 2 * n implies !#[trigger] e.bit_in(r, c, p) by {
                assert(i < r < 2 * n);
            }
        }
        assert(e.bit_in(i, c, p)) by {
            lemma_kept(t, e, n, i + 1, i);
        }
        assert forall|j2: int, p2: bool, lo: int|
            0 <= j2 < s.n && n <= lo <= i && zero_col(s, j2, p2, lo) implies #[trigger] zero_col(
            e,
            j2,
            p2,
            lo,
        ) by {
            assert(zero_col(t, j2, p2, i)) by {
                assert forall|r: int| i <= r < 2 * n implies !#[trigger] t.bit_in(r, j2, p2) by {
                    if r == i {
                        assert(!s.bit_in(k, j2, p2));
                    } else if r == k {
                        assert(!s.bit_in(i, j2, p2));
                    } else {
                        assert(!s.bit_in(r, j2, p2));
                    }
                }
            }
            assert(zero_col(e, j2, p2, i));
            assert forall|r: int| lo <= r < 2 * n implies !#[trigger] e.bit_in(r, j2, p2) by {
                if r < i {
                    assert(n <= r);
                    assert(t.xs[r] == s.xs[r] && t.zs[r] == s.zs[r]);
                    lemma_kept(t, e, n, i + 1, r);
                    assert(!s.bit_in(r, j2, p2));
                }
            }
        }
        if s.bit_in(i, c, p) && zero_col(s, c, p, i + 1) {
            assert(k == i);
            assert(zero_col(t, c, p, i + 1)) by {
                assert forall|r: int| i + 1 <= r < 2 * n implies !#[trigger] t.bit_in(r, c, p) by {
                    assert(!s.bit_in(r, c, p));
                }
            }
            assert(e == t);
            assert(same_generators(s, e));
        }
        if zero_col(s, c, p, i) {
            assert(!s.bit_in(k, c, p));
        }
    } else {
        assert(zero_col(s, c, p, i));
        assert(s.pivot_step(c, p, i) == (s, i));
    }
}

/// A settled column stays settled while the rows it speaks of are kept.
pub proof fn lemma_settled_kept(s0: Tableau, s: Tableau, j: int, p: bool, ij: int, ij1: int, bound: int)
    requires
        s0.wf(),
        s.n == s0.n,
        0 <= j < s0.n,
        s0.n <= ij <= ij1 <= bound,
        column_settled(s0, j, p, ij, ij1),
        rows_kept(s0, s, s0.n as int, bound),
        forall|j2: int, p2: bool, lo: int|
            0 <= j2 < s0.n && s0.n <= lo <= bound && zero_col(s0, j2, p2, lo)
                ==> #[trigger] zero_col(s, j2, p2, lo),
    ensures
        column_settled(s, j, p, ij, ij1),
{
    if ij1 == ij + 1 && s0.bit_in(ij, j, p) && zero_col(s0, j, p, ij + 1) {
        lemma_kept(s0, s, s0.n as int, bound, ij);
        assert(zero_col(s, j, p, ij + 1));
    } else {
        assert(zero_col(s, j, p, ij));
    }
}

/// A pass of elimination settles every column it visits, with the pivot
/// rows its steps chose, which only move down.
pub proof fn lemma_pass(t: Tableau, p: bool, i0: int, c: int)
    requires
        t.wf(),
        t.n <= i0 <= 2 * t.n,
        0 <= c <= t.n,
    ensures
        ({
            let (s, i) = t.pass(p, i0, c);
            let n = t.n as int;
            &&& s.wf()
            &&& s.n == t.n
            &&& i0 <= i <= 2 * n
            &&& rows_kept(t, s, n, i0)
            &&& settled_upto(t, p, i0, c, s)
            &&& forall|j2: int, p2: bool, lo: int|
                0 <= j2 < n && n <= lo <= i0 && zero_col(t, j2, p2, lo) ==> #[trigger] zero_col(
                    s,
                    j2,
                    p2,
                    lo,
                )
            &&& forall|j: int| 0 <= j <= c ==> i0 <= (#[trigger] t.pass(p, i0, j)).1 <= i
        }),
    decreases c,
{
    let n = t.n as int;
    if c > 0 {
        lemma_pass(t, p, i0, c - 1);
        let (s0, i1) = t.pass(p, i0, c - 1);
        lemma_pivot_step(s0, c - 1, p, i1);
        let (s, i) = s0.pivot_step(c - 1, p, i1);
        assert(t.pass(p, i0, c) == (s, i));
        assert(rows_kept(t, s, n, i0)) by {
            assert forall|r: int| n <= r < i0 implies #[trigger] s.xs[r] == t.xs[r] && s.zs[r]
                == t.zs[r] && s.rs[r] == t.rs[r] by {
                lemma_kept(t, s0, n, i0, r);
                lemma_kept(s0, s, n, i1, r);
            }
        }
        assert forall|j: int| 0 <= j < c implies column_settled(
            s,
            j,
            p,
            (#[trigger] t.pass(p, i0, j)).1,
            t.pass(p, i0, j + 1).1,
        ) by {
            if j < c - 1 {
                let ij = t.pass(p, i0, j).1;
                let ij1 = t.pass(p, i0, j + 1).1;
                assert(column_settled(s0, j, p, ij, ij1));
                assert(ij1 <= i1);
                let (sj, ijj) = t.pass(p, i0, j);
                lemma_pass(t, p, i0, j);
                lemma_pivot_step(sj, j, p, ij);
                assert(t.pass(p, i0, j + 1) == sj.pivot_step(j, p, ij));
                lemma_settled_kept(s0, s, j, p, ij, ij1, i1);
            }
        }
        assert forall|j: int| 0 <= j <= c implies i0 <= (#[trigger] t.pass(p, i0, j)).1 <= i by {
            if j < c {
                assert(t.pass(p, i0, j).1 <= i1);
            }
        }
    }
}

/// Whether a column is settled depends on the generator rows alone.
pub proof fn lemma_settled_same(u: Tableau, v: Tableau, j: int, p: bool, ij: int, ij1: int)
    requires
        same_generators(u, v),
        u.n <= ij,
        ij1 <= 2 * u.n,
        column_settled(u, j, p, ij, ij1),
    ensures
        column_settled(v, j, p, ij, ij1),
{
    let n = u.n as int;
    if ij1 == ij + 1 && u.bit_in(ij, j, p) && zero_col(u, j, p, ij + 1) {
        lemma_kept(u, v, 0, 2 * n, ij);
        assert forall|r: int| ij + 1 <= r < 2 * n implies !#[trigger] v.bit_in(r, j, p) by {
            lemma_kept(u, v, 0, 2 * n, r);
            assert(!u.bit_in(r, j, p));
        }
    } else {
        assert forall|r: int| ij <= r < 2 * n implies !#[trigger] v.bit_in(r, j, p) by {
            lemma_kept(u, v, 0, 2 * n, r);
            assert(!u.bit_in(r, j, p));
        }
    }
}

/// With no row holding the bit, `first_in` runs to `hi`.
pub proof fn lemma_zero_col_first(t: Tableau, q: int, p: bool, lo: int, hi: int)
    requires
        lo <= hi,
        forall|r: int| lo <= r < hi ==> !#[trigger] t.bit_in(r, q, p),
    ensures
        t.first_in(q, p, lo, hi) == hi,
    decreases hi - lo,
{
    if lo < hi {
        lemma_zero_col_first(t, q, p, lo + 1, hi);
    }
}

/// A pass over columns that are already settled chooses the same pivot rows
/// and changes no generator row.
pub proof fn lemma_rerun(t: Tableau, p: bool, i0: int, c: int, u: Tableau)
    requires
        t.wf(),
        u.wf(),
        u.n == t.n,
        t.n <= i0 <= 2 * t.n,
        0 <= c <= t.n,
        settled_upto(t, p, i0, c, u),
    ensures
        ({
            let (v, i) = u.pass(p, i0, c);
            &&& v.wf()
            &&& i == t.pass(p, i0, c).1
            &&& same_generators(u, v)
        }),
    decreases c,
{
    let n = t.n as int;
    if c > 0 {
        assert forall|j: int| 0 <= j < c - 1 implies column_settled(
            u,
            j,
            p,
            (#[trigger] t.pass(p, i0, j)).1,
            t.pass(p, i0, j + 1).1,
        ) by {
            assert(column_settled(u, j, p, t.pass(p, i0, j).1, t.pass(p, i0, j + 1).1));
        }
        lemma_rerun(t, p, i0, c - 1, u);
        lemma_pass(t, p, i0, c);
        let (v0, i1) = u.pass(p, i0, c - 1);
        let ic = t.pass(p, i0, c - 1).1;
        let ic1 = t.pass(p, i0, c).1;
        assert(i0 <= ic <= 2 * n);
        assert(i0 <= ic1 <= 2 * n);
        assert(column_settled(u, c - 1, p, ic, ic1));
        lemma_settled_same(u, v0, c - 1, p, ic, ic1);
        lemma_pivot_step(v0, c - 1, p, i1);
        let (v, i) = v0.pivot_step(c - 1, p, i1);
        assert(u.pass(p, i0, c) == (v, i));
        if ic1 == ic + 1 && v0.bit_in(ic, c - 1, p) && zero_col(v0, c - 1, p, ic + 1) {
            assert(v0.first_in(c - 1, p, i1, 2 * n) == i1);
            assert(i == i1 + 1);
        } else {
            lemma_zero_col_first(v0, c - 1, p, i1, 2 * n);
            assert(i == i1);
        }
        assert(same_generators(u, v)) by {
            assert forall|r: int| 0 <= r < 2 * n implies #[trigger] v.xs[r] == u.xs[r] && v.zs[r]
                == u.zs[r] && v.rs[r] == u.rs[r] by {
                lemma_kept(u, v0, 0, 2 * n, r);
                lemma_kept(v0, v, 0, 2 * n, r);
            }
        }
    }
}

/// Reducing a reduced tableau again finds the same rank and leaves every
/// generator row as it was; only the scratch row may change.
pub proof fn lemma_reduce_idempotent(t: Tableau)
    requires
        t.wf(),
    ensures
        ({
            let (t1, g) = t.reduced();
            let (t2, g2) = t1.reduced();
            g2 == g && same_generators(t1, t2)
        }),
{
    let n = t.n as int;
    lemma_pass(t, true, n, n);
    let (tx, i1) = t.pass(true, n, n);
    lemma_pass(tx, false, i1, n);
    let (t1, i2) = tx.pass(false, i1, n);
    assert(t.reduced() == (t1, i1 - n));
    assert forall|j: int| 0 <= j < n implies column_settled(
        t1,
        j,
        true,
        (#[trigger] t.pass(true, n, j)).1,
        t.pass(true, n, j + 1).1,
    ) by {
        lemma_pass(t, true, n, j + 1);
        assert(column_settled(tx, j, true, t.pass(true, n, j).1, t.pass(true, n, j + 1).1));
        lemma_settled_kept(
            tx,
            t1,
            j,
            true,
            t.pass(true, n, j).1,
            t.pass(true, n, j + 1).1,
            i1,
        );
    }
    lemma_rerun(t, true, n, n, t1);
    let (u1, j1) = t1.pass(true, n, n);
    assert(j1 == i1);
    assert forall|j: int| 0 <= j < n implies column_settled(
        u1,
        j,
        false,
        (#[trigger] tx.pass(false, i1, j)).1,
        tx.pass(false, i1, j + 1).1,
    ) by {
        assert(column_settled(t1, j, false, tx.pass(false, i1, j).1, tx.pass(false, i1, j + 1).1));
        lemma_settled_same(t1, u1, j, false, tx.pass(false, i1, j).1, tx.pass(false, i1, j + 1).1);
    }
    lemma_rerun(tx, false, i1, n, u1);
    let (u2, j2) = u1.pass(false, i1, n);
    assert(t1.reduced() == (u2, i1 - n));
    assert forall|r: int| 0 <= r < 2 * n implies #[trigger] u2.xs[r] == t1.xs[r] && u2.zs[r]
        == t1.zs[r] && u2.rs[r] == t1.rs[r] by {
        lemma_kept(t1, u1, 0, 2 * n, r);
        lemma_kept(u1, u2, 0, 2 * n, r);
    }
}

/// The phase of a product depends on the two rows alone.
pub proof fn lemma_phase_sum_congruent(a: Tableau, b: Tableau, i: int, k: int, m: int)
    requires
        a.xs[i] == b.xs[i],
        a.zs[i] == b.zs[i],
        a.xs[k] == b.xs[k],
        a.zs[k] == b.zs[k],
    ensures
        a.phase_sum(i, k, m) == b.phase_sum(i, k, m),
    decreases m,
{
    if m > 0 {
        lemma_phase_sum_congruent(a, b, i, k, m - 1);
    }
}

/// Multiplying generator rows depends on the generator rows alone.
pub proof fn lemma_product_congruent(a: Tableau, b: Tableau, i: int, k: int)
    requires
        a.wf(),
        b.wf(),
        same_generators(a, b),
        0 <= i < 2 * a.n,
        0 <= k < 2 * a.n,
    ensures
        same_generators(a.row_product(i, k), b.row_product(i, k)),
        a.row_product(i, k).wf(),
        b.row_product(i, k).wf(),
{
    let n = a.n as int;
    lemma_kept(a, b, 0, 2 * n, i);
    lemma_kept(a, b, 0, 2 * n, k);
    lemma_phase_sum_congruent(a, b, i, k, n);
    let pa = a.row_product(i, k);
    let pb = b.row_product(i, k);
    assert(pa.xs[i] =~= pb.xs[i]);
    assert(pa.zs[i] =~= pb.zs[i]);
    assert forall|r: int| 0 <= r < 2 * n implies #[trigger] pb.xs[r] == pa.xs[r] && pb.zs[r]
        == pa.zs[r] && pb.rs[r] == pa.rs[r] by {
        if r != i {
            lemma_kept(a, b, 0, 2 * n, r);
        }
    }
}

/// Finding a row with a bit depends on the generator rows alone.
pub proof fn lemma_first_congruent(a: Tableau, b: Tableau, q: int, p: bool, lo: int, hi: int)
    requires
        same_generators(a, b),
        0 <= lo,
        hi <= 2 * a.n,
    ensures
        a.first_in(q, p, lo, hi) == b.first_in(q, p, lo, hi),
    decreases hi - lo,
{
    if lo < hi {
        lemma_kept(a, b, 0, 2 * (a.n as int), lo);
        lemma_first_congruent(a, b, q, p, lo + 1, hi);
    }
}

/// Elimination depends on the generator rows alone.
pub proof fn lemma_eliminate_congruent(a: Tableau, b: Tableau, j: int, p: bool, i: int, m: int)
    requires
        a.wf(),
        b.wf(),
        same_generators(a, b),
        0 <= j < a.n,
        a.n <= i < 2 * a.n,
        m <= 2 * a.n,
    ensures
        same_generators(a.eliminate_below(j, p, i, m), b.eliminate_below(j, p, i, m)),
        a.eliminate_below(j, p, i, m).wf(),
        b.eliminate_below(j, p, i, m).wf(),
    decreases m - i,
{
    lemma_eliminate(a, j, p, i, m);
    lemma_eliminate(b, j, p, i, m);
    if m > i + 1 {
        let n = a.n as int;
        lemma_eliminate_congruent(a, b, j, p, i, m - 1);
        let ea = a.eliminate_below(j, p, i, m - 1);
        let eb = b.eliminate_below(j, p, i, m - 1);
        lemma_eliminate(a, j, p, i, m - 1);
        lemma_eliminate(b, j, p, i, m - 1);
        lemma_kept(ea, eb, 0, 2 * n, m - 1);
        if ea.bit_in(m - 1, j, p) {
            lemma_product_congruent(ea, eb, m - 1, i);
            lemma_product_congruent(
                ea.row_product(m - 1, i),
                eb.row_product(m - 1, i),
                i - n,
                m - 1 - n,
            );
        }
    }
}

/// Swapping generator rows depends on the generator rows alone.
pub proof fn lemma_swap_congruent(a: Tableau, b: Tableau, i: int, k: int)
    requires
        a.wf(),
        b.wf(),
        same_generators(a, b),
        0 <= i < 2 * a.n,
        0 <= k < 2 * a.n,
    ensures
        same_generators(a.row_swapped(i, k), b.row_swapped(i, k)),
        a.row_swapped(i, k).wf(),
        b.row_swapped(i, k).wf(),
{
    let n = a.n as int;
    let sa = a.row_swapped(i, k);
    let sb = b.row_swapped(i, k);
    assert forall|r: int| 0 <= r < 2 * n implies #[trigger] sb.xs[r] == sa.xs[r] && sb.zs[r]
        == sa.zs[r] && sb.rs[r] == sa.rs[r] by {
        lemma_kept(a, b, 0, 2 * n, r);
        lemma_kept(a, b, 0, 2 * n, i);
        lemma_kept(a, b, 0, 2 * n, k);
    }
}

/// A pass of elimination depends on the generator rows alone.
pub proof fn lemma_pass_congruent(a: Tableau, b: Tableau, p: bool, i0: int, c: int)
    requires
        a.wf(),
        b.wf(),
        same_generators(a, b),
        a.n <= i0 <= 2 * a.n,
        0 <= c <= a.n,
    ensures
        same_generators(a.pass(p, i0, c).0, b.pass(p, i0, c).0),
        a.pass(p, i0, c).1 == b.pass(p, i0, c).1,
    decreases c,
{
    if c > 0 {
        let n = a.n as int;
        lemma_pass_congruent(a, b, p, i0, c - 1);
        lemma_pass(a, p, i0, c - 1);
        lemma_pass(b, p, i0, c - 1);
        let (sa, i) = a.pass(p, i0, c - 1);
        let (sb, ib) = b.pass(p, i0, c - 1);
        lemma_first_congruent(sa, sb, c - 1, p, i, 2 * n);
        lemma_first_in(sa, c - 1, p, i, 2 * n);
        let k = sa.first_in(c - 1, p, i, 2 * n);
        if k < 2 * n {
            lemma_swap_congruent(sa, sb, i, k);
            lemma_swap_congruent(sa.row_swapped(i, k), sb.row_swapped(i, k), i - n, k - n);
            lemma_eliminate_congruent(
                sa.row_swapped(i, k).row_swapped(i - n, k - n),
                sb.row_swapped(i, k).row_swapped(i - n, k - n),
                c - 1,
                p,
                i,
                2 * n,
            );
        }
    }
}

/// Agreement on the generator rows is transitive.
pub proof fn lemma_same_trans(a: Tableau, b: Tableau, c: Tableau)
    requires
        same_generators(a, b),
        same_generators(b, c),
    ensures
        same_generators(a, c),
{
    let n = a.n as int;
    assert forall|r: int| 0 <= r < 2 * n implies #[trigger] c.xs[r] == a.xs[r] && c.zs[r]
        == a.zs[r] && c.rs[r] == a.rs[r] by {
        lemma_kept(a, b, 0, 2 * n, r);
        lemma_kept(b, c, 0, 2 * n, r);
    }
}

/// Reduction depends on the generator rows alone.
pub proof fn lemma_reduced_congruent(a: Tableau, b: Tableau)
    requires
        a.wf(),
        b.wf(),
        same_generators(a, b),
    ensures
        a.reduced().0.wf(),
        a.reduced().0.n == a.n,
        same_generators(a.reduced().0, b.reduced().0),
        a.reduced().1 == b.reduced().1,
{
    let n = a.n as int;
    lemma_pass(a, true, n, n);
    lemma_pass(b, true, n, n);
    lemma_pass_congruent(a, b, true, n, n);
    let (ta, ia) = a.pass(true, n, n);
    let (tb, ib) = b.pass(true, n, n);
    lemma_pass(ta, false, ia, n);
    lemma_pass_congruent(ta, tb, false, ia, n);
}

/// The first Z column of a row is a qubit or `n`.
pub proof fn lemma_first_z_below(t: Tableau, i: int, m: int)
    requires
        m <= t.n,
    ensures
        0 <= t.first_z_below(i, m) <= t.n,
    decreases m,
{
    if m > 0 {
        lemma_first_z_below(t, i, m - 1);
    }
}

/// Seeding from one row changes the scratch row alone.
pub proof fn lemma_seed_row(t: Tableau, i: int)
    requires
        t.wf(),
    ensures
        t.seed_row(i).wf(),
        same_generators(t, t.seed_row(i)),
{
    let n = t.n as int;
    let v = t.seed_row(i);
    let f = (t.rs[i] + 2 * t.seed_count(i, n)) % 4;
    let m = t.first_z_below(i, n);
    lemma_first_z_below(t, i, n);
    if f == 2 && m < n {
        assert(v == t.with_row(2 * n, t.xs[2 * n].update(m, !t.xs[2 * n][m]), t.zs[2 * n], t.rs[2 * n]));
        assert(t.xs[2 * n].len() == n);
        assert(v.xs[2 * n].len() == n);
        assert forall|r: int| 0 <= r < v.rows() implies (#[trigger] v.xs[r]).len() == v.n by {
            if r != 2 * n {
                assert(v.xs[r] == t.xs[r]);
            }
        }
    }
}

/// Seeding changes the scratch row alone.
pub proof fn lemma_seed_from(t: Tableau, lo: int)
    requires
        t.wf(),
    ensures
        t.seed_from(lo).wf(),
        same_generators(t, t.seed_from(lo)),
    decreases 2 * (t.n as int) - lo,
{
    if lo < 2 * (t.n as int) {
        lemma_seed_from(t, lo + 1);
        let u = t.seed_from(lo + 1);
        let v = u.seed_row(lo);
        lemma_seed_row(u, lo);
        lemma_same_trans(t, u, v);
    }
}

/// A Gray-code step changes the scratch row alone.
pub proof fn lemma_gray_mult(t: Tableau, x: u64, m: int)
    requires
        t.wf(),
        m <= t.n,
    ensures
        t.gray_mult(x, m).wf(),
        same_generators(t, t.gray_mult(x, m)),
    decreases m,
{
    if m > 0 {
        lemma_gray_mult(t, x, m - 1);
        let u = t.gray_mult(x, m - 1);
        let v = u.row_product(2 * (t.n as int), t.n + m - 1);
        assert(same_generators(u, v));
        lemma_same_trans(t, u, v);
    }
}

/// The Gray-code walk changes the scratch row alone.
pub proof fn lemma_gray_walk(t: Tableau, g: int, steps: nat)
    requires
        t.wf(),
        g <= t.n,
    ensures
        t.gray_walk(g, steps).0.wf(),
        same_generators(t, t.gray_walk(g, steps).0),
    decreases steps,
{
    if steps > 0 {
        lemma_gray_walk(t, g, (steps - 1) as nat);
        let u = t.gray_walk(g, (steps - 1) as nat).0;
        lemma_gray_mult(u, (steps - 1) as u64, g);
        lemma_same_trans(t, u, u.gray_mult((steps - 1) as u64, g));
    }
}

/// Asking again for the ket text, of the tableau that the first request
/// leaves behind, finds the same rank and gives the same text.
pub proof fn lemma_ket_repeatable(t: Tableau)
    requires
        t.wf(),
    ensures
        ({
            let (t2, text) = t.ket_model();
            &&& t2.wf()
            &&& t2.reduced().1 == t.reduced().1
            &&& t2.ket_model().1 == text
        }),
{
    let n = t.n as int;
    lemma_reduced_congruent(t, t);
    let (t1, g) = t.reduced();
    lemma_reduce_idempotent(t);
    lemma_pass(t, true, n, n);
    let g_nat = (pow2(g as nat) - 1) as nat;
    let c1 = t1.scratch_cleared();
    assert(same_generators(t1, c1));
    lemma_seed_from(c1, n + g);
    let s1 = t1.seeded(g);
    lemma_same_trans(t1, c1, s1);
    assert(g <= n);
    lemma_gray_walk(s1, g, g_nat);
    let (t2, text) = s1.gray_walk(g, g_nat);
    assert(t.ket_model() == (t2, text));
    lemma_same_trans(t1, s1, t2);
    lemma_reduced_congruent(t2, t1);
    lemma_reduced_congruent(t1, t1);
    let (v, g2) = t2.reduced();
    let (u, g1) = t1.reduced();
    assert(g2 == g);
    assert(same_generators(u, t1)) by {
        assert forall|r: int| 0 <= r < 2 * n implies #[trigger] t1.xs[r] == u.xs[r] && t1.zs[r]
            == u.zs[r] && t1.rs[r] == u.rs[r] by {
            lemma_kept(t1, u, 0, 2 * n, r);
        }
    }
    lemma_same_trans(v, u, t1);
    assert(v.scratch_cleared() =~~= t1.scratch_cleared()) by {
        assert forall|r: int| 0 <= r < 2 * n implies v.xs[r] == t1.xs[r] && v.zs[r] == t1.zs[r]
            && v.rs[r] == t1.rs[r] by {
            lemma_kept(v, t1, 0, 2 * n, r);
        }
    }
    assert(v.seeded(g) == s1);
}

} // verus!
