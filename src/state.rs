//! The stabilizer tableau: packed storage, its mathematical model, and the
//! row algebra that every gate, measurement and reduction is built from.
use vstd::prelude::*;
use crate::bits::{
    bit, slot, lemma_split, lemma_bit_xor, lemma_bit_flip, lemma_bit_single, lemma_bit_zero,
    lemma_slot, lemma_slot_distinct,
};
use crate::words::{shaped, copy_words, xor_words, clear_words};
use crate::measurement::Measurement;
use vstd::arithmetic::power2::pow2;

verus! {

/// The tableau as mathematics: for each of the `2n + 1` rows, the X bits and
/// the Z bits of its Pauli string and its phase exponent (a power of `i`).
/// Rows `0..n` are destabilizers, rows `n..2n` stabilizers, row `2n` scratch.
#[verifier::ext_equal]
pub struct Tableau {
    pub n: nat,
    pub xs: Seq<Seq<bool>>,
    pub zs: Seq<Seq<bool>>,
    pub rs: Seq<int>,
}

/// Phase exponent contributed at one qubit when the Pauli `(xk, zk)` is
/// multiplied into the Pauli `(xi, zi)`: `+1` for XY, YZ, ZX, `-1` for the
/// reverse orders, `0` otherwise.
pub open spec fn pauli_phase(xk: bool, zk: bool, xi: bool, zi: bool) -> int {
    if xk && !zk {
        if xi && zi {
            1
        } else if !xi && zi {
            -1
        } else {
            0
        }
    } else if xk && zk {
        if !xi && zi {
            1
        } else if xi && !zi {
            -1
        } else {
            0
        }
    } else if !xk && zk {
        if xi && !zi {
            1
        } else if xi && zi {
            -1
        } else {
            0
        }
    } else {
        0
    }
}

impl Tableau {
    pub open spec fn rows(self) -> int {
        2 * (self.n as int) + 1
    }

    pub open spec fn wf(self) -> bool {
        &&& self.xs.len() == self.rows()
        &&& self.zs.len() == self.rows()
        &&& self.rs.len() == self.rows()
        &&& forall|i: int| 0 <= i < self.rows() ==> (#[trigger] self.xs[i]).len() == self.n
        &&& forall|i: int| 0 <= i < self.rows() ==> (#[trigger] self.zs[i]).len() == self.n
        &&& forall|i: int| 0 <= i < self.rows() ==> 0 <= #[trigger] self.rs[i] < 4
    }

    /// The all-zero basis state on `n` qubits, with its rows below `m` filled in.
    pub open spec fn initial_upto(n: nat, m: int) -> Tableau {
        Tableau {
            n,
            xs: Seq::new(2 * n + 1, |i: int| Seq::new(n, |j: int| i < m && i < n && j == i)),
            zs: Seq::new(
                2 * n + 1,
                |i: int| Seq::new(n, |j: int| i < m && n <= i < 2 * n && j == i - n),
            ),
            rs: Seq::new(2 * n + 1, |i: int| 0),
        }
    }

    /// The all-zero basis state: destabilizer `i` is X on qubit `i`,
    /// stabilizer `i` is Z on qubit `i`, every phase is zero.
    pub open spec fn initial(n: nat) -> Tableau {
        Tableau::initial_upto(n, 2 * (n as int) + 1)
    }

    pub open spec fn with_row(self, i: int, xs: Seq<bool>, zs: Seq<bool>, r: int) -> Tableau {
        Tableau {
            n: self.n,
            xs: self.xs.update(i, xs),
            zs: self.zs.update(i, zs),
            rs: self.rs.update(i, r),
        }
    }

    /// Row `i` becomes a copy of row `k`.
    pub open spec fn row_copied(self, i: int, k: int) -> Tableau {
        self.with_row(i, self.xs[k], self.zs[k], self.rs[k])
    }

    /// Rows `i` and `k` are exchanged by way of the scratch row.
    pub open spec fn row_swapped(self, i: int, k: int) -> Tableau {
        self.row_copied(2 * (self.n as int), k).row_copied(k, i).row_copied(i, 2 * (self.n as int))
    }

    /// Row `i` becomes the single-qubit generator X on qubit `b` when `b < n`,
    /// Z on qubit `b - n` otherwise, with phase zero.
    pub open spec fn row_generator(self, i: int, b: int) -> Tableau {
        self.with_row(
            i,
            Seq::new(self.n, |j: int| b < self.n && j == b),
            Seq::new(self.n, |j: int| b >= self.n && j == b - self.n),
            0,
        )
    }

    /// Sum of the per-qubit phase contributions over the first `m` qubits of
    /// the product of row `k` into row `i`.
    pub open spec fn phase_sum(self, i: int, k: int, m: int) -> int
        decreases m,
    {
        if m <= 0 {
            0
        } else {
            self.phase_sum(i, k, m - 1) + pauli_phase(
                self.xs[k][m - 1],
                self.zs[k][m - 1],
                self.xs[i][m - 1],
                self.zs[i][m - 1],
            )
        }
    }

    /// Phase exponent, in `0..4`, of the product of row `k` into row `i`.
    pub open spec fn product_phase(self, i: int, k: int) -> int {
        (self.phase_sum(i, k, self.n as int) + self.rs[i] + self.rs[k]) % 4
    }

    /// Row `i` becomes the Pauli product of row `i` and row `k`.
    pub open spec fn row_product(self, i: int, k: int) -> Tableau {
        self.with_row(
            i,
            Seq::new(self.n, |j: int| self.xs[i][j] != self.xs[k][j]),
            Seq::new(self.n, |j: int| self.zs[i][j] != self.zs[k][j]),
            self.product_phase(i, k),
        )
    }
    /// Hadamard on qubit `q` applied to the generator rows below `m`: the X and
    /// Z bits at `q` trade places, and a Y there flips the sign.
    pub open spec fn hadamard_upto(self, q: int, m: int) -> Tableau {
        Tableau {
            n: self.n,
            xs: Seq::new(
                self.xs.len(),
                |i: int|
                    if i < m {
                        self.xs[i].update(q, self.zs[i][q])
                    } else {
                        self.xs[i]
                    },
            ),
            zs: Seq::new(
                self.zs.len(),
                |i: int|
                    if i < m {
                        self.zs[i].update(q, self.xs[i][q])
                    } else {
                        self.zs[i]
                    },
            ),
            rs: Seq::new(
                self.rs.len(),
                |i: int|
                    if i < m && self.xs[i][q] && self.zs[i][q] {
                        (self.rs[i] + 2) % 4
                    } else {
                        self.rs[i]
                    },
            ),
        }
    }

    pub open spec fn hadamard_at(self, q: int) -> Tableau {
        self.hadamard_upto(q, 2 * (self.n as int))
    }

    /// Phase gate on qubit `q` applied to the generator rows below `m`: the
    /// X bit at `q` is added into the Z bit, and a Y there flips the sign.
    pub open spec fn phase_upto(self, q: int, m: int) -> Tableau {
        Tableau {
            n: self.n,
            xs: self.xs,
            zs: Seq::new(
                self.zs.len(),
                |i: int|
                    if i < m {
                        self.zs[i].update(q, self.zs[i][q] != self.xs[i][q])
                    } else {
                        self.zs[i]
                    },
            ),
            rs: Seq::new(
                self.rs.len(),
                |i: int|
                    if i < m && self.xs[i][q] && self.zs[i][q] {
                        (self.rs[i] + 2) % 4
                    } else {
                        self.rs[i]
                    },
            ),
        }
    }

    pub open spec fn phase_at(self, q: int) -> Tableau {
        self.phase_upto(q, 2 * (self.n as int))
    }

    /// Whether CNOT with control `a` and target `b` flips the sign of row `i`.
    pub open spec fn cnot_flips(self, i: int, a: int, b: int) -> bool {
        let xa = self.xs[i][a];
        let za = self.zs[i][a];
        let xb = self.xs[i][b];
        let zb = self.zs[i][b];
        (xa && zb && xb && za) || (xa && zb && !xb && !za)
    }

    /// CNOT with control `a` and target `b` applied to the generator rows
    /// below `m`: the X bit at `a` is added into the X bit at `b`, the Z bit
    /// at `b` into the Z bit at `a`.
    pub open spec fn cnot_upto(self, a: int, b: int, m: int) -> Tableau {
        Tableau {
            n: self.n,
            xs: Seq::new(
                self.xs.len(),
                |i: int|
                    if i < m {
                        self.xs[i].update(b, self.xs[i][b] != self.xs[i][a])
                    } else {
                        self.xs[i]
                    },
            ),
            zs: Seq::new(
                self.zs.len(),
                |i: int|
                    if i < m {
                        self.zs[i].update(a, self.zs[i][a] != self.zs[i][b])
                    } else {
                        self.zs[i]
                    },
            ),
            rs: Seq::new(
                self.rs.len(),
                |i: int|
                    if i < m && self.cnot_flips(i, a, b) {
                        (self.rs[i] + 2) % 4
                    } else {
                        self.rs[i]
                    },
            ),
        }
    }

    pub open spec fn cnot_at(self, a: int, b: int) -> Tableau {
        self.cnot_upto(a, b, 2 * (self.n as int))
    }

    /// Row `i`'s X bit (if `x_part`) or Z bit at qubit `q`.
    pub open spec fn bit_in(self, i: int, q: int, x_part: bool) -> bool {
        if x_part {
            self.xs[i][q]
        } else {
            self.zs[i][q]
        }
    }

    /// The first row in `lo..hi` whose X bit (if `x_part`) or Z bit at qubit
    /// `q` is set, or `hi`.
    pub open spec fn first_in(self, q: int, x_part: bool, lo: int, hi: int) -> int
        decreases hi - lo,
    {
        if lo >= hi {
            hi
        } else if self.bit_in(lo, q, x_part) {
            lo
        } else {
            self.first_in(q, x_part, lo + 1, hi)
        }
    }

    /// The first row in `lo..hi` whose X bit at qubit `q` is set, or `hi`.
    pub open spec fn first_x(self, q: int, lo: int, hi: int) -> int {
        self.first_in(q, true, lo, hi)
    }

    /// Below pivot row `i`, each row in `i + 1..m` with its bit at column `j`
    /// set takes the pivot multiplied in, and the pivot's destabilizer takes
    /// that row's destabilizer, in row order.
    pub open spec fn eliminate_below(self, j: int, x_part: bool, i: int, m: int) -> Tableau
        decreases m - i,
    {
        if m <= i + 1 {
            self
        } else {
            let s = self.eliminate_below(j, x_part, i, m - 1);
            if s.bit_in(m - 1, j, x_part) {
                s.row_product(m - 1, i).row_product(i - self.n, m - 1 - self.n)
            } else {
                s
            }
        }
    }

    /// One column of elimination with the next pivot row `i`: the first
    /// stabilizer at or below `i` with a set bit at column `j` is swapped into
    /// row `i` (its destabilizer alongside) and cleared from the rows below.
    /// Returns the tableau and the next pivot row.
    pub open spec fn pivot_step(self, j: int, x_part: bool, i: int) -> (Tableau, int) {
        let n = self.n as int;
        let k = self.first_in(j, x_part, i, 2 * n);
        if k < 2 * n {
            let t = self.row_swapped(i, k).row_swapped(i - n, k - n);
            (t.eliminate_below(j, x_part, i, 2 * n), i + 1)
        } else {
            (self, i)
        }
    }

    /// Elimination over the columns below `c`, X bits or Z bits, starting with
    /// pivot row `i0`.
    pub open spec fn pass(self, x_part: bool, i0: int, c: int) -> (Tableau, int)
        decreases c,
    {
        if c <= 0 {
            (self, i0)
        } else {
            let (t, i) = self.pass(x_part, i0, c - 1);
            t.pivot_step(c - 1, x_part, i)
        }
    }

    /// The stabilizers brought to echelon form, first over the X bits, then
    /// over the Z bits of the rows left; with the number of X pivots.
    pub open spec fn reduced(self) -> (Tableau, int) {
        let n = self.n as int;
        let (t1, i1) = self.pass(true, n, n);
        let (t2, i2) = t1.pass(false, i1, n);
        (t2, i1 - n)
    }

    /// Start of a random outcome on qubit `q` with stabilizer `p` anticommuting:
    /// destabilizer `p` takes stabilizer `p`, which becomes Z on `q` with the
    /// sign of `outcome`.
    pub open spec fn measure_random_start(self, q: int, p: int, outcome: bool) -> Tableau {
        let s = p + self.n;
        let t = self.row_copied(p, s).row_generator(s, q + self.n);
        t.with_row(
            s,
            t.xs[s],
            t.zs[s],
            if outcome {
                2
            } else {
                0
            },
        )
    }

    /// Each row below `m` but `p` whose X bit at `q` is set takes row `p`
    /// multiplied in, in row order.
    pub open spec fn clear_x_upto(self, q: int, p: int, m: int) -> Tableau
        decreases m,
    {
        if m <= 0 {
            self
        } else {
            let s = self.clear_x_upto(q, p, m - 1);
            if m - 1 != p && s.xs[m - 1][q] {
                s.row_product(m - 1, p)
            } else {
                s
            }
        }
    }

    /// For each destabilizer `i` in `lo..m` whose X bit at `q` is set, in
    /// order, stabilizer `i` is multiplied into the scratch row.
    pub open spec fn collect_upto(self, q: int, lo: int, m: int) -> Tableau
        decreases m - lo,
    {
        if m <= lo {
            self
        } else {
            let s = self.collect_upto(q, lo, m - 1);
            if s.xs[m - 1][q] {
                s.row_product(2 * (self.n as int), m - 1 + self.n)
            } else {
                s
            }
        }
    }

    /// The tableau and outcome after measuring qubit `q` in the computational
    /// basis, where `outcome` is the bit drawn should the result be random.
    pub open spec fn measure_model(self, q: int, outcome: bool) -> (Tableau, Measurement) {
        let n = self.n as int;
        let f = self.first_x(q, n, 2 * n);
        if f < 2 * n {
            let p = f - n;
            (
                self.measure_random_start(q, p, outcome).clear_x_upto(q, p, 2 * n),
                Measurement::random_of(outcome),
            )
        } else {
            let m = self.first_x(q, 0, n);
            let s = self.row_copied(2 * n, m + n).collect_upto(q, m + 1, n);
            (s, Measurement::fixed_of(s.rs[2 * n] != 0))
        }
    }

    /// The number of qubits `j < m` at which row `i` has a Z bit and the
    /// scratch row an X bit.
    pub open spec fn seed_count(self, i: int, m: int) -> int
        decreases m,
    {
        if m <= 0 {
            0
        } else {
            self.seed_count(i, m - 1) + if self.zs[i][m - 1] && self.xs[2 * (self.n as int)][m
                - 1] {
                1int
            } else {
                0int
            }
        }
    }

    /// The first qubit below `m` at which row `i` has a Z bit, or `n`.
    pub open spec fn first_z_below(self, i: int, m: int) -> int
        decreases m,
    {
        if m <= 0 {
            self.n as int
        } else {
            let f = self.first_z_below(i, m - 1);
            if f < self.n {
                f
            } else if self.zs[i][m - 1] {
                m - 1
            } else {
                self.n as int
            }
        }
    }

    /// Make the scratch row agree with stabilizer `i`: where the sign that row
    /// `i` takes on the scratch row's basis label is negative, flip the
    /// label's bit at the first qubit where row `i` has a Z.
    pub open spec fn seed_row(self, i: int) -> Tableau {
        let s = 2 * (self.n as int);
        let f = (self.rs[i] + 2 * self.seed_count(i, self.n as int)) % 4;
        let m = self.first_z_below(i, self.n as int);
        if f == 2 && m < self.n {
            self.with_row(s, self.xs[s].update(m, !self.xs[s][m]), self.zs[s], self.rs[s])
        } else {
            self
        }
    }

    /// `seed_row` applied to rows `2n - 1` down to `lo`.
    pub open spec fn seed_from(self, lo: int) -> Tableau
        decreases 2 * (self.n as int) - lo,
    {
        if lo >= 2 * (self.n as int) {
            self
        } else {
            self.seed_from(lo + 1).seed_row(lo)
        }
    }

    /// The scratch row cleared to the identity with phase zero.
    pub open spec fn scratch_cleared(self) -> Tableau {
        self.with_row(
            2 * (self.n as int),
            Seq::new(self.n, |j: int| false),
            Seq::new(self.n, |j: int| false),
            0,
        )
    }

    /// The scratch row set to a basis state of the reduced tableau with
    /// `g` X pivots.
    pub open spec fn seeded(self, g: int) -> Tableau {
        self.scratch_cleared().seed_from(self.n + g)
    }

    /// The number of qubits `j < m` at which row `i` holds a Y.
    pub open spec fn y_count(self, i: int, m: int) -> int
        decreases m,
    {
        if m <= 0 {
            0
        } else {
            self.y_count(i, m - 1) + if self.xs[i][m - 1] && self.zs[i][m - 1] {
                1int
            } else {
                0int
            }
        }
    }

    /// The text of the basis state that the scratch row stands for: a sign
    /// (`+`, `+i`, `-`, `-i` from its phase plus one per Y), then its X bits,
    /// in ket brackets, ending the line.
    pub open spec fn basis_line(self) -> Seq<char> {
        let s = 2 * (self.n as int);
        sign_prefix((self.rs[s] + self.y_count(s, self.n as int)) % 4) + Seq::new(
            self.n,
            |j: int|
                if self.xs[s][j] {
                    '1'
                } else {
                    '0'
                },
        ) + seq!['>', '\n']
    }

    /// For each `i < m` whose bit is set in `t ^ (t + 1)`, stabilizer `i` is
    /// multiplied into the scratch row.
    pub open spec fn gray_mult(self, t: u64, m: int) -> Tableau
        decreases m,
    {
        if m <= 0 {
            self
        } else {
            let s = self.gray_mult(t, m - 1);
            if ((t ^ ((t + 1) as u64)) >> ((m - 1) as u64)) & 1u64 == 1u64 {
                s.row_product(2 * (self.n as int), self.n + m - 1)
            } else {
                s
            }
        }
    }

    /// The first `steps + 1` basis lines of a Gray-code walk over the `2^g`
    /// basis states, and the tableau after it.
    pub open spec fn gray_walk(self, g: int, steps: nat) -> (Tableau, Seq<char>)
        decreases steps,
    {
        if steps == 0 {
            (self, self.basis_line())
        } else {
            let (s, out) = self.gray_walk(g, (steps - 1) as nat);
            let s2 = s.gray_mult((steps - 1) as u64, g);
            (s2, out + s2.basis_line())
        }
    }

    /// The ket text of the state, one line per nonzero basis state, and the
    /// tableau left behind.
    pub open spec fn ket_model(self) -> (Tableau, Seq<char>) {
        let (t1, g) = self.reduced();
        t1.seeded(g).gray_walk(g, (pow2(g as nat) - 1) as nat)
    }

    /// Row `i` as text: its sign, then one Pauli letter per qubit.
    pub open spec fn row_text(self, i: int) -> Seq<char> {
        seq![
            if self.rs[i] == 2 {
                '-'
            } else {
                '+'
            },
        ] + Seq::new(self.n, |j: int| pauli_letter(self.xs[i][j], self.zs[i][j]))
    }

    /// Rows `0..m` as text: each on a line of its own, with a rule of `n + 1`
    /// dashes before the stabilizers.
    pub open spec fn rows_text(self, m: int) -> Seq<char>
        decreases m,
    {
        if m <= 0 {
            Seq::empty()
        } else {
            let head = self.rows_text(m - 1);
            let rule = if m - 1 == self.n {
                seq!['\n'] + Seq::new(self.n + 1, |j: int| '-')
            } else {
                Seq::empty()
            };
            head + rule + seq!['\n'] + self.row_text(m - 1)
        }
    }

    /// The generator rows as text, destabilizers first, ending the last line.
    pub open spec fn tableau_text(self) -> Seq<char> {
        self.rows_text(2 * (self.n as int)) + seq!['\n']
    }
}

/// The Pauli letter for an X bit and a Z bit.
pub open spec fn pauli_letter(x: bool, z: bool) -> char {
    if x && z {
        'Y'
    } else if x {
        'X'
    } else if z {
        'Z'
    } else {
        'I'
    }
}

/// The sign prefix for a phase exponent.
pub open spec fn sign_prefix(e: int) -> Seq<char> {
    if e == 0 {
        seq![' ', '+', '|']
    } else if e == 1 {
        seq!['+', 'i', '|']
    } else if e == 2 {
        seq![' ', '-', '|']
    } else {
        seq!['-', 'i', '|']
    }
}

/// An `n`-qubit stabilizer state in packed form.
///
/// `x` and `z` each hold `2n + 1` rows of `over32` words, row-major; bit
/// `j & 31` of word `j >> 5` of a row is that row's bit for qubit `j`.
/// `r` holds each row's phase exponent.
///
/// Qubit arguments must be below `n`, and the two qubits of a CNOT must
/// differ: every operation states this as a precondition, so an invalid index
/// is refused before the call rather than clamped or left to corrupt rows.
pub struct State {
    pub n: usize,
    pub over32: usize,
    pub x: Vec<u32>,
    pub z: Vec<u32>,
    pub r: Vec<u8>,
}

impl View for State {
    type V = Tableau;

    open spec fn view(&self) -> Tableau {
        Tableau {
            n: self.n as nat,
            xs: Seq::new(
                (2 * self.n + 1) as nat,
                |i: int| Seq::new(self.n as nat, |j: int| self.xbit(i, j)),
            ),
            zs: Seq::new(
                (2 * self.n + 1) as nat,
                |i: int| Seq::new(self.n as nat, |j: int| self.zbit(i, j)),
            ),
            rs: Seq::new((2 * self.n + 1) as nat, |i: int| self.r@[i] as int),
        }
    }
}

/// Qubit `j < n` lies in one of a row's `n / 32 + 1` words.
pub proof fn lemma_word_in_row(j: int, n: int)
    requires
        0 <= j < n,
    ensures
        0 <= j / 32 < n / 32 + 1,
        0 <= j % 32 < 32,
{
}

impl State {
    pub open spec fn rows(&self) -> int {
        2 * self.n + 1
    }

    pub open spec fn xbit(&self, i: int, j: int) -> bool {
        bit(self.x@[slot(self.over32 as int, i, j / 32)], j % 32)
    }

    pub open spec fn zbit(&self, i: int, j: int) -> bool {
        bit(self.z@[slot(self.over32 as int, i, j / 32)], j % 32)
    }

    pub open spec fn wf(&self) -> bool {
        &&& self.over32 == self.n / 32 + 1
        &&& 2 * self.n + 1 <= usize::MAX
        &&& shaped(self.x@, self.over32 as int, self.rows())
        &&& shaped(self.z@, self.over32 as int, self.rows())
        &&& self.r@.len() == self.rows()
        &&& forall|i: int| 0 <= i < self.rows() ==> #[trigger] self.r@[i] < 4
    }

    /// The model of a well-formed state is a well-formed tableau, so the laws
    /// about tableaux hold of every state reachable through this library.
    pub proof fn lemma_view_wf(&self)
        requires
            self.wf(),
        ensures
            self@.wf(),
    {
    }

    fn get_x(&self, i: usize, j: usize) -> (r: bool)
        requires
            self.wf(),
            i < self.rows(),
            j < self.n,
        ensures
            r == self@.xs[i as int][j as int],
    {
        proof {
            lemma_split(j);
            lemma_word_in_row(j as int, self.n as int);
            lemma_slot(self.over32 as int, self.rows(), i as int, j as int / 32);
        }
        let w = self.x[i * self.over32 + (j >> 5)];
        (w >> ((j & 31) as u32)) & 1 == 1
    }

    fn get_z(&self, i: usize, j: usize) -> (r: bool)
        requires
            self.wf(),
            i < self.rows(),
            j < self.n,
        ensures
            r == self@.zs[i as int][j as int],
    {
        proof {
            lemma_split(j);
            lemma_word_in_row(j as int, self.n as int);
            lemma_slot(self.over32 as int, self.rows(), i as int, j as int / 32);
        }
        let w = self.z[i * self.over32 + (j >> 5)];
        (w >> ((j & 31) as u32)) & 1 == 1
    }

    fn flip_x(&mut self, i: usize, j: usize)
        requires
            old(self).wf(),
            i < old(self).rows(),
            j < old(self).n,
        ensures
            final(self).wf(),
            final(self).n == old(self).n,
            final(self)@ == old(self)@.with_row(
                i as int,
                old(self)@.xs[i as int].update(j as int, !old(self)@.xs[i as int][j as int]),
                old(self)@.zs[i as int],
                old(self)@.rs[i as int],
            ),
    {
        let o = self.over32;
        proof {
            lemma_split(j);
            lemma_word_in_row(j as int, self.n as int);
            lemma_slot(o as int, self.rows(), i as int, j as int / 32);
        }
        let k = i * o + (j >> 5);
        let b = (j & 31) as u32;
        let w = self.x[k];
        self.x.set(k, w ^ (1u32 << b));
        proof {
            let t0 = old(self)@;
            let e = t0.with_row(
                i as int,
                t0.xs[i as int].update(j as int, !t0.xs[i as int][j as int]),
                t0.zs[i as int],
                t0.rs[i as int],
            );
            assert forall|a: int, c: int| 0 <= a < self.rows() && 0 <= c < self.n implies #[trigger] self.xbit(a, c) == e.xs[a][c] by {
                lemma_word_in_row(c, self.n as int);
                lemma_slot(o as int, self.rows(), a, c / 32);
                if a == i && c / 32 == j as int / 32 {
                    lemma_bit_flip(w, b, (c % 32) as u32);
                } else {
                    lemma_slot_distinct(o as int, a, c / 32, i as int, j as int / 32);
                }
            }
            assert(self@.xs =~~= e.xs);
            assert(self@.zs =~~= e.zs);
            assert(self@.rs =~~= e.rs);
        }
    }

    fn flip_z(&mut self, i: usize, j: usize)
        requires
            old(self).wf(),
            i < old(self).rows(),
            j < old(self).n,
        ensures
            final(self).wf(),
            final(self).n == old(self).n,
            final(self)@ == old(self)@.with_row(
                i as int,
                old(self)@.xs[i as int],
                old(self)@.zs[i as int].update(j as int, !old(self)@.zs[i as int][j as int]),
                old(self)@.rs[i as int],
            ),
    {
        let o = self.over32;
        proof {
            lemma_split(j);
            lemma_word_in_row(j as int, self.n as int);
            lemma_slot(o as int, self.rows(), i as int, j as int / 32);
        }
        let k = i * o + (j >> 5);
        let b = (j & 31) as u32;
        let w = self.z[k];
        self.z.set(k, w ^ (1u32 << b));
        proof {
            let t0 = old(self)@;
            let e = t0.with_row(
                i as int,
                t0.xs[i as int],
                t0.zs[i as int].update(j as int, !t0.zs[i as int][j as int]),
                t0.rs[i as int],
            );
            assert forall|a: int, c: int| 0 <= a < self.rows() && 0 <= c < self.n implies #[trigger] self.zbit(a, c) == e.zs[a][c] by {
                lemma_word_in_row(c, self.n as int);
                lemma_slot(o as int, self.rows(), a, c / 32);
                if a == i && c / 32 == j as int / 32 {
                    lemma_bit_flip(w, b, (c % 32) as u32);
                } else {
                    lemma_slot_distinct(o as int, a, c / 32, i as int, j as int / 32);
                }
            }
            assert(self@.xs =~~= e.xs);
            assert(self@.zs =~~= e.zs);
            assert(self@.rs =~~= e.rs);
        }
    }

    fn set_phase(&mut self, i: usize, v: u8)
        requires
            old(self).wf(),
            i < old(self).rows(),
            v < 4,
        ensures
            final(self).wf(),
            final(self).n == old(self).n,
            final(self)@ == old(self)@.with_row(
                i as int,
                old(self)@.xs[i as int],
                old(self)@.zs[i as int],
                v as int,
            ),
    {
        self.r.set(i, v);
        proof {
            let e = old(self)@.with_row(
                i as int,
                old(self)@.xs[i as int],
                old(self)@.zs[i as int],
                v as int,
            );
            assert(self@.xs =~~= e.xs);
            assert(self@.zs =~~= e.zs);
            assert(self@.rs =~~= e.rs);
        }
    }

    /// Row `i` := row `k`, bits and phase.
    fn rowcopy(&mut self, i: usize, k: usize)
        requires
            old(self).wf(),
            i < old(self).rows(),
            k < old(self).rows(),
        ensures
            final(self).wf(),
            final(self).n == old(self).n,
            final(self)@ == old(self)@.row_copied(i as int, k as int),
    {
        let o = self.over32;
        let rows = 2 * self.n + 1;
        copy_words(&mut self.x, o, rows, i, k);
        copy_words(&mut self.z, o, rows, i, k);
        let rk = self.r[k];
        self.r.set(i, rk);
        proof {
            let e = old(self)@.row_copied(i as int, k as int);
            assert forall|a: int, c: int|
                #![trigger self.xbit(a, c)]
                #![trigger self.zbit(a, c)]
                0 <= a < self.rows() && 0 <= c < self.n implies self.xbit(a, c) == e.xs[a][c]
                && self.zbit(a, c) == e.zs[a][c] by {
                lemma_word_in_row(c, self.n as int);
            }
            assert(self@.xs =~~= e.xs);
            assert(self@.zs =~~= e.zs);
            assert(self@.rs =~~= e.rs);
        }
    }

    /// Row `i` := the Pauli product of row `i` and row `k`.
    fn rowmult(&mut self, i: usize, k: usize)
        requires
            old(self).wf(),
            i < old(self).rows(),
            k < old(self).rows(),
            i != k,
        ensures
            final(self).wf(),
            final(self).n == old(self).n,
            final(self)@ == old(self)@.row_product(i as int, k as int),
    {
        let ph = self.clifford(i, k);
        let o = self.over32;
        let rows = 2 * self.n + 1;
        xor_words(&mut self.x, o, rows, i, k);
        xor_words(&mut self.z, o, rows, i, k);
        self.r.set(i, ph);
        proof {
            let t0 = old(self)@;
            let e = t0.row_product(i as int, k as int);
            assert forall|a: int, c: int|
                #![trigger self.xbit(a, c)]
                #![trigger self.zbit(a, c)]
                0 <= a < self.rows() && 0 <= c < self.n implies self.xbit(a, c) == e.xs[a][c]
                && self.zbit(a, c) == e.zs[a][c] by {
                lemma_word_in_row(c, self.n as int);
                if a == i {
                    let s_i = slot(o as int, i as int, c / 32);
                    let s_k = slot(o as int, k as int, c / 32);
                    lemma_bit_xor(old(self).x@[s_i], old(self).x@[s_k], (c % 32) as u32);
                    lemma_bit_xor(old(self).z@[s_i], old(self).z@[s_k], (c % 32) as u32);
                }
            }
            assert(self@.xs =~~= e.xs);
            assert(self@.zs =~~= e.zs);
            assert(self@.rs =~~= e.rs);
        }
    }

    /// Row `i` := row `i` and row `k` exchanged, through the scratch row.
    fn rowswap(&mut self, i: usize, k: usize)
        requires
            old(self).wf(),
            i < 2 * old(self).n,
            k < 2 * old(self).n,
        ensures
            final(self).wf(),
            final(self).n == old(self).n,
            final(self)@ == old(self)@.row_swapped(i as int, k as int),
    {
        let s = 2 * self.n;
        self.rowcopy(s, k);
        self.rowcopy(k, i);
        self.rowcopy(i, s);
    }

    /// Phase exponent, in `0..4`, of the product of row `k` into row `i`:
    /// the per-qubit contributions and both phases, summed modulo 4.
    fn clifford(&self, i: usize, k: usize) -> (e: u8)
        requires
            self.wf(),
            i < self.rows(),
            k < self.rows(),
        ensures
            e < 4,
            e as int == self@.product_phase(i as int, k as int),
    {
        let mut e: u8 = 0;
        let mut j: usize = 0;
        while j < self.n
            invariant
                self.wf(),
                i < self.rows(),
                k < self.rows(),
                j <= self.n,
                e < 4,
                e as int == self@.phase_sum(i as int, k as int, j as int) % 4,
            decreases self.n - j,
        {
            let xk = self.get_x(k, j);
            let zk = self.get_z(k, j);
            let xi = self.get_x(i, j);
            let zi = self.get_z(i, j);
            let ghost s = self@.phase_sum(i as int, k as int, j as int);
            let up = (xk && !zk && xi && zi) || (xk && zk && !xi && zi) || (!xk && zk && xi && !zi);
            let down = (xk && !zk && !xi && zi) || (xk && zk && xi && !zi) || (!xk && zk && xi
                && zi);
            if up {
                e = (e + 1) % 4;
                proof {
                    lemma_mod4_step(s, 1);
                }
            } else if down {
                e = (e + 3) % 4;
                proof {
                    lemma_mod4_step(s, 3);
                    lemma_mod4_step(s - 1, 4);
                }
            }
            j = j + 1;
        }
        let ri = self.r[i];
        let rk = self.r[k];
        proof {
            lemma_mod4_step(self@.phase_sum(i as int, k as int, self.n as int), ri + rk);
        }
        (e + ri + rk) % 4
    }

    /// Row `i` := the generator X on qubit `b` if `b < n`, else Z on qubit
    /// `b - n`; phase zero.
    fn rowset(&mut self, i: usize, b: usize)
        requires
            old(self).wf(),
            i < old(self).rows(),
            b < 2 * old(self).n,
        ensures
            final(self).wf(),
            final(self).n == old(self).n,
            final(self)@ == old(self)@.row_generator(i as int, b as int),
    {
        let o = self.over32;
        let n = self.n;
        let rows = 2 * n + 1;
        clear_words(&mut self.x, o, rows, i);
        clear_words(&mut self.z, o, rows, i);
        self.r.set(i, 0);
        let ghost x1 = self.x@;
        let ghost z1 = self.z@;
        let q = if b < n {
            b
        } else {
            b - n
        };
        proof {
            lemma_split(q);
            lemma_word_in_row(q as int, n as int);
            lemma_slot(o as int, rows as int, i as int, q as int / 32);
        }
        let at = i * o + (q >> 5);
        let m = 1u32 << ((q & 31) as u32);
        if b < n {
            self.x.set(at, m);
        } else {
            self.z.set(at, m);
        }
        proof {
            let e = old(self)@.row_generator(i as int, b as int);
            assert forall|a: int, c: int|
                #![trigger self.xbit(a, c)]
                #![trigger self.zbit(a, c)]
                0 <= a < self.rows() && 0 <= c < self.n implies self.xbit(a, c) == e.xs[a][c]
                && self.zbit(a, c) == e.zs[a][c] by {
                lemma_word_in_row(c, n as int);
                lemma_slot(o as int, rows as int, a, c / 32);
                if a == i {
                    lemma_bit_zero((c % 32) as u32);
                    if c / 32 == q as int / 32 {
                        lemma_bit_single((q % 32) as u32, (c % 32) as u32);
                    } else {
                        lemma_slot_distinct(o as int, a, c / 32, i as int, q as int / 32);
                    }
                } else {
                    lemma_slot_distinct(o as int, a, c / 32, i as int, q as int / 32);
                }
            }
            assert(self@.xs =~~= e.xs);
            assert(self@.zs =~~= e.zs);
            assert(self@.rs =~~= e.rs);
        }
    }
}

/// Reducing modulo 4 before adding changes nothing modulo 4.
pub proof fn lemma_mod4_step(s: int, d: int)
    ensures
        ((s % 4) + d) % 4 == (s + d) % 4,
{
    vstd::arithmetic::div_mod::lemma_add_mod_noop(s, d, 4);
    vstd::arithmetic::div_mod::lemma_add_mod_noop(s % 4, d, 4);
    vstd::arithmetic::div_mod::lemma_mod_twice(s, 4);
}

/// A zeroed bit matrix for `n` qubits: `2n + 1` rows of `n / 32 + 1` words.
pub fn binary_matrix(n: usize) -> (m: Vec<u32>)
    requires
        (2 * n + 1) * (n / 32 + 1) <= usize::MAX,
    ensures
        m@.len() == (2 * n + 1) * (n / 32 + 1),
        forall|k: int| 0 <= k < m@.len() ==> #[trigger] m@[k] == 0u32,
{
    proof {
        assert(2 * n + 1 <= (2 * n + 1) * (n / 32 + 1)) by (nonlinear_arith);
        lemma_split(n);
    }
    let len = (2 * n + 1) * ((n >> 5) + 1);
    let mut m: Vec<u32> = Vec::new();
    let mut w: usize = 0;
    while w < len
        invariant
            w <= len,
            m@.len() == w,
            forall|k: int| 0 <= k < w ==> #[trigger] m@[k] == 0u32,
        decreases len - w,
    {
        m.push(0);
        w = w + 1;
    }
    m
}

impl State {
    /// Create a quantum state with `n` qubits, all in `|0>`.
    pub fn new(n: usize) -> (s: State)
        requires
            (2 * n + 1) * (n / 32 + 1) <= usize::MAX,
        ensures
            s.wf(),
            s@ == Tableau::initial(n as nat),
    {
        proof {
            assert(2 * n + 1 <= (2 * n + 1) * (n / 32 + 1)) by (nonlinear_arith);
        }
        proof {
            lemma_split(n);
        }
        let over32 = (n >> 5) + 1;
        let rows = 2 * n + 1;
        let x = binary_matrix(n);
        let z = binary_matrix(n);
        let mut r: Vec<u8> = Vec::new();
        let mut k: usize = 0;
        while k < rows
            invariant
                k <= rows,
                r@.len() == k,
                forall|a: int| 0 <= a < k ==> #[trigger] r@[a] == 0u8,
            decreases rows - k,
        {
            r.push(0);
            k = k + 1;
        }
        let mut s = State { n, over32, x, z, r };
        proof {
            assert forall|a: int, c: int|
                #![trigger s.xbit(a, c)]
                #![trigger s.zbit(a, c)]
                0 <= a < s.rows() && 0 <= c < n implies !s.xbit(a, c) && !s.zbit(a, c) by {
                lemma_word_in_row(c, n as int);
                lemma_slot(over32 as int, rows as int, a, c / 32);
                lemma_bit_zero((c % 32) as u32);
            }
            assert(s@ =~~= Tableau::initial_upto(n as nat, 0));
        }
        let mut i: usize = 0;
        while i < 2 * n
            invariant
                s.wf(),
                s.n == n,
                i <= 2 * n,
                s@ == Tableau::initial_upto(n as nat, i as int),
            decreases 2 * n - i,
        {
            if i < n {
                s.flip_x(i, i);
            } else {
                s.flip_z(i, i - n);
            }
            proof {
                assert(s@ =~~= Tableau::initial_upto(n as nat, i + 1));
            }
            i = i + 1;
        }
        proof {
            assert(s@ =~~= Tableau::initial(n as nat));
        }
        s
    }

    /// Apply the Hadamard gate to qubit `target`.
    pub fn hadamard(&mut self, target: usize)
        requires
            old(self).wf(),
            target < old(self).n,
        ensures
            final(self).wf(),
            final(self).n == old(self).n,
            final(self)@ == old(self)@.hadamard_at(target as int),
    {
        let ghost t0 = self@;
        let n = self.n;
        let mut i: usize = 0;
        while i < 2 * n
            invariant
                self.wf(),
                self.n == n,
                target < n,
                i <= 2 * n,
                t0.wf(),
                t0.n == n,
                self@ == t0.hadamard_upto(target as int, i as int),
            decreases 2 * n - i,
        {
            let xb = self.get_x(i, target);
            let zb = self.get_z(i, target);
            let ri = self.r[i];
            proof {
                assert(self@.rs[i as int] == ri as int);
                assert(ri as int == t0.rs[i as int]);
                assert(xb == t0.xs[i as int][target as int]);
                assert(zb == t0.zs[i as int][target as int]);
            }
            if xb != zb {
                self.flip_x(i, target);
                self.flip_z(i, target);
            }
            if xb && zb {
                self.set_phase(i, (ri + 2) % 4);
            }
            proof {
                let goal = t0.hadamard_upto(target as int, i + 1);
                assert(self@.rs[i as int] == goal.rs[i as int]);
                assert(self@.xs =~~= goal.xs);
                assert(self@.zs =~~= goal.zs);
                assert(self@.rs =~~= goal.rs);
                assert(self@ =~~= goal);
            }
            i = i + 1;
        }
    }

    /// Apply the Hadamard gate to qubit `target`.
    pub fn h(&mut self, target: usize)
        requires
            old(self).wf(),
            target < old(self).n,
        ensures
            final(self).wf(),
            final(self).n == old(self).n,
            final(self)@ == old(self)@.hadamard_at(target as int),
    {
        self.hadamard(target)
    }

    /// Apply the phase gate S to qubit `target`.
    pub fn phase(&mut self, target: usize)
        requires
            old(self).wf(),
            target < old(self).n,
        ensures
            final(self).wf(),
            final(self).n == old(self).n,
            final(self)@ == old(self)@.phase_at(target as int),
    {
        let ghost t0 = self@;
        let n = self.n;
        let mut i: usize = 0;
        while i < 2 * n
            invariant
                self.wf(),
                self.n == n,
                target < n,
                i <= 2 * n,
                t0.wf(),
                t0.n == n,
                self@ == t0.phase_upto(target as int, i as int),
            decreases 2 * n - i,
        {
            let xb = self.get_x(i, target);
            let zb = self.get_z(i, target);
            let ri = self.r[i];
            proof {
                assert(self@.rs[i as int] == ri as int);
                assert(ri as int == t0.rs[i as int]);
                assert(xb == t0.xs[i as int][target as int]);
                assert(zb == t0.zs[i as int][target as int]);
            }
            if xb && zb {
                self.set_phase(i, (ri + 2) % 4);
            }
            if xb {
                self.flip_z(i, target);
            }
            proof {
                let goal = t0.phase_upto(target as int, i + 1);
                assert(self@.rs[i as int] == goal.rs[i as int]);
                assert(self@.xs =~~= goal.xs);
                assert(self@.zs =~~= goal.zs);
                assert(self@.rs =~~= goal.rs);
                assert(self@ =~~= goal);
            }
            i = i + 1;
        }
    }

    /// Apply the controlled-NOT gate with control qubit `first` and target
    /// qubit `second`: a NOT on `second` whenever `first` is `|1>`.
    pub fn cnot(&mut self, first: usize, second: usize)
        requires
            old(self).wf(),
            first < old(self).n,
            second < old(self).n,
            first != second,
        ensures
            final(self).wf(),
            final(self).n == old(self).n,
            final(self)@ == old(self)@.cnot_at(first as int, second as int),
    {
        let ghost t0 = self@;
        let n = self.n;
        let mut i: usize = 0;
        while i < 2 * n
            invariant
                self.wf(),
                self.n == n,
                first < n,
                second < n,
                first != second,
                i <= 2 * n,
                t0.wf(),
                t0.n == n,
                self@ == t0.cnot_upto(first as int, second as int, i as int),
            decreases 2 * n - i,
        {
            let xa = self.get_x(i, first);
            let za = self.get_z(i, first);
            let xb = self.get_x(i, second);
            let zb = self.get_z(i, second);
            let ri = self.r[i];
            if xa {
                self.flip_x(i, second);
            }
            if zb {
                self.flip_z(i, first);
            }
            proof {
                assert(self@.rs[i as int] == ri as int);
                assert(ri as int == t0.rs[i as int]);
                assert(xa == t0.xs[i as int][first as int]);
                assert(za == t0.zs[i as int][first as int]);
                assert(xb == t0.xs[i as int][second as int]);
                assert(zb == t0.zs[i as int][second as int]);
            }
            if (xa && zb && xb && za) || (xa && zb && !xb && !za) {
                self.set_phase(i, (ri + 2) % 4);
            }
            proof {
                let goal = t0.cnot_upto(first as int, second as int, i + 1);
                assert(self@.rs[i as int] == goal.rs[i as int]);
                assert(self@.xs =~~= goal.xs);
                assert(self@.zs =~~= goal.zs);
                assert(self@.rs =~~= goal.rs);
                assert(self@ =~~= goal);
            }
            i = i + 1;
        }
    }

    /// Apply the controlled-NOT gate with control qubit `first` and target
    /// qubit `second`.
    pub fn cx(&mut self, first: usize, second: usize)
        requires
            old(self).wf(),
            first < old(self).n,
            second < old(self).n,
            first != second,
        ensures
            final(self).wf(),
            final(self).n == old(self).n,
            final(self)@ == old(self)@.cnot_at(first as int, second as int),
    {
        self.cnot(first, second)
    }
}

impl State {
    fn find_x(&self, q: usize, lo: usize, hi: usize) -> (f: usize)
        requires
            self.wf(),
            q < self.n,
            lo <= hi <= 2 * self.n,
        ensures
            f == self@.first_x(q as int, lo as int, hi as int),
            lo <= f <= hi,
    {
        self.find_in(q, true, lo, hi)
    }

    /// Index of the first row in `lo..hi` whose X bit (if `x_part`) or Z bit
    /// at `q` is set, or `hi`.
    fn find_in(&self, q: usize, x_part: bool, lo: usize, hi: usize) -> (f: usize)
        requires
            self.wf(),
            q < self.n,
            lo <= hi <= 2 * self.n,
        ensures
            f == self@.first_in(q as int, x_part, lo as int, hi as int),
            lo <= f <= hi,
    {
        let mut a: usize = lo;
        let mut hit = false;
        while !hit && a < hi
            invariant
                self.wf(),
                q < self.n,
                lo <= a <= hi <= 2 * self.n,
                self@.first_in(q as int, x_part, lo as int, hi as int) == self@.first_in(
                    q as int,
                    x_part,
                    a as int,
                    hi as int,
                ),
                hit ==> a < hi && self@.bit_in(a as int, q as int, x_part),
            decreases hi - a + if hit {
                0int
            } else {
                1int
            },
        {
            let b = if x_part {
                self.get_x(a, q)
            } else {
                self.get_z(a, q)
            };
            if b {
                hit = true;
            } else {
                a = a + 1;
            }
        }
        a
    }

    /// Measure qubit `target`, taking `outcome` as the bit drawn should the
    /// result be random.
    pub fn measure_with(&mut self, target: usize, outcome: bool) -> (m: Measurement)
        requires
            old(self).wf(),
            target < old(self).n,
        ensures
            final(self).wf(),
            final(self).n == old(self).n,
            (final(self)@, m) == old(self)@.measure_model(target as int, outcome),
    {
        let ghost t0 = self@;
        let n = self.n;
        let f = self.find_x(target, n, 2 * n);
        if f < 2 * n {
            let p = f - n;
            self.rowcopy(p, f);
            self.rowset(f, target + n);
            self.set_phase(
                f,
                if outcome {
                    2
                } else {
                    0
                },
            );
            let ghost start = self@;
            proof {
                assert(start == t0.measure_random_start(target as int, p as int, outcome));
            }
            let mut i: usize = 0;
            while i < 2 * n
                invariant
                    self.wf(),
                    self.n == n,
                    target < n,
                    p < n,
                    i <= 2 * n,
                    start.n == n,
                    self@ == start.clear_x_upto(target as int, p as int, i as int),
                decreases 2 * n - i,
            {
                if i != p && self.get_x(i, target) {
                    self.rowmult(i, p);
                }
                i = i + 1;
            }
            Measurement::random(outcome)
        } else {
            let m = self.find_x(target, 0, n);
            self.rowcopy(2 * n, m + n);
            let ghost start = self@;
            let mut i: usize = m + 1;
            while i < n
                invariant
                    self.wf(),
                    self.n == n,
                    target < n,
                    m < i <= n + 1,
                    i <= n || i == m + 1,
                    start.n == n,
                    self@ == start.collect_upto(target as int, m + 1, i as int),
                decreases n + 1 - i,
            {
                if self.get_x(i, target) {
                    self.rowmult(2 * n, i + n);
                }
                i = i + 1;
            }
            let neg = self.r[2 * n] > 0;
            Measurement::fixed(neg)
        }
    }

    /// Measure qubit `target` in the computational basis. A random outcome
    /// takes its bit from the thread-local generator.
    pub fn measure(&mut self, target: usize) -> (m: Measurement)
        requires
            old(self).wf(),
            target < old(self).n,
        ensures
            final(self).wf(),
            final(self).n == old(self).n,
            exists|outcome: bool|
                (final(self)@, m) == #[trigger] old(self)@.measure_model(target as int, outcome),
    {
        let outcome = random_bit();
        self.measure_with(target, outcome)
    }
}

/// Relies on rand::random: a bool drawn from the thread-local generator.
#[verifier::external_body]
fn random_bit() -> bool {
    rand::random::<bool>()
}

impl State {
    /// One column of elimination with pivot row `i`.
    fn pivot_column(&mut self, j: usize, x_part: bool, i: usize) -> (next: usize)
        requires
            old(self).wf(),
            j < old(self).n,
            old(self).n <= i <= 2 * old(self).n,
        ensures
            final(self).wf(),
            final(self).n == old(self).n,
            (final(self)@, next as int) == old(self)@.pivot_step(j as int, x_part, i as int),
            i <= next <= 2 * old(self).n,
    {
        let n = self.n;
        let k = self.find_in(j, x_part, i, 2 * n);
        if k < 2 * n {
            self.rowswap(i, k);
            self.rowswap(i - n, k - n);
            let ghost t1 = self@;
            let mut k2: usize = i + 1;
            while k2 < 2 * n
                invariant
                    self.wf(),
                    self.n == n,
                    j < n,
                    n <= i < 2 * n,
                    i < k2 <= 2 * n,
                    t1.n == n,
                    self@ == t1.eliminate_below(j as int, x_part, i as int, k2 as int),
                decreases 2 * n - k2,
            {
                let b = if x_part {
                    self.get_x(k2, j)
                } else {
                    self.get_z(k2, j)
                };
                if b {
                    self.rowmult(k2, i);
                    self.rowmult(i - n, k2 - n);
                }
                k2 = k2 + 1;
            }
            i + 1
        } else {
            i
        }
    }

    /// Elimination over every column, X bits or Z bits, from pivot row `i0`.
    fn pass(&mut self, x_part: bool, i0: usize) -> (next: usize)
        requires
            old(self).wf(),
            old(self).n <= i0 <= 2 * old(self).n,
        ensures
            final(self).wf(),
            final(self).n == old(self).n,
            (final(self)@, next as int) == old(self)@.pass(x_part, i0 as int, old(self).n as int),
            i0 <= next <= 2 * old(self).n,
    {
        let ghost t0 = self@;
        let n = self.n;
        let mut i = i0;
        let mut j: usize = 0;
        while j < n
            invariant
                self.wf(),
                self.n == n,
                t0.n == n,
                j <= n,
                n <= i0 <= i <= 2 * n,
                (self@, i as int) == t0.pass(x_part, i0 as int, j as int),
            decreases n - j,
        {
            i = self.pivot_column(j, x_part, i);
            j = j + 1;
        }
        i
    }

    /// Bring the stabilizers to echelon form by Gaussian elimination and
    /// return `g`: the state has `2^g` nonzero basis amplitudes.
    pub fn nonzero(&mut self) -> (g: usize)
        requires
            old(self).wf(),
        ensures
            final(self).wf(),
            final(self).n == old(self).n,
            (final(self)@, g as int) == old(self)@.reduced(),
            g <= old(self).n,
    {
        let n = self.n;
        let i1 = self.pass(true, n);
        let _i2 = self.pass(false, i1);
        i1 - n
    }
}

impl State {
    /// Clear the scratch row to the identity with phase zero.
    fn clear_scratch(&mut self)
        requires
            old(self).wf(),
        ensures
            final(self).wf(),
            final(self).n == old(self).n,
            final(self)@ == old(self)@.scratch_cleared(),
    {
        let o = self.over32;
        let n = self.n;
        let rows = 2 * n + 1;
        clear_words(&mut self.x, o, rows, 2 * n);
        clear_words(&mut self.z, o, rows, 2 * n);
        self.r.set(2 * n, 0);
        proof {
            let e = old(self)@.scratch_cleared();
            assert forall|a: int, c: int|
                #![trigger self.xbit(a, c)]
                #![trigger self.zbit(a, c)]
                0 <= a < self.rows() && 0 <= c < self.n implies self.xbit(a, c) == e.xs[a][c]
                && self.zbit(a, c) == e.zs[a][c] by {
                lemma_word_in_row(c, n as int);
                lemma_bit_zero((c % 32) as u32);
            }
            assert(self@.xs =~~= e.xs);
            assert(self@.zs =~~= e.zs);
            assert(self@.rs =~~= e.rs);
        }
    }

    /// Make the scratch row agree with stabilizer `i`.
    fn seed_row(&mut self, i: usize)
        requires
            old(self).wf(),
            i < 2 * old(self).n,
        ensures
            final(self).wf(),
            final(self).n == old(self).n,
            final(self)@ == old(self)@.seed_row(i as int),
    {
        let n = self.n;
        let s = 2 * n;
        let mut f: u8 = self.r[i];
        let mut min: usize = n;
        let mut j: usize = 0;
        while j < n
            invariant
                self.wf(),
                self.n == n,
                s == 2 * n,
                i < 2 * n,
                j <= n,
                f < 4,
                f as int == (self@.rs[i as int] + 2 * self@.seed_count(i as int, j as int)) % 4,
                min as int == self@.first_z_below(i as int, j as int),
                min <= n,
                min < n ==> min < j,
            decreases n - j,
        {
            if self.get_z(i, j) {
                if min == n {
                    min = j;
                }
                if self.get_x(s, j) {
                    proof {
                        lemma_mod4_step(
                            self@.rs[i as int] + 2 * self@.seed_count(i as int, j as int),
                            2,
                        );
                    }
                    f = (f + 2) % 4;
                }
            }
            j = j + 1;
        }
        if f == 2 && min < n {
            self.flip_x(s, min);
        }
    }

    /// Set the scratch row to a basis state of the reduced tableau with `g`
    /// X pivots.
    fn seed(&mut self, g: usize)
        requires
            old(self).wf(),
            g <= old(self).n,
        ensures
            final(self).wf(),
            final(self).n == old(self).n,
            final(self)@ == old(self)@.seeded(g as int),
    {
        self.clear_scratch();
        let ghost c = self@;
        let n = self.n;
        let mut lo = 2 * n;
        while lo > n + g
            invariant
                self.wf(),
                self.n == n,
                c.n == n,
                g <= n,
                n + g <= lo <= 2 * n,
                self@ == c.seed_from(lo as int),
            decreases lo,
        {
            lo = lo - 1;
            self.seed_row(lo);
        }
    }

    /// Append the basis line that the scratch row stands for.
    fn push_basis_line(&self, out: &mut String)
        requires
            self.wf(),
        ensures
            final(out)@ == old(out)@ + self@.basis_line(),
    {
        let n = self.n;
        let s = 2 * n;
        let mut e: u8 = self.r[s];
        let mut j: usize = 0;
        while j < n
            invariant
                self.wf(),
                self.n == n,
                s == 2 * n,
                j <= n,
                e < 4,
                e as int == (self@.rs[s as int] + self@.y_count(s as int, j as int)) % 4,
            decreases n - j,
        {
            if self.get_x(s, j) && self.get_z(s, j) {
                proof {
                    lemma_mod4_step(self@.rs[s as int] + self@.y_count(s as int, j as int), 1);
                }
                e = (e + 1) % 4;
            }
            j = j + 1;
        }
        proof {
            reveal_strlit(" +|");
            reveal_strlit("+i|");
            reveal_strlit(" -|");
            reveal_strlit("-i|");
            reveal_strlit("1");
            reveal_strlit("0");
            reveal_strlit(">\n");
        }
        if e == 0 {
            out.append(" +|");
        } else if e == 1 {
            out.append("+i|");
        } else if e == 2 {
            out.append(" -|");
        } else {
            out.append("-i|");
        }
        let ghost head = out@;
        let ghost label = Seq::new(
            n as nat,
            |c: int|
                if self@.xs[s as int][c] {
                    '1'
                } else {
                    '0'
                },
        );
        let mut j: usize = 0;
        while j < n
            invariant
                self.wf(),
                self.n == n,
                s == 2 * n,
                j <= n,
                label.len() == n,
                out@ == head + label.subrange(0, j as int),
                forall|c: int|
                    0 <= c < n ==> #[trigger] label[c] == if self@.xs[s as int][c] {
                        '1'
                    } else {
                        '0'
                    },
            decreases n - j,
        {
            proof {
                reveal_strlit("1");
                reveal_strlit("0");
            }
            if self.get_x(s, j) {
                out.append("1");
            } else {
                out.append("0");
            }
            proof {
                assert(label.subrange(0, j + 1) =~= label.subrange(0, j as int).push(label[j as int]));
                assert(out@ =~= head + label.subrange(0, j + 1));
            }
            j = j + 1;
        }
        out.append(">\n");
        proof {
            assert(label.subrange(0, n as int) =~= label);
            assert(out@ =~= old(out)@ + self@.basis_line());
        }
    }

    /// One Gray-code step: stabilizer `i` is multiplied into the scratch row
    /// for each `i < g` whose bit is set in `t ^ (t + 1)`.
    fn gray_step(&mut self, t: u64, g: usize)
        requires
            old(self).wf(),
            t < u64::MAX,
            g <= old(self).n,
            g < 64,
        ensures
            final(self).wf(),
            final(self).n == old(self).n,
            final(self)@ == old(self)@.gray_mult(t, g as int),
    {
        let ghost t0 = self@;
        let n = self.n;
        let t2 = t ^ (t + 1);
        let mut i: usize = 0;
        while i < g
            invariant
                self.wf(),
                self.n == n,
                t0.n == n,
                t < u64::MAX,
                t2 == t ^ ((t + 1) as u64),
                g <= n,
                g < 64,
                i <= g,
                self@ == t0.gray_mult(t, i as int),
            decreases g - i,
        {
            if (t2 >> (i as u64)) & 1 == 1 {
                self.rowmult(2 * n, n + i);
            }
            i = i + 1;
        }
    }

    /// The state in ket notation: one line per nonzero basis state, each a
    /// sign (` +`, `+i`, ` -`, `-i`) and the qubits' bits, as in ` +|01>`.
    /// Reduces the tableau first and leaves a basis state in the scratch row.
    pub fn ket(&mut self) -> (text: String)
        requires
            old(self).wf(),
            old(self)@.reduced().1 < 64,
        ensures
            final(self).wf(),
            final(self).n == old(self).n,
            (final(self)@, text@) == old(self)@.ket_model(),
    {
        let g = self.nonzero();
        self.seed(g);
        let ghost t1 = self@;
        let mut out = String::new();
        self.push_basis_line(&mut out);
        proof {
            assert(out@ =~= t1.basis_line());
        }
        let mut total: u64 = 1;
        let mut i: usize = 0;
        proof {
            vstd::arithmetic::power2::lemma2_to64();
        }
        while i < g
            invariant
                i <= g,
                g < 64,
                total as nat == pow2(i as nat),
            decreases g - i,
        {
            proof {
                vstd::arithmetic::power2::lemma_pow2_unfold((i + 1) as nat);
                vstd::arithmetic::power2::lemma_pow2_strictly_increases((i + 1) as nat, 64);
                vstd::arithmetic::power2::lemma2_to64();
            }
            total = total * 2;
            i = i + 1;
        }
        proof {
            vstd::arithmetic::power2::lemma_pow2_pos(g as nat);
        }
        let mut t: u64 = 0;
        while t < total - 1
            invariant
                self.wf(),
                self.n == t1.n,
                g <= self.n,
                g < 64,
                total >= 1,
                t <= total - 1,
                (self@, out@) == t1.gray_walk(g as int, t as nat),
            decreases total - 1 - t,
        {
            self.gray_step(t, g);
            self.push_basis_line(&mut out);
            t = t + 1;
        }
        out
    }
}

impl State {
    /// The generator rows as text: destabilizers, a rule of dashes, then
    /// stabilizers, each row a sign and one of `I`, `X`, `Y`, `Z` per qubit.
    pub fn render(&self) -> (text: String)
        requires
            self.wf(),
        ensures
            text@ == self@.tableau_text(),
    {
        let n = self.n;
        let mut out = String::new();
        let mut i: usize = 0;
        while i < 2 * n
            invariant
                self.wf(),
                self.n == n,
                i <= 2 * n,
                out@ == self@.rows_text(i as int),
            decreases 2 * n - i,
        {
            let ghost before = out@;
            if i == n {
                proof {
                    reveal_strlit("\n");
                    reveal_strlit("-");
                }
                out.append("\n");
                let ghost head = out@;
                let dashes = n + 1;
                let mut d: usize = 0;
                while d < dashes
                    invariant
                        dashes == n + 1,
                        d <= dashes,
                        out@ == head + Seq::new(d as nat, |j: int| '-'),
                    decreases dashes - d,
                {
                    proof {
                        reveal_strlit("-");
                    }
                    out.append("-");
                    proof {
                        assert(out@ =~= head + Seq::new((d + 1) as nat, |j: int| '-'));
                    }
                    d = d + 1;
                }
            }
            let ghost mid = out@;
            proof {
                reveal_strlit("\n-");
                reveal_strlit("\n+");
                assert(self@.rs[i as int] == self.r@[i as int] as int);
            }
            if self.r[i] == 2 {
                out.append("\n-");
            } else {
                out.append("\n+");
            }
            let ghost head = out@;
            let ghost letters = Seq::new(
                n as nat,
                |c: int| pauli_letter(self@.xs[i as int][c], self@.zs[i as int][c]),
            );
            let mut j: usize = 0;
            while j < n
                invariant
                    self.wf(),
                    self.n == n,
                    i < 2 * n,
                    j <= n,
                    letters.len() == n,
                    out@ == head + letters.subrange(0, j as int),
                    forall|c: int|
                        0 <= c < n ==> #[trigger] letters[c] == pauli_letter(
                            self@.xs[i as int][c],
                            self@.zs[i as int][c],
                        ),
                decreases n - j,
            {
                let xb = self.get_x(i, j);
                let zb = self.get_z(i, j);
                proof {
                    reveal_strlit("Y");
                    reveal_strlit("X");
                    reveal_strlit("Z");
                    reveal_strlit("I");
                }
                if xb && zb {
                    out.append("Y");
                } else if xb {
                    out.append("X");
                } else if zb {
                    out.append("Z");
                } else {
                    out.append("I");
                }
                proof {
                    assert(letters.subrange(0, j + 1) =~= letters.subrange(0, j as int).push(
                        letters[j as int],
                    ));
                    assert(out@ =~= head + letters.subrange(0, j + 1));
                }
                j = j + 1;
            }
            proof {
                assert(letters.subrange(0, n as int) =~= letters);
                assert(out@ =~= self@.rows_text(i + 1));
            }
            i = i + 1;
        }
        proof {
            reveal_strlit("\n");
        }
        out.append("\n");
        out
    }
}

} // verus!
