//! Simulation of stabilizer circuits (Hadamard, phase and CNOT gates with
//! single-qubit measurement) by the tableau method of Aaronson and Gottesman.
use vstd::prelude::*;

pub mod bits;
pub mod words;
pub mod state;
pub mod laws;
pub mod measurement;
pub mod gate;

pub use gate::{CNotGate, Gate, Gates, HadamardGate, PhaseGate};
pub use measurement::Measurement;
pub use state::{binary_matrix, State, Tableau};

verus! {

/// One step of a circuit: a gate, or the measurement of a qubit.
#[derive(Clone, Copy, Debug, PartialEq, Eq, Structural)]
pub enum Instruction {
    Gate(Gates),
    Measure { target: usize },
}

/// Whether every instruction names qubits valid on `n` qubits.
pub open spec fn program_fits(program: Seq<Instruction>, n: nat) -> bool {
    forall|k: int|
        0 <= k < program.len() ==> match #[trigger] program[k] {
            Instruction::Gate(g) => g.fits(n),
            Instruction::Measure { target } => target < n,
        }
}

/// The first measurement at or after `lo`, or the program's length.
pub open spec fn next_measure(program: Seq<Instruction>, lo: int) -> int
    decreases program.len() - lo,
{
    if lo >= program.len() {
        program.len() as int
    } else if program[lo] is Measure {
        lo
    } else {
        next_measure(program, lo + 1)
    }
}

/// The tableau after the gates among instructions `lo..hi`, in order.
pub open spec fn gates_applied(t: Tableau, program: Seq<Instruction>, lo: int, hi: int) -> Tableau
    decreases hi - lo,
{
    if hi <= lo {
        t
    } else {
        let s = gates_applied(t, program, lo, hi - 1);
        match program[hi - 1] {
            Instruction::Gate(g) => g.on(s),
            Instruction::Measure { .. } => s,
        }
    }
}

/// A circuit being run on a state: each call of `next` applies the gates up
/// to the next measurement and yields its outcome, once.
pub struct Measurements {
    pub state: State,
    pub instructions: Vec<Instruction>,
    pub pos: usize,
}

impl Measurements {
    pub open spec fn wf(&self) -> bool {
        &&& self.state.wf()
        &&& self.pos <= self.instructions@.len()
        &&& program_fits(self.instructions@, self.state.n as nat)
    }

    /// Apply the gates up to the next measurement, then measure; `None` once
    /// no measurement is left, after the remaining gates.
    pub fn next(&mut self) -> (m: Option<Measurement>)
        requires
            old(self).wf(),
        ensures
            final(self).wf(),
            final(self).instructions@ == old(self).instructions@,
            ({
                let program = old(self).instructions@;
                let k = next_measure(program, old(self).pos as int);
                let t = gates_applied(old(self).state@, program, old(self).pos as int, k);
                if k == program.len() {
                    &&& m is None
                    &&& final(self).pos == k
                    &&& final(self).state@ == t
                } else {
                    &&& final(self).pos == k + 1
                    &&& m is Some
                    &&& exists|outcome: bool|
                        (final(self).state@, m->0) == #[trigger] t.measure_model(
                            program[k]->target as int,
                            outcome,
                        )
                }
            }),
    {
        let ghost program = self.instructions@;
        let ghost p0 = self.pos as int;
        let ghost t0 = self.state@;
        let ghost n = self.state.n;
        let mut result: Option<Measurement> = None;
        let mut done = false;
        while !done && self.pos < self.instructions.len()
            invariant
                self.wf(),
                self.instructions@ == program,
                self.state.n == n,
                t0.n == n,
                p0 <= self.pos,
                !done ==> {
                    &&& next_measure(program, p0) == next_measure(program, self.pos as int)
                    &&& self.state@ == gates_applied(t0, program, p0, self.pos as int)
                    &&& result is None
                },
                done ==> {
                    let k = next_measure(program, p0);
                    let t = gates_applied(t0, program, p0, k);
                    &&& k < program.len()
                    &&& self.pos == k + 1
                    &&& result is Some
                    &&& exists|outcome: bool|
                        (self.state@, result->0) == #[trigger] t.measure_model(
                            program[k]->target as int,
                            outcome,
                        )
                },
            decreases program.len() - self.pos,
        {
            let ins = self.instructions[self.pos];
            proof {
                assert(program[self.pos as int] == ins);
            }
            match ins {
                Instruction::Gate(g) => {
                    g.apply(&mut self.state);
                    self.pos = self.pos + 1;
                },
                Instruction::Measure { target } => {
                    let m = self.state.measure(target);
                    result = Some(m);
                    self.pos = self.pos + 1;
                    done = true;
                },
            }
        }
        result
    }

    /// The state the circuit runs on.
    pub fn into_state(self) -> (s: State)
        ensures
            s == self.state,
    {
        self.state
    }
}

impl State {
    /// Run `instructions` on this state, lazily: nothing is applied until the
    /// returned sequence is advanced.
    pub fn run(self, instructions: Vec<Instruction>) -> (m: Measurements)
        requires
            self.wf(),
            program_fits(instructions@, self.n as nat),
        ensures
            m.wf(),
            m.state == self,
            m.instructions == instructions,
            m.pos == 0,
    {
        Measurements { state: self, instructions, pos: 0 }
    }
}

pub fn add(left: usize, right: usize) -> (r: usize)
    requires
        left + right <= usize::MAX,
    ensures
        r == left + right,
{
    left + right
}

} // verus!
