//! Gates as values, each applied to a state through the `Gate` trait.
use vstd::prelude::*;
use crate::state::{State, Tableau};

verus! {

/// A Clifford gate that can be applied to a state.
pub trait Gate {
    /// Whether the qubits named are valid on `n` qubits.
    spec fn fits(&self, n: nat) -> bool;

    /// The result of applying this to a tableau.
    spec fn on(&self, t: Tableau) -> Tableau;

    fn apply(&self, state: &mut State)
        requires
            old(state).wf(),
            self.fits(old(state).n as nat),
        ensures
            final(state).wf(),
            final(state).n == old(state).n,
            final(state)@ == self.on(old(state)@),
    ;
}

/// Controlled-NOT: a NOT on `target` whenever `control` is `|1>`.
#[derive(Clone, Copy, Debug, PartialEq, Eq, Structural)]
pub struct CNotGate {
    pub target: usize,
    pub control: usize,
}

/// Hadamard on `target`.
#[derive(Clone, Copy, Debug, PartialEq, Eq, Structural)]
pub struct HadamardGate {
    pub target: usize,
}

/// Phase gate S on `target`.
#[derive(Clone, Copy, Debug, PartialEq, Eq, Structural)]
pub struct PhaseGate {
    pub target: usize,
}

impl Gate for CNotGate {
    open spec fn fits(&self, n: nat) -> bool {
        self.control < n && self.target < n && self.control != self.target
    }

    open spec fn on(&self, t: Tableau) -> Tableau {
        t.cnot_at(self.control as int, self.target as int)
    }

    fn apply(&self, state: &mut State) {
        state.cnot(self.control, self.target)
    }
}

impl Gate for HadamardGate {
    open spec fn fits(&self, n: nat) -> bool {
        self.target < n
    }

    open spec fn on(&self, t: Tableau) -> Tableau {
        t.hadamard_at(self.target as int)
    }

    fn apply(&self, state: &mut State) {
        state.hadamard(self.target)
    }
}

impl Gate for PhaseGate {
    open spec fn fits(&self, n: nat) -> bool {
        self.target < n
    }

    open spec fn on(&self, t: Tableau) -> Tableau {
        t.phase_at(self.target as int)
    }

    fn apply(&self, state: &mut State) {
        state.phase(self.target)
    }
}

/// One of the supported gates.
#[derive(Clone, Copy, Debug, PartialEq, Eq, Structural)]
pub enum Gates {
    CNot(CNotGate),
    Hadamard(HadamardGate),
    Phase(PhaseGate),
}

impl Gate for Gates {
    open spec fn fits(&self, n: nat) -> bool {
        match self {
            Gates::CNot(g) => g.fits(n),
            Gates::Hadamard(g) => g.fits(n),
            Gates::Phase(g) => g.fits(n),
        }
    }

    open spec fn on(&self, t: Tableau) -> Tableau {
        match self {
            Gates::CNot(g) => g.on(t),
            Gates::Hadamard(g) => g.on(t),
            Gates::Phase(g) => g.on(t),
        }
    }

    fn apply(&self, state: &mut State) {
        match self {
            Gates::CNot(g) => g.apply(state),
            Gates::Hadamard(g) => g.apply(state),
            Gates::Phase(g) => g.apply(state),
        }
    }
}

} // verus!
