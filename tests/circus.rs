use circus::{
    add, binary_matrix, CNotGate, Gate, Gates, HadamardGate, Instruction, Measurement, PhaseGate,
    State,
};

fn snapshot(s: &State) -> (Vec<u32>, Vec<u32>, Vec<u8>) {
    (s.x.clone(), s.z.clone(), s.r.clone())
}

fn scrambled() -> State {
    let mut s = State::new(3);
    s.hadamard(0);
    s.cnot(0, 1);
    s.phase(1);
    s.hadamard(2);
    s.cnot(2, 0);
    s.phase(0);
    s
}

fn bell() -> State {
    let mut s = State::new(2);
    s.hadamard(0);
    s.cnot(0, 1);
    s
}

#[test]
fn it_works() {
    let mut state = State::new(2);
    state.hadamard(0);
    state.cnot(0, 1);
    let _ = state.measure(1);

    let _ = state.render();
    state.nonzero();
    let _ = state.render();
    let _ = state.ket();
}

#[test]
fn new_state_generators() {
    let s = State::new(3);
    assert_eq!(s.render(), "\n+XII\n+IXI\n+IIX\n----\n+ZII\n+IZI\n+IIZ\n");
    assert!(s.r.iter().all(|&r| r == 0));
}

#[test]
fn new_state_across_word_boundary() {
    let s = State::new(33);
    assert_eq!(s.over32, 2);
    assert_eq!(s.x.len(), 67 * 2);
    let text = s.render();
    let lines: Vec<&str> = text.lines().collect();
    assert_eq!(lines[33], format!("+{}X", "I".repeat(32)));
    assert_eq!(lines[67], format!("+{}Z", "I".repeat(32)));
}

#[test]
fn zero_qubits() {
    let mut s = State::new(0);
    assert_eq!(s.nonzero(), 0);
    assert_eq!(s.ket(), " +|>\n");
}

#[test]
fn binary_matrix_is_zeroed() {
    let m = binary_matrix(40);
    assert_eq!(m.len(), 81 * 2);
    assert!(m.iter().all(|&w| w == 0));
}

#[test]
fn hadamard_twice_restores() {
    for t in 0..3 {
        let mut s = scrambled();
        let before = snapshot(&s);
        s.hadamard(t);
        assert_ne!(snapshot(&s), before);
        s.hadamard(t);
        assert_eq!(snapshot(&s), before);
    }
}

#[test]
fn phase_four_times_restores() {
    for t in 0..3 {
        let mut s = scrambled();
        let before = snapshot(&s);
        for _ in 0..4 {
            s.phase(t);
        }
        assert_eq!(snapshot(&s), before);
    }
}

#[test]
fn cnot_twice_restores() {
    let mut s = scrambled();
    let before = snapshot(&s);
    s.cnot(1, 2);
    assert_ne!(snapshot(&s), before);
    s.cnot(1, 2);
    assert_eq!(snapshot(&s), before);
}

#[test]
fn hadamard_swaps_x_and_z() {
    let mut s = State::new(1);
    s.h(0);
    assert_eq!(s.render(), "\n+Z\n--\n+X\n");
}

#[test]
fn phase_turns_x_into_y_then_minus_x() {
    let mut s = State::new(1);
    s.hadamard(0);
    s.phase(0);
    assert_eq!(s.render(), "\n+Z\n--\n+Y\n");
    s.phase(0);
    assert_eq!(s.render(), "\n+Z\n--\n-X\n");
}

#[test]
fn cnot_spreads_x_and_z() {
    let mut s = State::new(2);
    s.cx(0, 1);
    assert_eq!(s.render(), "\n+XX\n+IX\n---\n+ZI\n+ZZ\n");
}

#[test]
fn reduce_is_idempotent() {
    let mut s = scrambled();
    s.hadamard(1);
    let g = s.nonzero();
    let text = s.render();
    assert_eq!(s.nonzero(), g);
    assert_eq!(s.render(), text);
}

#[test]
fn bell_pair_measurements_agree() {
    let mut s = bell();
    let a = s.measure(0);
    assert!(a.is_random());
    let b = s.measure(1);
    assert!(!b.is_random());
    assert_eq!(a.is_one(), b.is_one());
    let a2 = s.measure(0);
    assert!(!a2.is_random());
    assert_eq!(a2.is_one(), a.is_one());
    let b2 = s.measure(1);
    assert!(!b2.is_random());
    assert_eq!(b2.is_one(), b.is_one());
}

#[test]
fn bell_pair_second_qubit_first() {
    let mut s = bell();
    let b = s.measure(1);
    assert!(b.is_random());
    let a = s.measure(0);
    assert!(!a.is_random());
    assert_eq!(a.is_one(), b.is_one());
}

#[test]
fn bell_pair_with_given_outcomes() {
    for outcome in [false, true] {
        let mut s = bell();
        let a = s.measure_with(0, outcome);
        assert_eq!(a, Measurement::random(outcome));
        let b = s.measure_with(1, !outcome);
        assert_eq!(b, Measurement::fixed(outcome));
        let expected = if outcome { " +|11>\n" } else { " +|00>\n" };
        assert_eq!(s.ket(), expected);
    }
}

#[test]
fn fresh_state_measures_zero() {
    let mut s = State::new(2);
    let m = s.measure(1);
    assert_eq!(m, Measurement::fixed(false));
    assert!(m.is_zero());
}

#[test]
fn fresh_ket_is_all_zero() {
    let mut s = State::new(2);
    assert_eq!(s.ket(), " +|00>\n");
}

#[test]
fn bell_pair_ket() {
    let mut s = bell();
    assert_eq!(s.nonzero(), 1);
    let mut s = bell();
    assert_eq!(s.ket(), " +|00>\n +|11>\n");
}

#[test]
fn ket_of_one_is_one() {
    let mut s = State::new(1);
    s.hadamard(0);
    s.phase(0);
    s.phase(0);
    s.hadamard(0);
    assert_eq!(s.ket(), " +|1>\n");
    assert_eq!(s.measure(0), Measurement::fixed(true));
}

#[test]
fn ket_signs_follow_y_count() {
    let mut s = State::new(1);
    s.hadamard(0);
    s.phase(0);
    assert_eq!(s.ket(), " +|0>\n+i|1>\n");
    let mut s = State::new(1);
    s.hadamard(0);
    s.phase(0);
    s.phase(0);
    assert_eq!(s.ket(), " +|0>\n -|1>\n");
}

#[test]
fn ket_is_repeatable() {
    let mut s = scrambled();
    let first = s.ket();
    assert_eq!(s.ket(), first);
    assert_eq!(first.lines().count(), 4);
}

#[test]
fn measurement_bytes() {
    assert_eq!(Measurement::fixed(false).byte, 0);
    assert_eq!(Measurement::fixed(true).byte, 1);
    assert_eq!(Measurement::random(false).byte, 2);
    assert_eq!(Measurement::random(true).byte, 3);
    assert_eq!(Measurement::new(3), Measurement::random(true));
    assert!(Measurement::new(2).is_zero());
    assert!(!Measurement::new(2).is_one());
    assert!(Measurement::new(1).is_one());
    assert!(!Measurement::new(1).is_random());
}

#[test]
fn gates_apply_like_methods() {
    let mut a = scrambled();
    let mut b = scrambled();
    Gates::Hadamard(HadamardGate { target: 1 }).apply(&mut a);
    Gates::Phase(PhaseGate { target: 2 }).apply(&mut a);
    Gates::CNot(CNotGate { target: 0, control: 2 }).apply(&mut a);
    b.hadamard(1);
    b.phase(2);
    b.cnot(2, 0);
    assert_eq!(snapshot(&a), snapshot(&b));
}

#[test]
fn run_yields_outcomes_lazily() {
    let program = vec![
        Instruction::Gate(Gates::Hadamard(HadamardGate { target: 0 })),
        Instruction::Gate(Gates::CNot(CNotGate { target: 1, control: 0 })),
        Instruction::Measure { target: 0 },
        Instruction::Measure { target: 1 },
        Instruction::Gate(Gates::Hadamard(HadamardGate { target: 1 })),
    ];
    let mut run = State::new(2).run(program);
    let a = run.next().unwrap();
    assert!(a.is_random());
    assert_eq!(run.pos, 3);
    let b = run.next().unwrap();
    assert!(!b.is_random());
    assert_eq!(a.is_one(), b.is_one());
    assert!(run.next().is_none());
    assert_eq!(run.pos, 5);
    let s = run.into_state();
    assert_eq!(s.n, 2);
}

#[test]
fn add_sums() {
    assert_eq!(add(2, 2), 4);
}
