use tket2::circuit::Circuit;
use tket2::ops::{Op, Tk2Op};
use tket2::optimiser::{cost_class, Optimiser, N_COST_CLASSES};

fn build_search_circuit(n: usize, gates: &[(Tk2Op, &[usize])]) -> Circuit {
    let mut circ = Circuit::new(n);
    for (g, qs) in gates {
        circ.append(Op::Gate(*g), qs.to_vec()).unwrap();
    }
    circ
}

fn hzh_class() -> Vec<Circuit> {
    vec![
        build_search_circuit(1, &[(Tk2Op::H, &[0]), (Tk2Op::Z, &[0]), (Tk2Op::H, &[0])]),
        build_search_circuit(1, &[(Tk2Op::X, &[0])]),
    ]
}

#[test]
fn optimiser_never_increases_cost() {
    let opt = Optimiser::from_eccs(&vec![hzh_class()]).unwrap();
    assert_eq!(opt.n_patterns(), 2);
    let weights = vec![1u64; N_COST_CLASSES];
    let circ = build_search_circuit(
        2,
        &[(Tk2Op::H, &[0]), (Tk2Op::Z, &[0]), (Tk2Op::H, &[0]), (Tk2Op::CX, &[0, 1])],
    );
    let before = circ.circuit_cost(&weights);
    assert_eq!(before, 4);
    let out = opt.optimise(&circ, &weights, 20);
    assert!(out.circuit_cost(&weights) <= before);
    assert_eq!(out.circuit_cost(&weights), 2);
}

#[test]
fn optimiser_keeps_cheaper_input() {
    let opt = Optimiser::from_eccs(&vec![hzh_class()]).unwrap();
    let mut weights = vec![1u64; N_COST_CLASSES];
    weights[cost_class(Op::Gate(Tk2Op::X))] = 10;
    let circ = build_search_circuit(1, &[(Tk2Op::H, &[0]), (Tk2Op::Z, &[0]), (Tk2Op::H, &[0])]);
    let out = opt.optimise(&circ, &weights, 20);
    assert_eq!(out.circuit_cost(&weights), 3);
}

#[test]
fn optimiser_is_deterministic() {
    let opt = Optimiser::from_eccs(&vec![hzh_class()]).unwrap();
    let weights = vec![1u64; N_COST_CLASSES];
    let circ = build_search_circuit(
        2,
        &[(Tk2Op::H, &[1]), (Tk2Op::Z, &[1]), (Tk2Op::H, &[1]), (Tk2Op::X, &[0])],
    );
    let a = opt.optimise(&circ, &weights, 50);
    let b = opt.optimise(&circ, &weights, 50);
    assert_eq!(a.circuit_cost(&weights), b.circuit_cost(&weights));
}

#[test]
fn nodes_cost_sums_weights() {
    let mut weights = vec![1u64; N_COST_CLASSES];
    weights[cost_class(Op::Gate(Tk2Op::CX))] = 5;
    let circ = build_search_circuit(2, &[(Tk2Op::CX, &[0, 1]), (Tk2Op::H, &[0])]);
    assert_eq!(circ.nodes_cost(&vec![2, 3], &weights), 6);
    assert_eq!(circ.nodes_cost(&vec![2], &weights), 5);
    assert_eq!(circ.circuit_cost(&weights), 6);
}

#[test]
fn empty_pattern_is_refused() {
    let r = Optimiser::from_eccs(&vec![vec![Circuit::new(1)]]);
    assert!(r.is_err());
}

#[test]
fn stepwise_search_reaches_the_same_best() {
    let opt = Optimiser::from_eccs(&vec![hzh_class()]).unwrap();
    let weights = vec![1u64; N_COST_CLASSES];
    let circ = build_search_circuit(1, &[(Tk2Op::H, &[0]), (Tk2Op::Z, &[0]), (Tk2Op::H, &[0])]);
    let mut state = opt.start_search(&circ, &weights);
    assert!(!state.is_done());
    assert_eq!(state.best().circuit_cost(&weights), 3);
    let mut steps = 0;
    while opt.search_step(&mut state, &weights) {
        steps += 1;
        assert!(steps < 100);
    }
    assert!(state.is_done());
    assert!(!opt.search_step(&mut state, &weights));
    let best = state.into_best();
    assert_eq!(best.circuit_cost(&weights), 1);
    assert_eq!(opt.optimise(&circ, &weights, 100).circuit_cost(&weights), 1);
}

#[test]
fn improvement_flag_follows_cost() {
    let opt = Optimiser::from_eccs(&vec![hzh_class()]).unwrap();
    let weights = vec![1u64; N_COST_CLASSES];
    let circ = build_search_circuit(1, &[(Tk2Op::H, &[0]), (Tk2Op::Z, &[0]), (Tk2Op::H, &[0])]);
    let (out, improved) = opt.optimise_with_flag(&circ, &weights, 10);
    assert!(improved);
    assert_eq!(out.circuit_cost(&weights), 1);
    let plain = build_search_circuit(1, &[(Tk2Op::T, &[0])]);
    let (same, improved) = opt.optimise_with_flag(&plain, &weights, 10);
    assert!(!improved);
    assert_eq!(same.circuit_cost(&weights), 1);
}
