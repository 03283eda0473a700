use tket2::circuit::Circuit;
use tket2::commutation::{apply_greedy_commutation, available_slice, depth, load_slices};
use tket2::ops::{Op, Tk2Op};

fn build_commutation_circuit(n: usize, gates: &[(Tk2Op, &[usize])]) -> Circuit {
    let mut circ = Circuit::new(n);
    for (g, qs) in gates {
        circ.append(Op::Gate(*g), qs.to_vec()).unwrap();
    }
    circ
}

fn example_cx() -> Circuit {
    build_commutation_circuit(4, &[(Tk2Op::CX, &[0, 2]), (Tk2Op::CX, &[1, 2]), (Tk2Op::CX, &[1, 3])])
}

fn example_cx_better() -> Circuit {
    build_commutation_circuit(4, &[(Tk2Op::CX, &[0, 2]), (Tk2Op::CX, &[1, 3]), (Tk2Op::CX, &[1, 2])])
}

fn cant_commute() -> Circuit {
    build_commutation_circuit(4, &[(Tk2Op::Z, &[1]), (Tk2Op::CX, &[0, 1]), (Tk2Op::CX, &[2, 1])])
}

fn big_example() -> Circuit {
    build_commutation_circuit(
        4,
        &[
            (Tk2Op::CX, &[0, 3]),
            (Tk2Op::CX, &[1, 2]),
            (Tk2Op::H, &[0]),
            (Tk2Op::H, &[3]),
            (Tk2Op::CX, &[0, 1]),
            (Tk2Op::CX, &[2, 3]),
            (Tk2Op::CX, &[0, 1]),
            (Tk2Op::CX, &[2, 3]),
            (Tk2Op::CX, &[2, 1]),
            (Tk2Op::H, &[1]),
        ],
    )
}

fn single_qb_commute() -> Circuit {
    build_commutation_circuit(3, &[(Tk2Op::H, &[1]), (Tk2Op::CX, &[0, 1]), (Tk2Op::Z, &[0])])
}

fn single_qb_commute_2() -> Circuit {
    build_commutation_circuit(
        4,
        &[
            (Tk2Op::CX, &[1, 2]),
            (Tk2Op::CX, &[1, 0]),
            (Tk2Op::CX, &[3, 2]),
            (Tk2Op::X, &[0]),
            (Tk2Op::Z, &[3]),
        ],
    )
}

fn commutes_but_same_depth() -> Circuit {
    build_commutation_circuit(
        3,
        &[(Tk2Op::H, &[1]), (Tk2Op::CX, &[0, 1]), (Tk2Op::Z, &[0]), (Tk2Op::X, &[1])],
    )
}

fn bell() -> Circuit {
    build_commutation_circuit(2, &[(Tk2Op::H, &[0]), (Tk2Op::CX, &[0, 1])])
}

fn check_commutation(mut circ: Circuit, should_reduce: bool, expected_moves: u32) {
    let gates = circ.num_gates();
    let depth_before = depth(&circ);
    let moves = apply_greedy_commutation(&mut circ).unwrap();
    assert_eq!(moves, expected_moves, "Number of commutations did not match expected.");
    let depth_after = depth(&circ);
    if should_reduce {
        assert!(depth_after < depth_before, "Depth should have decreased.");
    } else {
        assert_eq!(depth_before, depth_after, "Depth should not have changed.");
    }
    assert_eq!(circ.num_gates(), gates);
}

#[test]
fn commutation_example_cx() {
    check_commutation(example_cx(), true, 1);
}

#[test]
fn commutation_example_cx_better() {
    check_commutation(example_cx_better(), false, 0);
}

#[test]
fn commutation_big_example() {
    check_commutation(big_example(), true, 1);
}

#[test]
fn commutation_cant_commute() {
    check_commutation(cant_commute(), false, 0);
}

#[test]
fn commutation_bell() {
    check_commutation(bell(), false, 0);
}

#[test]
fn commutation_single_qb_commute() {
    check_commutation(single_qb_commute(), true, 1);
}

#[test]
fn commutation_single_qb_commute_2() {
    check_commutation(single_qb_commute_2(), true, 2);
}

#[test]
fn commutation_commutes_but_same_depth() {
    check_commutation(commutes_but_same_depth(), false, 1);
}

#[test]
fn single_qubit_gate_pulled_forward_lowers_depth() {
    let mut circ = single_qb_commute();
    assert_eq!(depth(&circ), 3);
    assert_eq!(apply_greedy_commutation(&mut circ).unwrap(), 1);
    assert!(depth(&circ) < 3);
    assert_eq!(depth(&circ), 2);
}

#[test]
fn second_commutation_run_moves_nothing() {
    for circ in [example_cx(), big_example(), single_qb_commute(), single_qb_commute_2()] {
        let mut circ = circ;
        let d0 = depth(&circ);
        apply_greedy_commutation(&mut circ).unwrap();
        let d1 = depth(&circ);
        assert!(d1 <= d0);
        assert_eq!(apply_greedy_commutation(&mut circ).unwrap(), 0);
        assert_eq!(depth(&circ), d1);
    }
}

#[test]
fn test_load_slices_cx() {
    let circ = example_cx();
    let (arena, slices) = load_slices(&circ);
    assert_eq!(arena.len(), 3);
    assert_eq!(
        slices,
        vec![
            vec![Some(0), None, Some(0), None],
            vec![None, Some(1), Some(1), None],
            vec![None, Some(2), None, Some(2)],
        ]
    );
}

#[test]
fn test_load_slices_cx_better() {
    let circ = example_cx_better();
    let (_arena, slices) = load_slices(&circ);
    assert_eq!(
        slices,
        vec![
            vec![Some(0), Some(1), Some(0), Some(1)],
            vec![None, Some(2), Some(2), None],
        ]
    );
}

#[test]
fn test_load_slices_bell() {
    let circ = bell();
    let (_arena, slices) = load_slices(&circ);
    assert_eq!(slices.len(), 2);
    assert_eq!(slices[0], vec![Some(0), None]);
    assert_eq!(slices[1], vec![Some(1), Some(1)]);
}

#[test]
fn test_available_slice() {
    let circ = example_cx();
    let (arena, slices) = load_slices(&circ);
    let c = slices[2][1].unwrap();
    let (found, prev_nodes) = available_slice(&circ, &arena, &slices, 1, c).unwrap();
    assert_eq!(found, 0);
    assert_eq!(prev_nodes[1], slices[1][1]);
    assert_eq!(prev_nodes[3], slices[2][3]);
}

#[test]
fn big_test() {
    let circ = big_example();
    let (arena, slices) = load_slices(&circ);
    assert_eq!(slices.len(), 6);
    let c = slices[4][1].unwrap();
    let (found, prev_nodes) = available_slice(&circ, &arena, &slices, 3, c).unwrap();
    assert_eq!(found, 1);
    assert_eq!(prev_nodes[1], slices[2][1]);
    assert_eq!(prev_nodes[2], slices[2][2]);
    let h = slices[5][1].unwrap();
    assert!(available_slice(&circ, &arena, &slices, 4, h).is_none());
}

#[test]
fn operations_outside_the_instruction_set_are_not_scheduled() {
    let mut circ = Circuit::new(2);
    circ.append(Op::Gate(Tk2Op::H), vec![0]).unwrap();
    circ.append(Op::Opaque(3, 2), vec![0, 1]).unwrap();
    circ.append(Op::Gate(Tk2Op::Z), vec![1]).unwrap();
    let (arena, slices) = load_slices(&circ);
    assert_eq!(arena.len(), 2);
    assert_eq!(slices.len(), 1);
    assert_eq!(slices[0], vec![Some(0), Some(1)]);
}

#[test]
fn pull_forward_without_next_command_fails() {
    let mut circ = single_qb_commute();
    let (arena, _slices) = load_slices(&circ);
    let rewrite = tket2::commutation::PullForward { command: 2, new_nexts: vec![] };
    assert_eq!(
        rewrite.apply(&mut circ, &arena),
        Err(tket2::commutation::PullForwardError::NoCommandForQb(0))
    );
    let keep = tket2::commutation::PullForward { command: 2, new_nexts: vec![Some(2), None, None] };
    assert_eq!(keep.apply(&mut circ, &arena), Ok(()));
    assert_eq!(depth(&circ), 3);
}
