use tket2::circuit::Circuit;
use tket2::ops::{Op, Tk2Op};
use tket2::redundancy::{add_neighbours, get_boundary, get_weights, remove_redundancies};
use tket2::rewrite::{CircuitRewrite, InvalidSubgraph, Subcircuit};
use tket2::circuit::Direction;

fn build_rewrite_circuit(n: usize, ops: &[(Op, &[usize])]) -> (Circuit, Vec<usize>) {
    let mut circ = Circuit::new(n);
    let mut nodes = Vec::new();
    for (op, qs) in ops {
        nodes.push(circ.append(*op, qs.to_vec()).unwrap());
    }
    (circ, nodes)
}

#[test]
fn rewrite_and_inverse_restore_counts_and_phase() {
    let (mut circ, nodes) =
        build_rewrite_circuit(1, &[(Op::Gate(Tk2Op::X), &[0]), (Op::Gate(Tk2Op::Z), &[0])]);
    let gates0 = circ.num_gates();
    let phase0 = circ.phase();
    let (hh, _) = build_rewrite_circuit(1, &[(Op::Gate(Tk2Op::H), &[0]), (Op::Gate(Tk2Op::H), &[0])]);
    let before = circ.node_count();
    let sub = Subcircuit::try_new(&circ, vec![nodes[0]]).unwrap();
    CircuitRewrite::new(sub, hh, 3).apply(&mut circ).unwrap();
    assert_eq!(circ.num_gates(), gates0 + 1);
    assert_eq!(circ.phase(), (phase0 + 3) % 8);
    let inserted = vec![before, before + 1];
    let (x, _) = build_rewrite_circuit(1, &[(Op::Gate(Tk2Op::X), &[0])]);
    let sub = Subcircuit::try_new(&circ, inserted).unwrap();
    CircuitRewrite::new(sub, x, -3).apply(&mut circ).unwrap();
    assert_eq!(circ.num_gates(), gates0);
    assert_eq!(circ.phase(), phase0);
    assert_eq!(depth_after_rewrite(&circ), 2);
}

fn depth_after_rewrite(circ: &Circuit) -> usize {
    tket2::commutation::depth(circ)
}

#[test]
fn rewrite_with_wrong_width_is_refused() {
    let (mut circ, nodes) = build_rewrite_circuit(2, &[(Op::Gate(Tk2Op::X), &[0])]);
    let (two, _) = build_rewrite_circuit(2, &[(Op::Gate(Tk2Op::CX), &[0, 1])]);
    let sub = Subcircuit::try_new(&circ, vec![nodes[0]]).unwrap();
    let n0 = circ.node_count();
    let r = CircuitRewrite::new(sub, two, 0).apply(&mut circ);
    assert_eq!(r, Err(InvalidSubgraph::InvalidReplacement));
    assert_eq!(circ.node_count(), n0);
    assert_eq!(circ.num_gates(), 1);
}

#[test]
fn remove_identity_and_dagger_pairs() {
    let (circ, _) = build_rewrite_circuit(
        2,
        &[
            (Op::Gate(Tk2Op::H), &[0]),
            (Op::Gate(Tk2Op::H), &[0]),
            (Op::Identity(3), &[1]),
            (Op::Gate(Tk2Op::T), &[1]),
            (Op::Gate(Tk2Op::Tdg), &[1]),
            (Op::Gate(Tk2Op::X), &[1]),
        ],
    );
    let out = remove_redundancies(circ);
    assert_eq!(out.num_gates(), 1);
    assert_eq!(out.phase(), 3);
}

#[test]
fn remove_redundancies_keeps_non_adjoint_pairs() {
    let (circ, _) = build_rewrite_circuit(
        1,
        &[(Op::Gate(Tk2Op::T), &[0]), (Op::Gate(Tk2Op::T), &[0]), (Op::Gate(Tk2Op::S), &[0])],
    );
    let out = remove_redundancies(circ);
    assert_eq!(out.num_gates(), 3);
}

#[test]
fn boundary_weights_and_neighbours() {
    let (circ, nodes) = build_rewrite_circuit(
        2,
        &[(Op::Gate(Tk2Op::X), &[1]), (Op::Gate(Tk2Op::CX), &[0, 1]), (Op::Gate(Tk2Op::H), &[0])],
    );
    let preds = get_boundary(&circ, nodes[1], Direction::Incoming);
    let succs = get_boundary(&circ, nodes[1], Direction::Outgoing);
    assert_eq!(preds.len(), 2);
    assert_eq!(succs.len(), 2);
    assert_eq!(preds[0].src.node, 0);
    assert_eq!(preds[1].src.node, nodes[0]);
    assert_eq!(succs[0].dst.node, nodes[2]);
    assert_eq!(succs[1].dst.node, 1);
    assert_eq!(get_weights(&circ, &preds), vec![0, 1]);
    let mut set = vec![false; circ.node_count()];
    add_neighbours(&preds, &succs, &mut set);
    assert_eq!(set, vec![true, true, true, false, true]);
}

#[test]
fn remove_adjoint_pair_keeps_phase() {
    let (circ, _) = build_rewrite_circuit(
        2,
        &[(Op::Gate(Tk2Op::CX), &[0, 1]), (Op::Gate(Tk2Op::CX), &[0, 1])],
    );
    let out = remove_redundancies(circ);
    assert_eq!(out.num_gates(), 0);
    assert_eq!(out.phase(), 0);
    assert_eq!(out.linked_out(0, 0), Some(tket2::circuit::PortRef { node: 1, port: 0 }));
    assert_eq!(out.linked_out(0, 1), Some(tket2::circuit::PortRef { node: 1, port: 1 }));
}
