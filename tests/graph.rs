use tket2::circuit::{Circuit, CircuitMutError, PortRef};
use tket2::ops::{Op, Pauli, Tk2Op};

#[test]
fn append_links_gates_in_order() {
    let mut circ = Circuit::new(2);
    assert_eq!(circ.qubit_count(), 2);
    assert_eq!(circ.num_gates(), 0);
    let h = circ.append(Op::Gate(Tk2Op::H), vec![0]).unwrap();
    let cx = circ.append(Op::Gate(Tk2Op::CX), vec![0, 1]).unwrap();
    assert_eq!(circ.num_gates(), 2);
    assert_eq!(circ.linked_in(h, 0), Some(PortRef { node: 0, port: 0 }));
    assert_eq!(circ.linked_out(h, 0), Some(PortRef { node: cx, port: 0 }));
    assert_eq!(circ.linked_in(cx, 1), Some(PortRef { node: 0, port: 1 }));
    assert_eq!(circ.linked_out(cx, 1), Some(PortRef { node: 1, port: 1 }));
    assert_eq!(circ.commands(), vec![h, cx]);
}

#[test]
fn append_rejects_bad_qubits() {
    let mut circ = Circuit::new(2);
    assert_eq!(circ.append(Op::Gate(Tk2Op::CX), vec![0, 0]), Err(CircuitMutError::InvalidQubits));
    assert_eq!(circ.append(Op::Gate(Tk2Op::X), vec![2]), Err(CircuitMutError::InvalidQubits));
    assert_eq!(circ.append(Op::Gate(Tk2Op::CX), vec![0]), Err(CircuitMutError::InvalidQubits));
    assert_eq!(circ.append(Op::Input, vec![]), Err(CircuitMutError::InvalidQubits));
    assert_eq!(circ.node_count(), 2);
}

#[test]
fn connect_checks_ports() {
    let mut circ = Circuit::new(2);
    let x = circ.append(Op::Gate(Tk2Op::X), vec![0]).unwrap();
    assert_eq!(circ.connect(0, 0, x, 0), Err(CircuitMutError::PortInUse(0)));
    let s = circ.disconnect_in(x, 0);
    assert_eq!(s, Some(PortRef { node: 0, port: 0 }));
    assert_eq!(circ.connect(0, 1, x, 0), Err(CircuitMutError::PortInUse(1)));
    assert_eq!(circ.disconnect_out(0, 1), Some(PortRef { node: 1, port: 1 }));
    assert_eq!(circ.connect(0, 1, x, 0), Err(CircuitMutError::QubitMismatch(0)));
    assert_eq!(circ.connect(0, 0, x, 5), Err(CircuitMutError::InvalidPortOffset(5)));
    assert_eq!(circ.connect(1, 0, x, 0), Err(CircuitMutError::InvalidNode(1)));
    assert_eq!(circ.connect(0, 0, x, 0), Ok(()));
    assert!(!circ.remove_node(x));
}

#[test]
fn phase_wraps_around() {
    let mut circ = Circuit::new(1);
    circ.add_phase(5);
    assert_eq!(circ.phase(), 5);
    circ.add_phase(5);
    assert_eq!(circ.phase(), 2);
    circ.add_phase(-3);
    assert_eq!(circ.phase(), 7);
    circ.add_phase(-17);
    assert_eq!(circ.phase(), 6);
}

#[test]
fn pauli_commutation_table() {
    assert!(Pauli::I.commutes_with(Pauli::X));
    assert!(Pauli::Z.commutes_with(Pauli::Z));
    assert!(!Pauli::X.commutes_with(Pauli::Z));
    assert!(!Pauli::Y.commutes_with(Pauli::X));
    assert_eq!(Tk2Op::CX.qubit_commutation(), vec![(0, Pauli::Z), (1, Pauli::X)]);
    assert_eq!(Tk2Op::H.qubit_commutation(), vec![]);
}

#[test]
fn daggers_and_identities() {
    assert_eq!(Tk2Op::T.dagger(), Some(Tk2Op::Tdg));
    assert_eq!(Tk2Op::Sdg.dagger(), Some(Tk2Op::S));
    assert_eq!(Tk2Op::Measure.dagger(), None);
    assert_eq!(Op::Identity(3).dagger(), Some(Op::Identity(-3)));
    assert_eq!(Op::Identity(3).identity_up_to_phase(), Some(3));
    assert_eq!(Op::Gate(Tk2Op::X).identity_up_to_phase(), None);
    assert!(Op::Output.is_boundary());
    assert_eq!(Tk2Op::ZZMax.n_qubits(), 2);
}

#[test]
fn remove_qubit() {
    let mut circ = Circuit::new(2);
    circ.append(Op::Gate(Tk2Op::X), vec![0]).unwrap();
    assert_eq!(circ.qubit_count(), 2);
    assert!(circ.remove_empty_wire(1).is_ok());
    assert_eq!(circ.qubit_count(), 1);
    assert_eq!(circ.remove_empty_wire(0).unwrap_err(), CircuitMutError::DeleteNonEmptyWire(0));
}

#[test]
fn remove_bit() {
    let mut circ = Circuit::new(1);
    assert_eq!(circ.qubit_count(), 1);
    assert!(circ.remove_empty_wire(0).is_ok());
    assert_eq!(circ.qubit_count(), 0);
    assert_eq!(circ.remove_empty_wire(2).unwrap_err(), CircuitMutError::InvalidPortOffset(2));
}

#[test]
fn remove_wire_renumbers_later_qubits() {
    let mut circ = Circuit::new(3);
    let x = circ.append(Op::Gate(Tk2Op::X), vec![2]).unwrap();
    assert!(circ.remove_empty_wire(0).is_ok());
    assert_eq!(circ.qubit_count(), 2);
    assert_eq!(circ.node_qubits(x), &vec![1]);
    assert_eq!(circ.linked_in(x, 0), Some(PortRef { node: 0, port: 1 }));
    assert_eq!(circ.linked_out(x, 0), Some(PortRef { node: 1, port: 1 }));
    assert_eq!(circ.linked_out(0, 0), Some(PortRef { node: 1, port: 0 }));
    assert_eq!(circ.num_gates(), 1);
}

#[test]
fn boundary_nodes_and_topological_order() {
    let mut circ = Circuit::new(2);
    assert_eq!(circ.io_nodes(), [circ.input_node(), circ.output_node()]);
    let a = circ.append(Op::Gate(Tk2Op::X), vec![1]).unwrap();
    let b = circ.append(Op::Opaque(7, 2), vec![1, 0]).unwrap();
    let c = circ.append(Op::Gate(Tk2Op::Z), vec![0]).unwrap();
    assert_eq!(circ.commands(), vec![a, b, c]);
    assert_eq!(circ.op(b), Op::Opaque(7, 2));
}

#[test]
fn wire_of_removed_gate_can_be_deleted() {
    let mut circ = Circuit::new(1);
    let x = circ.append(Op::Gate(Tk2Op::X), vec![0]).unwrap();
    assert_eq!(circ.disconnect_in(x, 0), Some(PortRef { node: 0, port: 0 }));
    assert_eq!(circ.disconnect_out(x, 0), Some(PortRef { node: 1, port: 0 }));
    assert!(circ.remove_node(x));
    assert_eq!(circ.connect(0, 0, 1, 0), Ok(()));
    assert!(circ.remove_empty_wire(0).is_ok());
    assert_eq!(circ.qubit_count(), 0);
    assert_eq!(circ.num_gates(), 0);
}

#[test]
fn test_circuit_properties() {
    let mut circ = Circuit::new(2);
    circ.append(Op::Gate(Tk2Op::H), vec![0]).unwrap();
    circ.append(Op::Gate(Tk2Op::CX), vec![0, 1]).unwrap();
    circ.append(Op::Gate(Tk2Op::X), vec![1]).unwrap();
    assert_eq!(circ.qubit_count(), 2);
    assert_eq!(circ.num_gates(), 3);
}
