//! The operation-kind registry: which operations exist, and the facts that
//! the rewriting passes need about them (adjoints, identities, commutation).
use vstd::prelude::*;

verus! {

/// A single-qubit Pauli operator.
#[derive(Clone, Copy, Debug, PartialEq, Eq, Structural)]
pub enum Pauli {
    I,
    X,
    Y,
    Z,
}

/// Two Paulis commute when one is the identity or both are equal.
pub open spec fn paulis_commute(a: Pauli, b: Pauli) -> bool {
    a == Pauli::I || b == Pauli::I || a == b
}

impl Pauli {
    /// Whether `self` commutes with `other`.
    pub fn commutes_with(self, other: Pauli) -> (r: bool)
        ensures
            r == paulis_commute(self, other),
    {
        self == Pauli::I || other == Pauli::I || self == other
    }
}

/// The gates of the quantum instruction set.
#[derive(Clone, Copy, Debug, PartialEq, Eq, Structural)]
pub enum Tk2Op {
    H,
    CX,
    CZ,
    T,
    S,
    X,
    Y,
    Z,
    Tdg,
    Sdg,
    ZZMax,
    Measure,
    Reset,
}

/// Number of qubits a gate acts on.
pub open spec fn gate_arity(g: Tk2Op) -> nat {
    match g {
        Tk2Op::CX | Tk2Op::CZ | Tk2Op::ZZMax => 2,
        _ => 1,
    }
}

/// The Pauli that a gate commutes with at each of its ports, as
/// `(port, pauli)` pairs; ports that are absent commute with nothing.
pub open spec fn gate_commutation(g: Tk2Op) -> Seq<(usize, Pauli)> {
    match g {
        Tk2Op::X => seq![(0usize, Pauli::X)],
        Tk2Op::Y => seq![(0usize, Pauli::Y)],
        Tk2Op::T | Tk2Op::Z | Tk2Op::S | Tk2Op::Tdg | Tk2Op::Sdg | Tk2Op::Measure => seq![
            (0usize, Pauli::Z),
        ],
        Tk2Op::CX => seq![(0usize, Pauli::Z), (1usize, Pauli::X)],
        Tk2Op::ZZMax | Tk2Op::CZ => seq![(0usize, Pauli::Z), (1usize, Pauli::Z)],
        _ => seq![],
    }
}

/// The adjoint of a gate, when it is a gate of the set.
pub open spec fn gate_dagger(g: Tk2Op) -> Option<Tk2Op> {
    match g {
        Tk2Op::H => Some(Tk2Op::H),
        Tk2Op::CX => Some(Tk2Op::CX),
        Tk2Op::CZ => Some(Tk2Op::CZ),
        Tk2Op::X => Some(Tk2Op::X),
        Tk2Op::Y => Some(Tk2Op::Y),
        Tk2Op::Z => Some(Tk2Op::Z),
        Tk2Op::T => Some(Tk2Op::Tdg),
        Tk2Op::Tdg => Some(Tk2Op::T),
        Tk2Op::S => Some(Tk2Op::Sdg),
        Tk2Op::Sdg => Some(Tk2Op::S),
        _ => None,
    }
}

impl Tk2Op {
    /// Number of qubits this gate acts on.
    pub fn n_qubits(self) -> (r: usize)
        ensures
            r == gate_arity(self),
    {
        match self {
            Tk2Op::CX | Tk2Op::CZ | Tk2Op::ZZMax => 2,
            _ => 1,
        }
    }

    /// The per-port Pauli commutation class of this gate.
    pub fn qubit_commutation(self) -> (r: Vec<(usize, Pauli)>)
        ensures
            r@ == gate_commutation(self),
    {
        let r = match self {
            Tk2Op::X => vec![(0usize, Pauli::X)],
            Tk2Op::Y => vec![(0usize, Pauli::Y)],
            Tk2Op::T | Tk2Op::Z | Tk2Op::S | Tk2Op::Tdg | Tk2Op::Sdg | Tk2Op::Measure => vec![
                (0usize, Pauli::Z),
            ],
            Tk2Op::CX => vec![(0usize, Pauli::Z), (1usize, Pauli::X)],
            Tk2Op::ZZMax | Tk2Op::CZ => vec![(0usize, Pauli::Z), (1usize, Pauli::Z)],
            _ => vec![],
        };
        proof {
            assert(r@ =~= gate_commutation(self));
        }
        r
    }

    /// The adjoint gate, if the instruction set has it.
    pub fn dagger(self) -> (r: Option<Tk2Op>)
        ensures
            r == gate_dagger(self),
    {
        match self {
            Tk2Op::H => Some(Tk2Op::H),
            Tk2Op::CX => Some(Tk2Op::CX),
            Tk2Op::CZ => Some(Tk2Op::CZ),
            Tk2Op::X => Some(Tk2Op::X),
            Tk2Op::Y => Some(Tk2Op::Y),
            Tk2Op::Z => Some(Tk2Op::Z),
            Tk2Op::T => Some(Tk2Op::Tdg),
            Tk2Op::Tdg => Some(Tk2Op::T),
            Tk2Op::S => Some(Tk2Op::Sdg),
            Tk2Op::Sdg => Some(Tk2Op::S),
            _ => None,
        }
    }
}

/// An operation placed at a node of a circuit.
///
/// `Identity` acts trivially on one qubit up to a global phase, counted in
/// eighths of a turn. `Opaque` stands for an operation outside the
/// instruction set, known only by an identifier and its qubit count.
#[derive(Clone, Copy, Debug, PartialEq, Eq, Structural)]
pub enum Op {
    Input,
    Output,
    Gate(Tk2Op),
    Identity(i64),
    Opaque(u64, usize),
}

/// Number of qubits an operation acts on (boundary nodes excluded).
pub open spec fn op_arity(op: Op) -> nat {
    match op {
        Op::Gate(g) => gate_arity(g),
        Op::Identity(_) => 1,
        Op::Opaque(_, n) => n as nat,
        _ => 0,
    }
}

/// The adjoint of an operation, when it is known.
pub open spec fn op_dagger(op: Op) -> Option<Op> {
    match op {
        Op::Gate(g) => match gate_dagger(g) {
            Some(d) => Some(Op::Gate(d)),
            None => None,
        },
        Op::Identity(p) => if p > i64::MIN { Some(Op::Identity((-p) as i64)) } else { None },
        _ => None,
    }
}

/// The phase of an operation that is the identity up to a global phase.
pub open spec fn op_identity_phase(op: Op) -> Option<i64> {
    match op {
        Op::Identity(p) => Some(p),
        _ => None,
    }
}

/// A boundary node of a circuit.
pub open spec fn is_boundary(op: Op) -> bool {
    op == Op::Input || op == Op::Output
}

impl Op {
    /// The adjoint of the operation, when it is known.
    pub fn dagger(self) -> (r: Option<Op>)
        ensures
            r == op_dagger(self),
    {
        match self {
            Op::Gate(g) => match g.dagger() {
                Some(d) => Some(Op::Gate(d)),
                None => None,
            },
            Op::Identity(p) => if p > i64::MIN { Some(Op::Identity(-p)) } else { None },
            _ => None,
        }
    }

    /// If the operation is the identity up to a global phase, that phase.
    pub fn identity_up_to_phase(self) -> (r: Option<i64>)
        ensures
            r == op_identity_phase(self),
    {
        match self {
            Op::Identity(p) => Some(p),
            _ => None,
        }
    }

    /// Whether the operation is the circuit's Input or Output marker.
    pub fn is_boundary(self) -> (r: bool)
        ensures
            r == is_boundary(self),
    {
        match self {
            Op::Input | Op::Output => true,
            _ => false,
        }
    }
}

} // verus!
