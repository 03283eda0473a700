use tket2::circuit::{Circuit, Direction};
use tket2::matcher::{compatible_offsets, CircuitPattern, PEdge, PatternMatch, PatternMatcher, Port};
use tket2::ops::{Op, Tk2Op};
use tket2::rewrite::{InvalidSubgraph, Subcircuit};

fn build_matching_circuit(n: usize, gates: &[(Tk2Op, &[usize])]) -> (Circuit, Vec<usize>) {
    let mut circ = Circuit::new(n);
    let mut nodes = Vec::new();
    for (g, qs) in gates {
        nodes.push(circ.append(Op::Gate(*g), qs.to_vec()).unwrap());
    }
    (circ, nodes)
}

fn h_cx() -> Circuit {
    build_matching_circuit(2, &[(Tk2Op::CX, &[0, 1]), (Tk2Op::H, &[0])]).0
}

fn cx_xc() -> Circuit {
    build_matching_circuit(2, &[(Tk2Op::CX, &[0, 1]), (Tk2Op::CX, &[1, 0])]).0
}

fn cx_cx_3() -> Circuit {
    build_matching_circuit(3, &[(Tk2Op::CX, &[0, 1]), (Tk2Op::CX, &[2, 1])]).0
}

fn cx_cx() -> Circuit {
    build_matching_circuit(2, &[(Tk2Op::CX, &[0, 1]), (Tk2Op::CX, &[0, 1])]).0
}

#[test]
fn construct_matcher() {
    let circ = h_cx();
    let p = CircuitPattern::try_from_circuit(circ.duplicate()).unwrap();
    let m = PatternMatcher::from_patterns(vec![p]);
    let matches = m.find_matches(&circ);
    assert_eq!(matches.len(), 1);
}

#[test]
fn cx_cx_replace_to_id() {
    let p = CircuitPattern::try_from_circuit(cx_cx_3()).unwrap();
    let m = PatternMatcher::from_patterns(vec![p]);
    let matches = m.find_matches(&cx_cx());
    assert_eq!(matches.len(), 0);
}

#[test]
fn whole_circuit_pattern_matches_once() {
    for circ in [h_cx(), cx_xc(), cx_cx_3()] {
        let p = CircuitPattern::try_from_circuit(circ.duplicate()).unwrap();
        let m = PatternMatcher::from_patterns(vec![p]);
        let matches = m.find_matches(&circ);
        assert_eq!(matches.len(), 1);
        let mut nodes = matches[0].nodes().clone();
        nodes.sort();
        assert_eq!(nodes.len(), circ.num_gates());
        assert_eq!(nodes, (2..2 + circ.num_gates()).collect::<Vec<usize>>());
    }
}

#[test]
fn cx_pattern_matches_at_first_gate() {
    let (pattern, _) = build_matching_circuit(2, &[(Tk2Op::CX, &[0, 1])]);
    let (circ, nodes) = build_matching_circuit(3, &[(Tk2Op::CX, &[0, 1]), (Tk2Op::CX, &[2, 1])]);
    let m = PatternMatcher::from_patterns(vec![CircuitPattern::try_from_circuit(pattern).unwrap()]);
    let at_first = m.find_rooted_matches(&circ, nodes[0]);
    assert_eq!(at_first.len(), 1);
    assert_eq!(at_first[0].root(), nodes[0]);
    assert_eq!(at_first[0].nodes(), &vec![nodes[0]]);
    assert_eq!(at_first[0].pattern_id(), 0);
    let all = m.find_matches(&circ);
    assert!(all.iter().any(|pm| pm.root() == nodes[0]));
}

#[test]
fn root_match_errors() {
    let circ = h_cx();
    let m = PatternMatcher::from_patterns(vec![CircuitPattern::try_from_circuit(h_cx()).unwrap()]);
    assert_eq!(m.n_patterns(), 1);
    assert!(m.get_pattern(0).is_some());
    assert!(m.get_pattern(1).is_none());
    let r = PatternMatch::try_from_root_match(2, 1, &circ, &m);
    assert!(matches!(r, Err(tket2::matcher::InvalidPatternMatch::MatchNotFound)));
    let r = PatternMatch::try_from_root_match(3, 0, &circ, &m);
    assert!(matches!(r, Err(tket2::matcher::InvalidPatternMatch::MatchNotFound)));
    let ok = PatternMatch::try_from_root_match(2, 0, &circ, &m).unwrap();
    assert_eq!(ok.root(), 2);
    assert_eq!(ok.subcircuit().nodes(), &vec![2, 3]);
}

#[test]
fn skipping_middle_of_chain_is_not_convex() {
    let (circ, nodes) =
        build_matching_circuit(1, &[(Tk2Op::X, &[0]), (Tk2Op::Y, &[0]), (Tk2Op::Z, &[0])]);
    let r = Subcircuit::try_new(&circ, vec![nodes[0], nodes[2]]);
    assert!(matches!(r, Err(InvalidSubgraph::NotConvex)));
    let ok = Subcircuit::try_new(&circ, vec![nodes[0], nodes[1]]).unwrap();
    assert_eq!(ok.nodes(), &vec![nodes[0], nodes[1]]);
    let all = Subcircuit::try_new(&circ, nodes.clone()).unwrap();
    assert_eq!(all.nodes().len(), 3);
}

#[test]
fn subcircuit_errors() {
    let (circ, nodes) = build_matching_circuit(1, &[(Tk2Op::X, &[0])]);
    assert!(matches!(Subcircuit::try_new(&circ, vec![]), Err(InvalidSubgraph::EmptySubgraph)));
    assert!(matches!(Subcircuit::try_new(&circ, vec![0]), Err(InvalidSubgraph::InvalidNode(0))));
    assert!(matches!(
        Subcircuit::try_new(&circ, vec![nodes[0], nodes[0]]),
        Err(InvalidSubgraph::InvalidNode(_))
    ));
    assert!(matches!(Subcircuit::try_new(&circ, vec![9]), Err(InvalidSubgraph::InvalidNode(9))));
}

#[test]
fn pattern_needs_every_internal_wire() {
    // CX;CX shares both wires; with an H between them on one wire the
    // circuit does not match.
    let (pattern, _) = build_matching_circuit(2, &[(Tk2Op::CX, &[0, 1]), (Tk2Op::CX, &[0, 1])]);
    let (circ, nodes) = build_matching_circuit(
        2,
        &[(Tk2Op::CX, &[0, 1]), (Tk2Op::H, &[1]), (Tk2Op::CX, &[0, 1])],
    );
    let m = PatternMatcher::from_patterns(vec![CircuitPattern::try_from_circuit(pattern).unwrap()]);
    let r = PatternMatch::try_from_root_match(nodes[0], 0, &circ, &m);
    assert!(r.is_err());
}

#[test]
fn offsets_compatibility() {
    let out0 = Port { dir: Direction::Outgoing, index: 0 };
    let in0 = Port { dir: Direction::Incoming, index: 0 };
    let in1 = Port { dir: Direction::Incoming, index: 1 };
    let e1 = PEdge::InternalEdge { src: out0, dst: in0 };
    let e2 = PEdge::InternalEdge { src: out0, dst: in1 };
    let e3 = PEdge::InputEdge { src: in0 };
    assert!(compatible_offsets(&e1, &e2));
    assert!(!compatible_offsets(&e2, &e1));
    assert!(!compatible_offsets(&e3, &e1));
    assert!(!compatible_offsets(&e1, &e3));
    assert_eq!(e3.offset_id(), in0);
}

#[test]
fn several_patterns_are_matched_together() {
    let patterns = vec![
        CircuitPattern::try_from_circuit(h_cx()).unwrap(),
        CircuitPattern::try_from_circuit(cx_xc()).unwrap(),
    ];
    let m = PatternMatcher::from_patterns(patterns);
    let (circ, nodes) = build_matching_circuit(
        2,
        &[(Tk2Op::CX, &[0, 1]), (Tk2Op::H, &[0]), (Tk2Op::CX, &[0, 1]), (Tk2Op::CX, &[1, 0])],
    );
    let found = m.find_matches(&circ);
    assert!(found.iter().any(|pm| pm.pattern_id() == 0 && pm.root() == nodes[0]));
    assert!(found.iter().any(|pm| pm.pattern_id() == 1 && pm.root() == nodes[2]));
}

#[test]
fn disconnected_pattern_is_refused() {
    let (circ, _) = build_matching_circuit(2, &[(Tk2Op::X, &[0]), (Tk2Op::Z, &[1])]);
    assert!(matches!(
        CircuitPattern::try_from_circuit(circ),
        Err(tket2::matcher::InvalidPattern::NotConnected)
    ));
    assert!(matches!(
        CircuitPattern::try_from_circuit(Circuit::new(1)),
        Err(tket2::matcher::InvalidPattern::EmptyPattern)
    ));
}
