//! Cost-guided search for an equivalent circuit of lower cost: rewrites come
//! from classes of equivalent circuit fragments, any fragment of a class
//! standing in for any other; the cheapest circuit found so far is explored
//! first, and circuits already seen are not explored again.
use vstd::prelude::*;

use crate::circuit::Circuit;
use crate::circuit::CircuitModel;
use crate::circuit::all_ordered;
use crate::matcher::{connected_ops, has_operation, CircuitPattern, InvalidPattern, PatternMatcher};
use crate::ops::{Op, Tk2Op};
use crate::rewrite::CircuitRewrite;

verus! {

/// Number of entries of a cost table: one per gate, then the identity,
/// then operations outside the instruction set.
pub const N_COST_CLASSES: usize = 15;

/// The entry of the cost table for an operation.
pub open spec fn op_class(op: Op) -> int {
    match op {
        Op::Gate(g) => match g {
            Tk2Op::H => 0,
            Tk2Op::CX => 1,
            Tk2Op::CZ => 2,
            Tk2Op::T => 3,
            Tk2Op::S => 4,
            Tk2Op::X => 5,
            Tk2Op::Y => 6,
            Tk2Op::Z => 7,
            Tk2Op::Tdg => 8,
            Tk2Op::Sdg => 9,
            Tk2Op::ZZMax => 10,
            Tk2Op::Measure => 11,
            Tk2Op::Reset => 12,
        },
        Op::Identity(_) => 13,
        _ => 14,
    }
}

/// The entry of the cost table for an operation.
pub fn cost_class(op: Op) -> (r: usize)
    ensures
        r == op_class(op),
        r < N_COST_CLASSES,
{
    match op {
        Op::Gate(g) => match g {
            Tk2Op::H => 0,
            Tk2Op::CX => 1,
            Tk2Op::CZ => 2,
            Tk2Op::T => 3,
            Tk2Op::S => 4,
            Tk2Op::X => 5,
            Tk2Op::Y => 6,
            Tk2Op::Z => 7,
            Tk2Op::Tdg => 8,
            Tk2Op::Sdg => 9,
            Tk2Op::ZZMax => 10,
            Tk2Op::Measure => 11,
            Tk2Op::Reset => 12,
        },
        Op::Identity(_) => 13,
        _ => 14,
    }
}

/// The total cost of the operations among the first `k` nodes.
pub open spec fn cost_upto(m: CircuitModel, weights: Seq<u64>, k: nat) -> nat
    decreases k,
{
    if k == 0 {
        0
    } else {
        cost_upto(m, weights, (k - 1) as nat) + if m.is_gate_node(k - 1) {
            weights[op_class(m.ops[k - 1])] as nat
        } else {
            0nat
        }
    }
}

/// The cost of a circuit: the sum of the table entries of its operations.
pub open spec fn cost_of(m: CircuitModel, weights: Seq<u64>) -> nat {
    cost_upto(m, weights, m.n_nodes())
}

/// The total cost of the operations at `nodes`.
pub open spec fn nodes_cost_of(m: CircuitModel, nodes: Seq<usize>, weights: Seq<u64>) -> nat
    decreases nodes.len(),
{
    if nodes.len() == 0 {
        0
    } else {
        nodes_cost_of(m, nodes.drop_last(), weights) + weights[op_class(m.ops[nodes.last() as int])] as nat
    }
}

/// `x`, or the largest `u64` when it is larger.
pub open spec fn saturate(x: nat) -> u64 {
    if x > u64::MAX { u64::MAX } else { x as u64 }
}

impl Circuit {
    /// The cost of the circuit under a table of operation costs, saturating
    /// at the largest `u64`.
    pub fn circuit_cost(&self, weights: &Vec<u64>) -> (r: u64)
        requires
            self@.wf(),
            weights@.len() == N_COST_CLASSES,
        ensures
            r == saturate(cost_of(self@, weights@)),
    {
        let n = self.node_count();
        let mut total: u64 = 0;
        let mut k: usize = 0;
        while k < n
            invariant
                self@.wf(),
                n == self@.n_nodes(),
                weights@.len() == N_COST_CLASSES,
                k <= n,
                total == saturate(cost_upto(self@, weights@, k as nat)),
            decreases n - k,
        {
            if k >= 2 && self.contains_node(k) {
                let w = weights[cost_class(self.op(k))];
                total = total.saturating_add(w);
            }
            k = k + 1;
        }
        total
    }

    /// The cost of the operations at `nodes`, saturating at the largest
    /// `u64`.
    pub fn nodes_cost(&self, nodes: &Vec<usize>, weights: &Vec<u64>) -> (r: u64)
        requires
            self@.wf(),
            weights@.len() == N_COST_CLASSES,
            forall|i: int| 0 <= i < nodes@.len() ==> nodes@[i] < self@.n_nodes(),
        ensures
            r == saturate(nodes_cost_of(self@, nodes@, weights@)),
    {
        let mut total: u64 = 0;
        let mut i: usize = 0;
        while i < nodes.len()
            invariant
                self@.wf(),
                weights@.len() == N_COST_CLASSES,
                forall|j: int| 0 <= j < nodes@.len() ==> nodes@[j] < self@.n_nodes(),
                i <= nodes@.len(),
                total == saturate(nodes_cost_of(self@, nodes@.take(i as int), weights@)),
            decreases nodes@.len() - i,
        {
            proof {
                assert(nodes@.take(i + 1).drop_last() =~= nodes@.take(i as int));
            }
            let w = weights[cost_class(self.op(nodes[i]))];
            total = total.saturating_add(w);
            i = i + 1;
        }
        proof {
            assert(nodes@.take(nodes@.len() as int) =~= nodes@);
        }
        total
    }
}

/// A structural hash of a circuit that does not depend on the order in
/// which its operations are listed: a wrapping sum over its operations of a
/// mix of the operation and its qubits.
fn state_hash(circ: &Circuit) -> u64
    requires
        circ@.wf(),
{
    let n = circ.node_count();
    let mut h: u64 = circ.phase() as u64;
    let mut k: usize = 2;
    while k < n
        invariant
            circ@.wf(),
            n == circ@.n_nodes(),
        decreases n - k,
    {
        if circ.contains_node(k) {
            proof {
                assert(circ@.node_wf(k as int));
            }
            let op = circ.op(k);
            let mut x: u64 = (cost_class(op) as u64).wrapping_add(1);
            x = match op {
                Op::Identity(p) => x.wrapping_mul(31).wrapping_add(p as u64),
                Op::Opaque(id, _) => x.wrapping_mul(31).wrapping_add(id),
                _ => x,
            };
            let qs = circ.node_qubits(k);
            let mut i: usize = 0;
            while i < qs.len()
                invariant
                    circ@.wf(),
                    k < n,
                    n == circ@.n_nodes(),
                    circ@.node_wf(k as int),
                    qs@ == circ@.qubits[k as int],
                    i <= qs@.len(),
                decreases qs@.len() - i,
            {
                x = x.wrapping_mul(1_000_003).wrapping_add((qs[i] as u64).wrapping_add(7));
                // What each wire leads to: the kind of the next operation and
                // the port it enters, which does not depend on node numbering.
                let next = match circ.linked_out(k, i) {
                    Some(d) => {
                        proof {
                            assert(circ@.out_link_ok(k as int, i as int));
                        }
                        (cost_class(circ.op(d.node)) as u64).wrapping_mul(131).wrapping_add(d.port as u64)
                    },
                    None => 0,
                };
                x = x.wrapping_mul(1_000_033).wrapping_add(next);
                i = i + 1;
            }
            h = h.wrapping_add(x.wrapping_mul(0x9E37_79B9_7F4A_7C15));
        }
        k = k + 1;
    }
    h
}

/// The number of fragments in the first `k` classes.
pub open spec fn total_fragments(eccs: Seq<Vec<Circuit>>, k: nat) -> nat
    decreases k,
{
    if k == 0 {
        0
    } else {
        total_fragments(eccs, (k - 1) as nat) + eccs[k - 1]@.len()
    }
}

/// The fragments of the first `k` classes, in order.
pub open spec fn flat_fragments(eccs: Seq<Vec<Circuit>>, k: nat) -> Seq<CircuitModel>
    decreases k,
{
    if k == 0 {
        seq![]
    } else {
        flat_fragments(eccs, (k - 1) as nat) + eccs[k - 1]@.map_values(|f: Circuit| f@)
    }
}

/// The class of each fragment of the first `k` classes, in order.
pub open spec fn flat_classes(eccs: Seq<Vec<Circuit>>, k: nat) -> Seq<usize>
    decreases k,
{
    if k == 0 {
        seq![]
    } else {
        flat_classes(eccs, (k - 1) as nat) + Seq::new(eccs[k - 1]@.len(), |j: int| (k - 1) as usize)
    }
}

/// A circuit makes a pattern: it has an operation, its operations can all
/// be ordered, and they are connected by wires.
pub open spec fn pattern_ready(m: CircuitModel) -> bool {
    has_operation(m) && all_ordered(m) && connected_ops(m)
}

/// A search over rewrites drawn from classes of equivalent circuits.
pub struct Optimiser {
    matcher: PatternMatcher,
    fragments: Vec<Circuit>,
    classes: Vec<usize>,
}

impl Optimiser {
    /// The patterns, fragments and classes agree.
    pub closed spec fn valid(&self) -> bool {
        &&& self.matcher.valid()
        &&& self.fragments@.len() == self.matcher.patterns_spec().len()
        &&& self.classes@.len() == self.fragments@.len()
        &&& forall|i: int| 0 <= i < self.fragments@.len() ==> (#[trigger] self.fragments@[i])@.wf()
    }

    /// The fragments, in pattern order.
    pub closed spec fn fragment_models(&self) -> Seq<CircuitModel> {
        self.fragments@.map_values(|f: Circuit| f@)
    }

    /// The circuits of the patterns.
    pub closed spec fn pattern_models(&self) -> Seq<CircuitModel> {
        self.matcher.patterns_spec().map_values(|p: CircuitPattern| p.model())
    }

    /// The class of each fragment.
    pub closed spec fn class_seq(&self) -> Seq<usize> {
        self.classes@
    }

    /// The number of rewrite patterns.
    pub closed spec fn pattern_count(&self) -> nat {
        self.matcher.patterns_spec().len()
    }

    /// The number of rewrite patterns.
    pub fn n_patterns(&self) -> (r: usize)
        ensures
            r == self.pattern_count(),
    {
        self.matcher.n_patterns()
    }

    /// An optimiser for classes of equivalent circuits; each circuit
    /// becomes a pattern that the others of its class can replace.
    pub fn from_eccs(eccs: &Vec<Vec<Circuit>>) -> (r: Result<Optimiser, InvalidPattern>)
        requires
            forall|c: int, i: int|
                0 <= c < eccs@.len() && 0 <= i < eccs@[c]@.len() ==> (#[trigger] eccs@[c]@[i])@.wf(),
        ensures
            r matches Ok(o) ==> o.valid() && o.pattern_count() == total_fragments(eccs@, eccs@.len())
                && o.fragment_models() == flat_fragments(eccs@, eccs@.len()) && o.pattern_models()
                == o.fragment_models() && o.class_seq() == flat_classes(eccs@, eccs@.len()),
            r is Err ==> exists|c: int, i: int|
                0 <= c < eccs@.len() && 0 <= i < eccs@[c]@.len() && !pattern_ready(#[trigger] eccs@[c]@[i]@),
            (forall|c: int, i: int|
                0 <= c < eccs@.len() && 0 <= i < eccs@[c]@.len() ==> pattern_ready(#[trigger] eccs@[c]@[i]@))
                ==> r is Ok,
    {
        let mut patterns: Vec<CircuitPattern> = Vec::new();
        let mut fragments: Vec<Circuit> = Vec::new();
        let mut classes: Vec<usize> = Vec::new();
        let mut c: usize = 0;
        while c < eccs.len()
            invariant
                forall|a: int, i: int|
                    0 <= a < eccs@.len() && 0 <= i < eccs@[a]@.len() ==> (#[trigger] eccs@[a]@[i])@.wf(),
                c <= eccs@.len(),
                fragments@.len() == total_fragments(eccs@, c as nat),
                fragments@.map_values(|f: Circuit| f@) == flat_fragments(eccs@, c as nat),
                patterns@.map_values(|p: CircuitPattern| p.model()) == fragments@.map_values(|f: Circuit| f@),
                classes@ == flat_classes(eccs@, c as nat),
                fragments@.len() == patterns@.len(),
                classes@.len() == fragments@.len(),
                forall|i: int| 0 <= i < patterns@.len() ==> #[trigger] patterns@[i].valid(),
                forall|i: int| 0 <= i < fragments@.len() ==> (#[trigger] fragments@[i])@.wf(),
            decreases eccs@.len() - c,
        {
            let class = &eccs[c];
            let mut i: usize = 0;
            while i < class.len()
                invariant
                    forall|a: int, j: int|
                        0 <= a < eccs@.len() && 0 <= j < eccs@[a]@.len() ==> (#[trigger] eccs@[a]@[j])@.wf(),
                    c < eccs@.len(),
                    class@ == eccs@[c as int]@,
                    i <= class@.len(),
                    fragments@.len() == total_fragments(eccs@, c as nat) + i,
                    fragments@.map_values(|f: Circuit| f@) == flat_fragments(eccs@, c as nat) + class@.take(
                        i as int,
                    ).map_values(|f: Circuit| f@),
                    patterns@.map_values(|p: CircuitPattern| p.model()) == fragments@.map_values(|f: Circuit| f@),
                    classes@ == flat_classes(eccs@, c as nat) + Seq::new(i as nat, |j: int| c),
                    fragments@.len() == patterns@.len(),
                    classes@.len() == fragments@.len(),
                    forall|j: int| 0 <= j < patterns@.len() ==> #[trigger] patterns@[j].valid(),
                    forall|j: int| 0 <= j < fragments@.len() ==> (#[trigger] fragments@[j])@.wf(),
                decreases class@.len() - i,
            {
                proof {
                    assert(eccs@[c as int]@[i as int]@.wf());
                }
                let p = CircuitPattern::try_from_circuit(class[i].duplicate());
                match p {
                    Ok(p) => {
                        let ghost f0 = fragments@;
                        let ghost p0 = patterns@;
                        let ghost k0 = classes@;
                        patterns.push(p);
                        fragments.push(class[i].duplicate());
                        classes.push(c);
                        proof {
                            assert(class@.take(i + 1) =~= class@.take(i as int).push(class@[i as int]));
                            assert(fragments@.map_values(|f: Circuit| f@) =~= f0.map_values(|f: Circuit| f@).push(
                                class@[i as int]@,
                            ));
                            assert(patterns@.map_values(|p: CircuitPattern| p.model()) =~= p0.map_values(
                                |p: CircuitPattern| p.model(),
                            ).push(class@[i as int]@));
                            assert(class@.take(i + 1).map_values(|f: Circuit| f@) =~= class@.take(i as int).map_values(
                                |f: Circuit| f@,
                            ).push(class@[i as int]@));
                            assert(classes@ =~= flat_classes(eccs@, c as nat) + Seq::new((i + 1) as nat, |j: int| c));
                        }
                    },
                    Err(e) => {
                        proof {
                            assert(!pattern_ready(eccs@[c as int]@[i as int]@));
                        }
                        return Err(e);
                    },
                }
                i = i + 1;
            }
            proof {
                assert(class@.take(class@.len() as int) =~= class@);
                assert(flat_fragments(eccs@, (c + 1) as nat) == flat_fragments(eccs@, c as nat) + eccs@[c as int]@.map_values(
                    |f: Circuit| f@,
                ));
            }
            c = c + 1;
        }
        let matcher = PatternMatcher::from_patterns(patterns);
        Ok(Optimiser { matcher, fragments, classes })
    }

    /// Start a search from `circ`: it is the only circuit to explore and
    /// the best one so far.
    pub fn start_search(&self, circ: &Circuit, weights: &Vec<u64>) -> (r: SearchState)
        requires
            circ@.wf(),
            weights@.len() == N_COST_CLASSES,
        ensures
            r.inv(weights@),
            r.start() == circ@,
            r.best_model() == circ@,
    {
        let best = circ.duplicate();
        let best_cost = best.circuit_cost(weights);
        let mut frontier: Vec<Circuit> = Vec::new();
        let mut costs: Vec<u64> = Vec::new();
        frontier.push(circ.duplicate());
        costs.push(best_cost);
        let mut seen: Vec<u64> = Vec::new();
        seen.push(state_hash(circ));
        SearchState { start: Ghost(circ@), best, best_cost, frontier, costs, seen }
    }

    /// Explore the cheapest circuit left: apply every rewrite that matches
    /// it, and keep each result not seen before, as the best one when it is
    /// cheaper than the best so far. Returns `false`, doing nothing, when
    /// no circuit is left.
    pub fn search_step(&self, state: &mut SearchState, weights: &Vec<u64>) -> (r: bool)
        requires
            self.valid(),
            old(state).inv(weights@),
        ensures
            final(state).inv(weights@),
            final(state).start() == old(state).start(),
            r == (old(state).n_left() > 0),
            cost_of(final(state).best_model(), weights@) <= cost_of(old(state).best_model(), weights@),
            !r ==> *final(state) == *old(state),
            r ==> exists|i: int|
                0 <= i < old(state).n_left() && (forall|j: int|
                    0 <= j < old(state).n_left() ==> saturate(cost_of(old(state).left()[i], weights@)) <= saturate(
                        cost_of(#[trigger] old(state).left()[j], weights@),
                    )) && final(state).left().len() >= old(state).n_left() - 1 && final(state).left().take(old(state).n_left() - 1) == old(state).left().remove(i),
    {
        if state.frontier.len() == 0 {
            return false;
        }
        let ghost circ = state.start@;
        let ghost best0 = cost_of(state.best@, weights@);
        let ghost left0 = state.left();
        let mut pick: usize = 0;
        let mut i: usize = 1;
        while i < state.costs.len()
            invariant
                state.costs@.len() > 0,
                pick < state.costs@.len(),
                1 <= i <= state.costs@.len(),
                forall|j: int| 0 <= j < i ==> state.costs@[pick as int] <= #[trigger] state.costs@[j],
            decreases state.costs@.len() - i,
        {
            if state.costs[i] < state.costs[pick] {
                pick = i;
            }
            i = i + 1;
        }
        proof {
            assert(state.frontier@[pick as int]@.wf());
            assert(state.frontier@[pick as int]@.n_qubits == circ.n_qubits);
        }
        let ghost before = state.frontier@;
        let ghost costs_before = state.costs@;
        let cur = state.frontier.remove(pick);
        state.costs.remove(pick);
        let ghost removed = state.left();
        proof {
            assert(removed =~= left0.remove(pick as int));
            assert forall|j: int| 0 <= j < left0.len() implies saturate(cost_of(left0[pick as int], weights@)) <= saturate(
                cost_of(#[trigger] left0[j], weights@),
            ) by {
                assert(costs_before[pick as int] <= costs_before[j]);
            }
            assert forall|j: int| 0 <= j < state.frontier@.len() implies #[trigger] state.costs@[j] == saturate(
                cost_of(state.frontier@[j]@, weights@),
            ) by {
                if j < pick {
                    assert(state.frontier@[j] == before[j]);
                    assert(state.costs@[j] == costs_before[j]);
                } else {
                    assert(state.frontier@[j] == before[j + 1]);
                    assert(state.costs@[j] == costs_before[j + 1]);
                }
            }
            assert forall|j: int| 0 <= j < state.frontier@.len() implies (#[trigger] state.frontier@[j])@.wf()
                && state.frontier@[j]@.n_qubits == circ.n_qubits by {
                if j < pick {
                    assert(state.frontier@[j] == before[j]);
                } else {
                    assert(state.frontier@[j] == before[j + 1]);
                }
            }
        }
        let matches = self.matcher.find_matches(&cur);
        proof {
            assert forall|j: int| 0 <= j < matches@.len() implies {
                &&& (#[trigger] matches@[j]).pattern_spec() < self.matcher.patterns_spec().len()
                &&& crate::rewrite::valid_nodes(cur@, matches@[j].node_seq())
            } by {
                assert(self.matcher.realised_in(cur@, matches@[j]));
            }
        }
        let mut k: usize = 0;
        while k < matches.len()
            invariant
                circ == state.start@,
                state.inv(weights@),
                cost_of(state.best@, weights@) <= best0,
                state.left().len() >= removed.len(),
                state.left().take(removed.len() as int) == removed,
                cur@.wf(),
                cur@.n_qubits == circ.n_qubits,
                self.valid(),
                forall|j: int|
                    0 <= j < matches@.len() ==> {
                        &&& (#[trigger] matches@[j]).pattern_spec() < self.matcher.patterns_spec().len()
                        &&& crate::rewrite::valid_nodes(cur@, matches@[j].node_seq())
                    },
            decreases matches@.len() - k,
        {
            let m = &matches[k];
            let pid = m.pattern_id();
            let mut j: usize = 0;
            while j < self.fragments.len()
                invariant
                    circ == state.start@,
                    state.inv(weights@),
                    cost_of(state.best@, weights@) <= best0,
                    state.left().len() >= removed.len(),
                    state.left().take(removed.len() as int) == removed,
                    cur@.wf(),
                    cur@.n_qubits == circ.n_qubits,
                    self.valid(),
                    pid < self.classes@.len(),
                    crate::rewrite::valid_nodes(cur@, m.node_seq()),
                decreases self.fragments@.len() - j,
            {
                if j != pid && self.classes[j] == self.classes[pid] && cur.node_count() < usize::MAX / 2
                    && self.fragments[j].node_count() < usize::MAX / 2 {
                    proof {
                        assert(self.fragments@[j as int]@.wf());
                    }
                    let mut next = cur.duplicate();
                    let rewrite = CircuitRewrite::new(
                        m.subcircuit().duplicate(),
                        self.fragments[j].duplicate(),
                        0,
                    );
                    if rewrite.apply(&mut next).is_ok() {
                        let ghost l0 = state.left();
                        state.offer(next, weights);
                        proof {
                            if state.left() != l0 {
                                assert(state.left().take(removed.len() as int) =~= l0.take(removed.len() as int));
                            }
                        }
                    }
                }
                j = j + 1;
            }
            k = k + 1;
        }
        true
    }

    /// Search for a circuit equivalent to `circ` of lower cost, exploring at
    /// most `max_steps` circuits, cheapest first.
    ///
    /// The result never costs more than `circ`.
    pub fn optimise(&self, circ: &Circuit, weights: &Vec<u64>, max_steps: usize) -> (r: Circuit)
        requires
            circ@.wf(),
            self.valid(),
            weights@.len() == N_COST_CLASSES,
        ensures
            r@.wf(),
            r@.n_qubits == circ@.n_qubits,
            cost_of(r@, weights@) <= cost_of(circ@, weights@),
    {
        let mut state = self.start_search(circ, weights);
        let mut steps: usize = 0;
        while steps < max_steps
            invariant
                self.valid(),
                state.inv(weights@),
                state.start() == circ@,
            decreases max_steps - steps,
        {
            if !self.search_step(&mut state, weights) {
                break;
            }
            steps = steps + 1;
        }
        state.into_best()
    }
}

impl Optimiser {
    /// Search as `optimise` does, and also tell whether the circuit found
    /// is cheaper than `circ`.
    pub fn optimise_with_flag(&self, circ: &Circuit, weights: &Vec<u64>, max_steps: usize) -> (r: (
        Circuit,
        bool,
    ))
        requires
            circ@.wf(),
            self.valid(),
            weights@.len() == N_COST_CLASSES,
        ensures
            r.0@.wf(),
            r.0@.n_qubits == circ@.n_qubits,
            cost_of(r.0@, weights@) <= cost_of(circ@, weights@),
            r.1 == (saturate(cost_of(r.0@, weights@)) < saturate(cost_of(circ@, weights@))),
            r.1 ==> cost_of(r.0@, weights@) < cost_of(circ@, weights@),
    {
        let best = self.optimise(circ, weights, max_steps);
        let improved = best.circuit_cost(weights) < circ.circuit_cost(weights);
        (best, improved)
    }
}

/// The state of a search: the best circuit found, the circuits left to
/// explore with their costs, and the hashes of the circuits seen.
pub struct SearchState {
    start: Ghost<CircuitModel>,
    best: Circuit,
    best_cost: u64,
    frontier: Vec<Circuit>,
    costs: Vec<u64>,
    seen: Vec<u64>,
}

impl SearchState {
    /// The circuit the search started from.
    pub closed spec fn start(&self) -> CircuitModel {
        self.start@
    }

    /// The best circuit found so far.
    pub closed spec fn best_model(&self) -> CircuitModel {
        self.best@
    }

    /// The number of circuits left to explore.
    pub closed spec fn n_left(&self) -> nat {
        self.frontier@.len()
    }

    /// The circuits left to explore.
    pub closed spec fn left(&self) -> Seq<CircuitModel> {
        self.frontier@.map_values(|c: Circuit| c@)
    }

    /// The best circuit is well formed, on the same qubits as the start, and
    /// costs no more than it; so are the circuits left to explore.
    pub closed spec fn inv(&self, weights: Seq<u64>) -> bool {
        &&& weights.len() == N_COST_CLASSES
        &&& self.start@.wf()
        &&& self.best@.wf()
        &&& self.best@.n_qubits == self.start@.n_qubits
        &&& self.best_cost == saturate(cost_of(self.best@, weights))
        &&& cost_of(self.best@, weights) <= cost_of(self.start@, weights)
        &&& self.costs@.len() == self.frontier@.len()
        &&& forall|i: int|
            0 <= i < self.frontier@.len() ==> #[trigger] self.costs@[i] == saturate(
                cost_of(self.frontier@[i]@, weights),
            )
        &&& forall|i: int| 0 <= i < self.frontier@.len() ==> (#[trigger] self.frontier@[i])@.wf()
        &&& forall|i: int|
            0 <= i < self.frontier@.len() ==> (#[trigger] self.frontier@[i])@.n_qubits == self.start@.n_qubits
    }

    /// Keep `next` if its hash was not seen: as a circuit to explore, and as
    /// the best one if it is cheaper.
    fn offer(&mut self, next: Circuit, weights: &Vec<u64>)
        requires
            old(self).inv(weights@),
            next@.wf(),
            next@.n_qubits == old(self).start@.n_qubits,
        ensures
            final(self).inv(weights@),
            final(self).start == old(self).start,
            cost_of(final(self).best@, weights@) <= cost_of(old(self).best@, weights@),
            final(self).left() == old(self).left() || final(self).left() == old(self).left().push(next@),
    {
        let h = state_hash(&next);
        let mut fresh = true;
        let mut t: usize = 0;
        while t < self.seen.len()
            invariant
                t <= self.seen@.len(),
            decreases self.seen@.len() - t,
        {
            if self.seen[t] == h {
                fresh = false;
            }
            t = t + 1;
        }
        if fresh {
            self.seen.push(h);
            let c = next.circuit_cost(weights);
            if c < self.best_cost {
                self.best = next.duplicate();
                self.best_cost = c;
            }
            let ghost f0 = self.frontier@;
            let ghost c0 = self.costs@;
            self.frontier.push(next);
            self.costs.push(c);
            proof {
                assert(self.frontier@.map_values(|c: Circuit| c@) =~= f0.map_values(|c: Circuit| c@).push(next@));
                assert forall|i: int| 0 <= i < self.frontier@.len() implies #[trigger] self.costs@[i] == saturate(
                    cost_of(self.frontier@[i]@, weights@),
                ) by {
                    if i < f0.len() {
                        assert(self.costs@[i] == c0[i]);
                        assert(self.frontier@[i] == f0[i]);
                    }
                }
            }
        }
    }

    /// Whether no circuit is left to explore.
    pub fn is_done(&self) -> (r: bool)
        ensures
            r == (self.n_left() == 0),
    {
        self.frontier.len() == 0
    }

    /// The best circuit found so far.
    pub fn best(&self) -> (r: &Circuit)
        ensures
            r@ == self.best_model(),
    {
        &self.best
    }

    /// The best circuit found, ending the search.
    pub fn into_best(self) -> (r: Circuit)
        requires
            exists|w: Seq<u64>| self.inv(w),
        ensures
            r@ == self.best_model(),
            r@.wf(),
            r@.n_qubits == self.start().n_qubits,
            forall|w: Seq<u64>| #[trigger] self.inv(w) ==> cost_of(r@, w) <= cost_of(self.start(), w),
    {
        self.best
    }
}

} // verus!
