//! Depth reduction by commutation: operations are laid out in slices (layers
//! holding at most one operation per qubit), then each is pulled forward
//! into the earliest free slice it can reach by commuting past the
//! operations in between.
use vstd::prelude::*;

use crate::circuit::{
    connect_error, is_maximal, is_topological, Circuit, CircuitModel, CircuitMutError, PortRef,
};
use crate::ops::{gate_commutation, paulis_commute, Op, Pauli};

verus! {

/// A command of the schedule: a node of the circuit and the qubit at each
/// of its ports.
#[derive(Clone, Debug)]
pub struct ComCommand {
    pub node: usize,
    pub qubits: Vec<usize>,
}

/// The first port of `qs` that carries qubit `q`.
pub open spec fn port_of(qs: Seq<usize>, q: usize) -> Option<nat>
    decreases qs.len(),
{
    if qs.len() == 0 {
        None
    } else if qs[0] == q {
        Some(0)
    } else {
        match port_of(qs.drop_first(), q) {
            Some(i) => Some(i + 1),
            None => None,
        }
    }
}

/// `port_of` finds the first port carrying the qubit, and nothing when no
/// port carries it.
pub proof fn lemma_port_of(qs: Seq<usize>, q: usize)
    ensures
        port_of(qs, q) matches Some(i) ==> i < qs.len() && qs[i as int] == q && forall|j: int|
            0 <= j < i ==> qs[j] != q,
        port_of(qs, q) is None ==> forall|j: int| 0 <= j < qs.len() ==> qs[j] != q,
    decreases qs.len(),
{
    if qs.len() > 0 && qs[0] != q {
        lemma_port_of(qs.drop_first(), q);
        if let Some(i) = port_of(qs.drop_first(), q) {
            assert forall|j: int| 0 <= j < i + 1 implies qs[j] != q by {
                if j > 0 {
                    assert(qs[j] == qs.drop_first()[j - 1]);
                }
            }
        } else {
            assert forall|j: int| 0 <= j < qs.len() implies qs[j] != q by {
                if j > 0 {
                    assert(qs[j] == qs.drop_first()[j - 1]);
                }
            }
        }
    }
}

impl ComCommand {
    /// The node of the command.
    pub fn node(&self) -> (r: usize)
        ensures
            r == self.node,
    {
        self.node
    }

    /// The qubits of the command, in port order.
    pub fn qubits(&self) -> (r: &Vec<usize>)
        ensures
            r@ == self.qubits@,
    {
        &self.qubits
    }

    /// The port of the command that carries qubit `qb`.
    pub fn port_of_qb(&self, qb: usize) -> (r: Option<usize>)
        ensures
            r matches Some(i) ==> port_of(self.qubits@, qb) == Some(i as nat),
            r is None ==> port_of(self.qubits@, qb) is None,
    {
        let mut i: usize = 0;
        while i < self.qubits.len()
            invariant
                i <= self.qubits@.len(),
                forall|j: int| 0 <= j < i ==> self.qubits@[j] != qb,
            decreases self.qubits@.len() - i,
        {
            if self.qubits[i] == qb {
                proof {
                    lemma_port_of(self.qubits@, qb);
                    if let Some(k) = port_of(self.qubits@, qb) {
                        assert(self.qubits@[k as int] == qb);
                        assert(!(k < i));
                        assert(!(k > i));
                    }
                }
                return Some(i);
            }
            i = i + 1;
        }
        proof {
            lemma_port_of(self.qubits@, qb);
        }
        None
    }
}

/// The qubits of each command of an arena.
pub open spec fn arena_qubits(arena: Seq<ComCommand>) -> Seq<Seq<usize>> {
    arena.map_values(|c: ComCommand| c.qubits@)
}

/// The slice `row` with the qubits `qs` given to command `k`.
pub open spec fn with_command(row: Seq<Option<usize>>, qs: Seq<usize>, k: usize) -> Seq<
    Option<usize>,
> {
    Seq::new(row.len(), |q: int| if qs.contains(q as usize) { Some(k) } else { row[q] })
}

/// The largest entry of `free` over the qubits `qs` (zero for none).
pub open spec fn max_free(free: Seq<nat>, qs: Seq<usize>) -> nat
    decreases qs.len(),
{
    if qs.len() == 0 {
        0
    } else {
        let rest = max_free(free, qs.drop_last());
        let v = free[qs.last() as int];
        if v > rest {
            v
        } else {
            rest
        }
    }
}

/// The slice schedule of commands on `n` qubits, taken in order: each goes
/// to the first slice after every earlier command on one of its qubits.
/// Also returns, for each qubit, the first slice in which it is free.
pub open spec fn schedule(qss: Seq<Seq<usize>>, n: nat) -> (Seq<Seq<Option<usize>>>, Seq<nat>)
    decreases qss.len(),
{
    if qss.len() == 0 {
        (seq![], Seq::new(n, |q: int| 0nat))
    } else {
        let prev = schedule(qss.drop_last(), n);
        let slices = prev.0;
        let free = prev.1;
        let k = (qss.len() - 1) as usize;
        let qs = qss.last();
        let f = max_free(free, qs);
        let free2 = Seq::new(n, |q: int| if qs.contains(q as usize) { f + 1 } else { free[q] });
        let slices2 = if f >= slices.len() {
            slices.push(Seq::new(n, |q: int| None::<usize>))
        } else {
            slices
        };
        (slices2.update(f as int, with_command(slices2[f as int], qs, k)), free2)
    }
}

/// Give the slots of the command's qubits in `slice` to command `k`.
pub fn add_to_slice(slice: &mut Vec<Option<usize>>, k: usize, qubits: &Vec<usize>)
    requires
        forall|i: int| 0 <= i < qubits@.len() ==> qubits@[i] < old(slice)@.len(),
    ensures
        final(slice)@ == with_command(old(slice)@, qubits@, k),
{
    let ghost orig = slice@;
    let len = slice.len();
    let mut i: usize = 0;
    while i < qubits.len()
        invariant
            i <= qubits@.len(),
            forall|j: int| 0 <= j < qubits@.len() ==> qubits@[j] < orig.len(),
            slice@.len() == orig.len(),
            orig.len() == len,
            forall|j: int| 0 <= j < i ==> slice@[#[trigger] qubits@[j] as int] == Some(k),
            forall|q: int|
                0 <= q < orig.len() && (forall|j: int| 0 <= j < i ==> qubits@[j] != q as usize) ==> slice@[q]
                    == orig[q],
        decreases qubits@.len() - i,
    {
        slice.set(qubits[i], Some(k));
        i = i + 1;
    }
    proof {
        assert forall|q: int| 0 <= q < orig.len() implies slice@[q] == with_command(orig, qubits@, k)[q] by {
            if qubits@.contains(q as usize) {
                let j = choose|j: int| 0 <= j < qubits@.len() && qubits@[j] == q as usize;
                assert(slice@[qubits@[j] as int] == Some(k));
            }
        }
        assert(slice@ =~= with_command(orig, qubits@, k));
    }
}

/// Whether node `n` holds an operation of the instruction set, which the
/// schedule places in slices.
pub open spec fn is_slice_op_node(m: CircuitModel, n: usize) -> bool {
    m.ops[n as int] is Gate
}

/// The nodes of the commands of an arena.
pub open spec fn arena_nodes(arena: Seq<ComCommand>) -> Seq<usize> {
    arena.map_values(|c: ComCommand| c.node)
}

/// Each command names a live gate node of the instruction set, with that
/// node's qubits.
pub open spec fn arena_ok(m: CircuitModel, arena: Seq<ComCommand>) -> bool {
    forall|k: int|
        0 <= k < arena.len() ==> {
            &&& #[trigger] m.is_gate_node(arena[k].node as int)
            &&& is_slice_op_node(m, arena[k].node)
            &&& arena[k].qubits@ == m.qubits[arena[k].node as int]
        }
}

/// The contents of a vector of slices.
pub open spec fn slices_view(slices: Seq<Vec<Option<usize>>>) -> Seq<Seq<Option<usize>>> {
    slices.map_values(|s: Vec<Option<usize>>| s@)
}

/// Every slice has one slot per qubit, and names commands of the arena.
pub open spec fn slices_ok(slices: Seq<Seq<Option<usize>>>, n: nat, n_commands: nat) -> bool {
    forall|i: int|
        0 <= i < slices.len() ==> {
            &&& (#[trigger] slices[i]).len() == n
            &&& forall|q: int| 0 <= q < n ==> (#[trigger] slices[i][q] matches Some(k) ==> k < n_commands)
        }
}

/// The largest entry over some qubits is at most a bound of every entry.
pub proof fn lemma_max_free_bound(free: Seq<nat>, qs: Seq<usize>, b: nat)
    requires
        forall|i: int| 0 <= i < qs.len() ==> qs[i] < free.len(),
        forall|x: int| 0 <= x < free.len() ==> free[x] <= b,
    ensures
        max_free(free, qs) <= b,
    decreases qs.len(),
{
    if qs.len() > 0 {
        lemma_max_free_bound(free, qs.drop_last(), b);
    }
}

/// `arena` and `slices` are the slice layout of the circuit's
/// instruction-set operations, taken in a topological order of the circuit.
pub open spec fn is_slice_layout(
    m: CircuitModel,
    arena: Seq<ComCommand>,
    slices: Seq<Seq<Option<usize>>>,
) -> bool {
    &&& arena_ok(m, arena)
    &&& exists|order: Seq<usize>|
        is_topological(m, order) && is_maximal(m, order) && arena_nodes(arena) == order.filter(
            |n: usize| is_slice_op_node(m, n),
        )
    &&& slices == schedule(arena_qubits(arena), m.n_qubits).0
    &&& slices_ok(slices, m.n_qubits, arena.len())
}

/// Whether the operation at `node` is one the schedule places in slices.
pub fn is_slice_op(circ: &Circuit, node: usize) -> (r: bool)
    requires
        node < circ@.n_nodes(),
    ensures
        r == is_slice_op_node(circ@, node),
{
    match circ.op(node) {
        Op::Gate(_) => true,
        _ => false,
    }
}

/// The largest of `free` over the qubits `qs`.
fn max_free_slice(free: &Vec<usize>, qs: &Vec<usize>) -> (r: usize)
    requires
        forall|i: int| 0 <= i < qs@.len() ==> qs@[i] < free@.len(),
    ensures
        r as nat == max_free(free@.map_values(|x: usize| x as nat), qs@),
{
    let ghost fv = free@.map_values(|x: usize| x as nat);
    let mut mx: usize = 0;
    let mut j: usize = 0;
    while j < qs.len()
        invariant
            j <= qs@.len(),
            forall|i: int| 0 <= i < qs@.len() ==> qs@[i] < free@.len(),
            fv == free@.map_values(|x: usize| x as nat),
            mx as nat == max_free(fv, qs@.take(j as int)),
        decreases qs@.len() - j,
    {
        proof {
            assert(qs@.take(j + 1).drop_last() =~= qs@.take(j as int));
        }
        if free[qs[j]] > mx {
            mx = free[qs[j]];
        }
        j = j + 1;
    }
    proof {
        assert(qs@.take(qs@.len() as int) =~= qs@);
    }
    mx
}

/// Lay the circuit's instruction-set operations out in slices, taking them
/// in a topological order of the circuit.
///
/// Returns the arena of commands and the slices, whose slots hold indices
/// into the arena.
pub fn load_slices(circ: &Circuit) -> (r: (Vec<ComCommand>, Vec<Vec<Option<usize>>>))
    requires
        circ@.wf(),
    ensures
        is_slice_layout(circ@, r.0@, slices_view(r.1@)),
{
    let order = circ.commands();
    let ghost pred = |n: usize| is_slice_op_node(circ@, n);
    let mut arena: Vec<ComCommand> = Vec::new();
    let mut i: usize = 0;
    while i < order.len()
        invariant
            circ@.wf(),
            i <= order@.len(),
            is_topological(circ@, order@),
            arena_ok(circ@, arena@),
            pred == (|n: usize| is_slice_op_node(circ@, n)),
            arena_nodes(arena@) == order@.take(i as int).filter(pred),
        decreases order@.len() - i,
    {
        let n = order[i];
        proof {
            assert(circ@.is_gate_node(order@[i as int] as int));
        }
        let ghost before = arena@;
        if is_slice_op(circ, n) {
            arena.push(ComCommand { node: n, qubits: circ.node_qubits(n).clone() });
            proof {
                assert(arena_nodes(arena@) =~= arena_nodes(before).push(n));
            }
        }
        proof {
            reveal(Seq::filter);
            assert(order@.take(i + 1).drop_last() =~= order@.take(i as int));
            assert(order@.take(i + 1).last() == n);
            assert(pred(n) == is_slice_op_node(circ@, n));
            if pred(n) {
                assert(order@.take(i + 1).filter(pred) == order@.take(i as int).filter(pred).push(n));
            } else {
                assert(order@.take(i + 1).filter(pred) == order@.take(i as int).filter(pred));
            }
        }
        i = i + 1;
    }
    proof {
        assert(order@.take(order@.len() as int) =~= order@);
    }
    let n_qubits = circ.n_qubits();
    let mut free: Vec<usize> = Vec::new();
    let mut q: usize = 0;
    while q < n_qubits
        invariant
            q <= n_qubits,
            free@ == Seq::new(q as nat, |x: int| 0usize),
        decreases n_qubits - q,
    {
        free.push(0);
        q = q + 1;
        proof {
            assert(free@ =~= Seq::new(q as nat, |x: int| 0usize));
        }
    }
    let ghost qss = arena_qubits(arena@);
    proof {
        assert(free@.map_values(|x: usize| x as nat) =~= schedule(qss.take(0), n_qubits as nat).1);
        assert(qss.take(0) =~= seq![]);
    }
    let mut slices: Vec<Vec<Option<usize>>> = Vec::new();
    let mut k: usize = 0;
    while k < arena.len()
        invariant
            circ@.wf(),
            n_qubits == circ@.n_qubits,
            k <= arena@.len(),
            arena_ok(circ@, arena@),
            qss == arena_qubits(arena@),
            free@.len() == n_qubits,
            forall|x: int| 0 <= x < n_qubits ==> free@[x] <= slices@.len(),
            slices@.len() <= k,
            slices_view(slices@) == schedule(qss.take(k as int), n_qubits as nat).0,
            free@.map_values(|x: usize| x as nat) == schedule(qss.take(k as int), n_qubits as nat).1,
            slices_ok(slices_view(slices@), n_qubits as nat, k as nat),
        decreases arena@.len() - k,
    {
        let qs = &arena[k].qubits;
        proof {
            assert(circ@.is_gate_node(arena@[k as int].node as int));
            assert(circ@.node_wf(arena@[k as int].node as int));
            assert(qss.take(k + 1).drop_last() =~= qss.take(k as int));
            assert(qss.take(k + 1).last() == qs@);
        }
        let ghost old_free = free@;
        let ghost old_len = slices@.len();
        let ghost old_slices = slices_view(slices@);
        let ghost fv = free@.map_values(|x: usize| x as nat);
        let f = max_free_slice(&free, qs);
        proof {
            lemma_max_free_bound(fv, qs@, slices@.len() as nat);
        }
        let f1 = f + 1;
        let mut j: usize = 0;
        while j < qs.len()
            invariant
                j <= qs@.len(),
                forall|i: int| 0 <= i < qs@.len() ==> qs@[i] < n_qubits,
                free@.len() == n_qubits,
                forall|i: int| 0 <= i < j ==> free@[#[trigger] qs@[i] as int] == f1,
                forall|x: int|
                    0 <= x < n_qubits && (forall|i: int| 0 <= i < j ==> qs@[i] != x as usize) ==> free@[x]
                        == old_free[x],
            decreases qs@.len() - j,
        {
            free.set(qs[j], f1);
            j = j + 1;
        }
        proof {
            let sched = schedule(qss.take(k + 1), n_qubits as nat);
            assert forall|x: int| 0 <= x < n_qubits implies free@.map_values(|y: usize| y as nat)[x] == sched.1[x] by {
                if qs@.contains(x as usize) {
                    let i = choose|i: int| 0 <= i < qs@.len() && qs@[i] == x as usize;
                    assert(free@[qs@[i] as int] == f1);
                }
            }
            assert(free@.map_values(|y: usize| y as nat) =~= sched.1);
        }
        if f >= slices.len() {
            let mut row: Vec<Option<usize>> = Vec::new();
            let mut x: usize = 0;
            while x < n_qubits
                invariant
                    x <= n_qubits,
                    row@ == Seq::new(x as nat, |y: int| None::<usize>),
                decreases n_qubits - x,
            {
                row.push(None);
                x = x + 1;
                proof {
                    assert(row@ =~= Seq::new(x as nat, |y: int| None::<usize>));
                }
            }
            let ghost before = slices@;
            slices.push(row);
            proof {
                assert(slices_view(slices@) =~= slices_view(before).push(row@));
            }
        }
        let ghost mid = slices_view(slices@);
        proof {
            assert(mid[f as int].len() == n_qubits);
        }
        let mut row = slices[f].clone();
        add_to_slice(&mut row, k, qs);
        let ghost before = slices@;
        slices.set(f, row);
        proof {
            assert(slices_view(slices@) =~= mid.update(f as int, row@));
            assert(slices_view(slices@) == schedule(qss.take(k + 1), n_qubits as nat).0);
            assert(slices@.len() >= f1);
            assert forall|x: int| 0 <= x < n_qubits implies free@[x] <= slices@.len() by {
                if qs@.contains(x as usize) {
                    let i = choose|i: int| 0 <= i < qs@.len() && qs@[i] == x as usize;
                    assert(free@[qs@[i] as int] == f1);
                } else {
                    assert forall|i: int| 0 <= i < qs@.len() implies qs@[i] != x as usize by {
                        if qs@[i] == x as usize {
                            assert(qs@.contains(x as usize));
                        }
                    }
                    assert(free@[x] == old_free[x]);
                    assert(old_free[x] <= old_len);
                }
            }
            let sv = slices_view(slices@);
            assert forall|i: int| 0 <= i < sv.len() implies {
                &&& (#[trigger] sv[i]).len() == n_qubits
                &&& forall|q: int| 0 <= q < n_qubits ==> (#[trigger] sv[i][q] matches Some(c) ==> c < k + 1)
            } by {
                if i != f as int {
                    assert(sv[i] == old_slices[i] || i == old_slices.len());
                }
            }
        }
        k = k + 1;
    }
    proof {
        assert(qss.take(arena@.len() as int) =~= qss);
    }
    (arena, slices)
}

/// The Pauli class that a commutation list gives to `port`: the first pair
/// for that port.
pub open spec fn commutation_at(comms: Seq<(usize, Pauli)>, port: usize) -> Option<Pauli>
    decreases comms.len(),
{
    if comms.len() == 0 {
        None
    } else if comms[0].0 == port {
        Some(comms[0].1)
    } else {
        commutation_at(comms.drop_first(), port)
    }
}

/// The Pauli class that the operation at `node` has at `port`, when it is
/// an operation of the instruction set that declares one there.
pub open spec fn pauli_at(ops: Seq<Op>, node: usize, port: usize) -> Option<Pauli> {
    match ops[node as int] {
        Op::Gate(g) => commutation_at(gate_commutation(g), port),
        _ => None,
    }
}

/// Command `c`, at its port `i`, commutes with command `o`, which acts on
/// the same qubit.
pub open spec fn commutes_on(ops: Seq<Op>, arena: Seq<ComCommand>, c: usize, i: int, o: usize) -> bool {
    let q = arena[c as int].qubits@[i];
    match (pauli_at(ops, arena[c as int].node, i as usize), port_of(arena[o as int].qubits@, q)) {
        (Some(p1), Some(j)) => match pauli_at(ops, arena[o as int].node, j as usize) {
            Some(p2) => paulis_commute(p1, p2),
            None => false,
        },
        _ => false,
    }
}

/// Command `c` commutes with every command that occupies one of its
/// qubits in `slice`.
pub open spec fn commutes_through(
    ops: Seq<Op>,
    arena: Seq<ComCommand>,
    c: usize,
    slice: Seq<Option<usize>>,
) -> bool {
    let qs = arena[c as int].qubits@;
    forall|i: int|
        0 <= i < qs.len() ==> (#[trigger] slice[qs[i] as int] matches Some(o) ==> commutes_on(
            ops,
            arena,
            c,
            i,
            o,
        ))
}

/// For each qubit of command `c`, the command occupying it in `slice`, or
/// `c` itself where the slot is free; nothing on other qubits.
pub open spec fn occupants(arena: Seq<ComCommand>, c: usize, slice: Seq<Option<usize>>) -> Seq<
    Option<usize>,
> {
    let qs = arena[c as int].qubits@;
    Seq::new(
        slice.len(),
        |q: int|
            if qs.contains(q as usize) {
                if slice[q] is Some {
                    slice[q]
                } else {
                    Some(c)
                }
            } else {
                None
            },
    )
}

/// The Pauli class a commutation list gives to `port`.
pub fn commutation_on_port(comms: &Vec<(usize, Pauli)>, port: usize) -> (r: Option<Pauli>)
    ensures
        r == commutation_at(comms@, port),
{
    let mut i: usize = 0;
    proof {
        assert(comms@.skip(0) =~= comms@);
    }
    while i < comms.len()
        invariant
            i <= comms@.len(),
            commutation_at(comms@, port) == commutation_at(comms@.skip(i as int), port),
        decreases comms@.len() - i,
    {
        proof {
            assert(comms@.skip(i as int)[0] == comms@[i as int]);
            assert(comms@.skip(i as int).drop_first() =~= comms@.skip(i + 1));
        }
        if comms[i].0 == port {
            return Some(comms[i].1);
        }
        i = i + 1;
    }
    None
}

/// The Pauli class of the operation at `node` on `port`.
fn pauli_on_port(circ: &Circuit, node: usize, port: usize) -> (r: Option<Pauli>)
    requires
        node < circ@.n_nodes(),
    ensures
        r == pauli_at(circ@.ops, node, port),
{
    match circ.op(node) {
        Op::Gate(g) => commutation_on_port(&g.qubit_commutation(), port),
        _ => None,
    }
}

/// The arena's commands name nodes of the circuit, with their qubits.
pub open spec fn arena_fits(m: CircuitModel, arena: Seq<ComCommand>) -> bool {
    forall|k: int|
        0 <= k < arena.len() ==> {
            &&& (#[trigger] arena[k]).node < m.n_nodes()
            &&& arena[k].qubits@ == m.qubits[arena[k].node as int]
            &&& m.node_wf(arena[k].node as int)
        }
}

/// If command `c` commutes through `slice`, the command occupying each of
/// its qubits there, or `c` itself where the slot is free.
pub fn commutes_at_slice(
    circ: &Circuit,
    arena: &Vec<ComCommand>,
    c: usize,
    slice: &Vec<Option<usize>>,
) -> (r: Option<Vec<Option<usize>>>)
    requires
        c < arena@.len(),
        arena_fits(circ@, arena@),
        slice@.len() == circ@.n_qubits,
        forall|q: int| 0 <= q < slice@.len() ==> (#[trigger] slice@[q] matches Some(o) ==> o < arena@.len()),
    ensures
        r is Some <==> commutes_through(circ@.ops, arena@, c, slice@),
        r matches Some(v) ==> v@ == occupants(arena@, c, slice@),
{
    let com = &arena[c];
    let qs = &com.qubits;
    proof {
        assert(circ@.node_wf(com.node as int));
    }
    let n = slice.len();
    let mut out: Vec<Option<usize>> = Vec::new();
    let mut x: usize = 0;
    while x < n
        invariant
            x <= n,
            out@ == Seq::new(x as nat, |y: int| None::<usize>),
        decreases n - x,
    {
        out.push(None);
        x = x + 1;
        proof {
            assert(out@ =~= Seq::new(x as nat, |y: int| None::<usize>));
        }
    }
    let ghost out0 = out@;
    let mut i: usize = 0;
    while i < qs.len()
        invariant
            c < arena@.len(),
            arena_fits(circ@, arena@),
            com == arena@[c as int],
            qs@ == com.qubits@,
            circ@.node_wf(com.node as int),
            qs@ == circ@.qubits[com.node as int],
            n == slice@.len(),
            n == circ@.n_qubits,
            forall|q: int| 0 <= q < slice@.len() ==> (#[trigger] slice@[q] matches Some(o) ==> o < arena@.len()),
            i <= qs@.len(),
            out@.len() == n,
            forall|j: int| 0 <= j < i ==> (#[trigger] slice@[qs@[j] as int] matches Some(o) ==> commutes_on(circ@.ops, arena@, c, j, o)),
            forall|j: int|
                0 <= j < i ==> out@[#[trigger] qs@[j] as int] == (if slice@[qs@[j] as int] is Some {
                    slice@[qs@[j] as int]
                } else {
                    Some(c)
                }),
            forall|q: int|
                0 <= q < n && (forall|j: int| 0 <= j < i ==> qs@[j] != q as usize) ==> out@[q] == None::<usize>,
        decreases qs@.len() - i,
    {
        let q = qs[i];
        if let Some(o) = slice[q] {
            let p1 = match pauli_on_port(circ, com.node, i) {
                Some(p) => p,
                None => return None,
            };
            let other = &arena[o];
            let j = match other.port_of_qb(q) {
                Some(j) => j,
                None => return None,
            };
            let p2 = match pauli_on_port(circ, other.node, j) {
                Some(p) => p,
                None => return None,
            };
            if !p1.commutes_with(p2) {
                return None;
            }
            out.set(q, Some(o));
        } else {
            out.set(q, Some(c));
        }
        i = i + 1;
    }
    proof {
        assert forall|q: int| 0 <= q < n implies out@[q] == occupants(arena@, c, slice@)[q] by {
            if qs@.contains(q as usize) {
                let j = choose|j: int| 0 <= j < qs@.len() && qs@[j] == q as usize;
                assert(out@[qs@[j] as int] == (if slice@[qs@[j] as int] is Some {
                    slice@[qs@[j] as int]
                } else {
                    Some(c)
                }));
            } else {
                assert forall|j: int| 0 <= j < qs@.len() implies qs@[j] != q as usize by {
                    if qs@[j] == q as usize {
                        assert(qs@.contains(q as usize));
                    }
                }
            }
        }
        assert(out@ =~= occupants(arena@, c, slice@));
    }
    Some(out)
}

/// All the qubits `qs` are free in `slice`.
pub open spec fn all_free(slice: Seq<Option<usize>>, qs: Seq<usize>) -> bool {
    forall|i: int| 0 <= i < qs.len() ==> (#[trigger] slice[qs[i] as int]) is None
}

/// `prev` with the entries that `next` sets to another command than `c`
/// replaced.
///
/// Where a passed slice leaves one of the command's qubits free, the
/// command keeps the next command already found on that qubit in a later
/// slice: it moves before every command it commutes past. Resetting that
/// qubit to the command itself would leave the command after such an
/// operation on one qubit while moving it before an earlier one on another,
/// which can order operations in a cycle.
pub open spec fn merge(prev: Seq<Option<usize>>, next: Seq<Option<usize>>, c: usize) -> Seq<Option<usize>> {
    Seq::new(prev.len(), |q: int| if next[q] is Some && next[q] != Some(c) { next[q] } else { prev[q] })
}

/// Command `c` itself on each of its qubits.
pub open spec fn initial_nexts(arena: Seq<ComCommand>, c: usize, n: nat) -> Seq<Option<usize>> {
    let qs = arena[c as int].qubits@;
    Seq::new(n, |q: int| if qs.contains(q as usize) { Some(c) } else { None })
}

/// Scanning down from slice `idx`: an earlier slice where all of the
/// command's qubits are free is a candidate, recorded with the commands it
/// would then precede on each qubit; an occupied slice is passed only if
/// the command commutes through it, and slice zero never is.
pub open spec fn scan(
    ops: Seq<Op>,
    arena: Seq<ComCommand>,
    slices: Seq<Seq<Option<usize>>>,
    c: usize,
    idx: int,
    nexts: Seq<Option<usize>>,
    found: Option<(usize, Seq<Option<usize>>)>,
) -> Option<(usize, Seq<Option<usize>>)>
    decreases idx + 1,
{
    if idx < 0 {
        found
    } else if all_free(slices[idx], arena[c as int].qubits@) {
        scan(ops, arena, slices, c, idx - 1, nexts, Some((idx as usize, nexts)))
    } else if idx == 0 {
        found
    } else if commutes_through(ops, arena, c, slices[idx]) {
        scan(ops, arena, slices, c, idx - 1, merge(nexts, occupants(arena, c, slices[idx]), c), found)
    } else {
        found
    }
}

/// The earliest slice, at or before `start`, that command `c` can be moved
/// to, with the command it would precede on each of its qubits (itself
/// where it stays in place).
pub open spec fn available(
    ops: Seq<Op>,
    n_qubits: nat,
    arena: Seq<ComCommand>,
    slices: Seq<Seq<Option<usize>>>,
    start: int,
    c: usize,
) -> Option<(usize, Seq<Option<usize>>)> {
    scan(ops, arena, slices, c, start, initial_nexts(arena, c, n_qubits), None)
}

/// The contents of an optional slot and next-command map.
pub open spec fn found_view(f: Option<(usize, Vec<Option<usize>>)>) -> Option<(usize, Seq<Option<usize>>)> {
    match f {
        Some((i, v)) => Some((i, v@)),
        None => None,
    }
}

/// Whether the qubits `qs` are all free in `slice`.
fn is_free(slice: &Vec<Option<usize>>, qs: &Vec<usize>) -> (r: bool)
    requires
        forall|i: int| 0 <= i < qs@.len() ==> qs@[i] < slice@.len(),
    ensures
        r == all_free(slice@, qs@),
{
    let mut i: usize = 0;
    while i < qs.len()
        invariant
            i <= qs@.len(),
            forall|j: int| 0 <= j < qs@.len() ==> qs@[j] < slice@.len(),
            forall|j: int| 0 <= j < i ==> (#[trigger] slice@[qs@[j] as int]) is None,
        decreases qs@.len() - i,
    {
        if slice[qs[i]].is_some() {
            return false;
        }
        i = i + 1;
    }
    true
}

/// Starting from slice `starting_index`, work back along the slices to the
/// earliest one that can take command `c`, if any, with the command `c`
/// will precede on each of its qubits: the occupant of the earliest slice
/// it passed that holds one there, or `c` itself where it passed none (see
/// `merge` for why a free slot does not reset that choice).
pub fn available_slice(
    circ: &Circuit,
    arena: &Vec<ComCommand>,
    slices: &Vec<Vec<Option<usize>>>,
    starting_index: usize,
    c: usize,
) -> (r: Option<(usize, Vec<Option<usize>>)>)
    requires
        circ@.wf(),
        c < arena@.len(),
        arena_fits(circ@, arena@),
        starting_index < slices@.len(),
        slices_ok(slices_view(slices@), circ@.n_qubits, arena@.len()),
    ensures
        found_view(r) == available(
            circ@.ops,
            circ@.n_qubits,
            arena@,
            slices_view(slices@),
            starting_index as int,
            c,
        ),
{
    let ghost sv = slices_view(slices@);
    let ghost target = available(circ@.ops, circ@.n_qubits, arena@, sv, starting_index as int, c);
    let n = circ.n_qubits();
    let qs = &arena[c].qubits;
    proof {
        assert(circ@.node_wf(arena@[c as int].node as int));
    }
    let mut nexts: Vec<Option<usize>> = Vec::new();
    let mut x: usize = 0;
    while x < n
        invariant
            x <= n,
            forall|j: int| 0 <= j < qs@.len() ==> qs@[j] < n,
            nexts@.len() == x,
            forall|y: int| 0 <= y < x ==> nexts@[y] == None::<usize>,
        decreases n - x,
    {
        nexts.push(None);
        x = x + 1;
    }
    let mut j: usize = 0;
    while j < qs.len()
        invariant
            j <= qs@.len(),
            forall|i: int| 0 <= i < qs@.len() ==> qs@[i] < n,
            nexts@.len() == n,
            forall|i: int| 0 <= i < j ==> nexts@[#[trigger] qs@[i] as int] == Some(c),
            forall|y: int|
                0 <= y < n && (forall|i: int| 0 <= i < j ==> qs@[i] != y as usize) ==> nexts@[y] == None::<usize>,
        decreases qs@.len() - j,
    {
        nexts.set(qs[j], Some(c));
        j = j + 1;
    }
    proof {
        assert forall|y: int| 0 <= y < n implies nexts@[y] == initial_nexts(arena@, c, n as nat)[y] by {
            if qs@.contains(y as usize) {
                let i = choose|i: int| 0 <= i < qs@.len() && qs@[i] == y as usize;
                assert(nexts@[qs@[i] as int] == Some(c));
            } else {
                assert forall|i: int| 0 <= i < qs@.len() implies qs@[i] != y as usize by {
                    if qs@[i] == y as usize {
                        assert(qs@.contains(y as usize));
                    }
                }
            }
        }
        assert(nexts@ =~= initial_nexts(arena@, c, n as nat));
    }
    let mut available: Option<(usize, Vec<Option<usize>>)> = None;
    let total = slices.len();
    let mut s: usize = starting_index + 1;
    while s > 0
        invariant
            circ@.wf(),
            c < arena@.len(),
            arena_fits(circ@, arena@),
            n == circ@.n_qubits,
            qs@ == arena@[c as int].qubits@,
            forall|i: int| 0 <= i < qs@.len() ==> qs@[i] < n,
            sv == slices_view(slices@),
            slices_ok(sv, n as nat, arena@.len()),
            s <= starting_index + 1,
            starting_index < slices@.len(),
            nexts@.len() == n,
            scan(circ@.ops, arena@, sv, c, s - 1, nexts@, found_view(available)) == target,
        ensures
            found_view(available) == target,
        decreases s,
    {
        let si = s - 1;
        proof {
            assert(sv[si as int] == slices@[si as int]@);
            assert(sv[si as int].len() == n);
        }
        if is_free(&slices[si], qs) {
            available = Some((si, nexts.clone()));
        } else if si == 0 {
            break;
        } else {
            match commutes_at_slice(circ, arena, c, &slices[si]) {
                Some(occ) => {
                    let mut y: usize = 0;
                    let ghost before = nexts@;
                    while y < n
                        invariant
                            y <= n,
                            occ@.len() == n,
                            before.len() == n,
                            nexts@.len() == n,
                            forall|z: int| 0 <= z < y ==> nexts@[z] == merge(before, occ@, c)[z],
                            forall|z: int| y <= z < n ==> nexts@[z] == before[z],
                        decreases n - y,
                    {
                        if occ[y].is_some() && occ[y] != Some(c) {
                            nexts.set(y, occ[y]);
                        }
                        y = y + 1;
                    }
                    proof {
                        assert(nexts@ =~= merge(before, occ@, c));
                    }
                },
                None => {
                    break;
                },
            }
        }
        s = si;
    }
    available
}

/// The result of a scan names a slice, when the slot it started from and
/// the one it carries do.
pub proof fn lemma_scan_bound(
    ops: Seq<Op>,
    arena: Seq<ComCommand>,
    slices: Seq<Seq<Option<usize>>>,
    c: usize,
    idx: int,
    nexts: Seq<Option<usize>>,
    found: Option<(usize, Seq<Option<usize>>)>,
)
    requires
        idx < slices.len(),
        found matches Some(f) ==> f.0 < slices.len(),
    ensures
        scan(ops, arena, slices, c, idx, nexts, found) matches Some(f) ==> f.0 < slices.len(),
    decreases idx + 1,
{
    if idx >= 0 {
        if all_free(slices[idx], arena[c as int].qubits@) {
            lemma_scan_bound(ops, arena, slices, c, idx - 1, nexts, Some((idx as usize, nexts)));
        } else if idx != 0 && commutes_through(ops, arena, c, slices[idx]) {
            lemma_scan_bound(
                ops,
                arena,
                slices,
                c,
                idx - 1,
                merge(nexts, occupants(arena, c, slices[idx]), c),
                found,
            );
        }
    }
}

/// `m` with the link at incoming port `p` of node `n` removed, if any.
pub open spec fn unlink_in(m: CircuitModel, n: int, p: int) -> CircuitModel {
    match m.ins[n][p] {
        Some(s) => m.without_link(s.node as int, s.port as int, n, p),
        None => m,
    }
}

/// `m` with the link at outgoing port `p` of node `n` removed, if any.
pub open spec fn unlink_out(m: CircuitModel, n: int, p: int) -> CircuitModel {
    match m.outs[n][p] {
        Some(d) => m.without_link(n, p, d.node as int, d.port as int),
        None => m,
    }
}

/// `m` with the link `s -> d` added, or the error `connect` reports when
/// the link cannot be made.
pub open spec fn link_or(m: CircuitModel, s: PortRef, d: PortRef) -> Result<CircuitModel, PullForwardError> {
    if m.can_connect(s.node as int, s.port as int, d.node as int, d.port as int) {
        Ok(m.with_link(s.node as int, s.port as int, d.node as int, d.port as int))
    } else {
        Err(PullForwardError::CircuitError(connect_error(m, s.node, s.port, d.node, d.port)))
    }
}

/// Moving command `c` along its `i`-th qubit `q`: when its next command
/// `k` there is not `c` itself, `c` is cut out of the wire (its old
/// neighbours are linked to each other) and spliced in just before `k`.
/// Fails with `MissingLink(q)` when a port of `c` on `q`, or `k`'s port on
/// `q`, is free; with `NoCommandForQb(q)` when no next command is known for
/// `q`; with `NoQbInCommand(q)` when `k` does not act on `q`; and with
/// the relinking error when a link cannot be made.
pub open spec fn pull_step(
    m: CircuitModel,
    arena: Seq<ComCommand>,
    c: usize,
    nexts: Seq<Option<usize>>,
    i: int,
) -> Result<CircuitModel, PullForwardError> {
    let cn = arena[c as int].node;
    let q = arena[c as int].qubits@[i];
    match (m.ins[cn as int][i], m.outs[cn as int][i]) {
        (Some(src), Some(dst)) => if q >= nexts.len() {
            Err(PullForwardError::NoCommandForQb(q))
        } else {
            match nexts[q as int] {
                None => Err(PullForwardError::NoCommandForQb(q)),
                Some(next) => if next >= arena.len() {
                    Err(PullForwardError::NoCommandForQb(q))
                } else if next == c {
                    Ok(m)
                } else {
                    match link_or(unlink_out(unlink_in(m, cn as int, i), cn as int, i), src, dst) {
                        Err(e) => Err(e),
                        Ok(m2) => {
                            let nn = arena[next as int].node;
                            match port_of(arena[next as int].qubits@, q) {
                                None => Err(PullForwardError::NoQbInCommand(q)),
                                Some(j) => match m2.ins[nn as int][j as int] {
                                    None => Err(PullForwardError::MissingLink(q)),
                                    Some(ns) => match link_or(
                                        unlink_in(m2, nn as int, j as int),
                                        ns,
                                        PortRef { node: cn, port: i as usize },
                                    ) {
                                        Err(e) => Err(e),
                                        Ok(m4) => link_or(
                                            m4,
                                            PortRef { node: cn, port: i as usize },
                                            PortRef { node: nn, port: j as usize },
                                        ),
                                    },
                                },
                            }
                        },
                    }
                },
            }
        },
        _ => Err(PullForwardError::MissingLink(q)),
    }
}

/// Moving command `c` along its first `k` qubits in turn; the first
/// failure is the result.
pub open spec fn pull_upto(
    m: CircuitModel,
    arena: Seq<ComCommand>,
    c: usize,
    nexts: Seq<Option<usize>>,
    k: nat,
) -> Result<CircuitModel, PullForwardError>
    decreases k,
{
    if k == 0 {
        Ok(m)
    } else {
        match pull_upto(m, arena, c, nexts, (k - 1) as nat) {
            Ok(m1) => pull_step(m1, arena, c, nexts, k - 1),
            Err(e) => Err(e),
        }
    }
}

/// Once a move fails, moving along more qubits fails with the same error.
pub proof fn lemma_pull_upto_err(
    m: CircuitModel,
    arena: Seq<ComCommand>,
    c: usize,
    nexts: Seq<Option<usize>>,
    k: nat,
    l: nat,
    e: PullForwardError,
)
    requires
        k <= l,
        pull_upto(m, arena, c, nexts, k) == Err::<CircuitModel, PullForwardError>(e),
    ensures
        pull_upto(m, arena, c, nexts, l) == Err::<CircuitModel, PullForwardError>(e),
    decreases l - k,
{
    if k < l {
        lemma_pull_upto_err(m, arena, c, nexts, k, (l - 1) as nat, e);
    }
}

/// Error from moving a command forward.
#[derive(Clone, Copy, Debug, PartialEq, Eq, Structural)]
pub enum PullForwardError {
    /// Relinking the circuit failed.
    CircuitError(CircuitMutError),
    /// The command has no port for the qubit.
    NoQbInCommand(usize),
    /// No following command is known for the qubit.
    NoCommandForQb(usize),
    /// A port of the command on the qubit is not linked.
    MissingLink(usize),
}

/// Moving `command` to just before, on each of its qubits, the command
/// that `new_nexts` gives for that qubit.
pub struct PullForward {
    pub command: usize,
    pub new_nexts: Vec<Option<usize>>,
}

impl PullForward {
    /// Relink the circuit so that the command comes just before its new
    /// next command on each qubit where that is another command; the
    /// command's old neighbours on that qubit are linked to each other.
    ///
    /// Nodes, operations and qubits are left as they are, so the circuit
    /// stays well formed whatever happens.
    pub fn apply(self, circ: &mut Circuit, arena: &Vec<ComCommand>) -> (r: Result<(), PullForwardError>)
        requires
            old(circ)@.wf(),
            arena_fits(old(circ)@, arena@),
            self.command < arena@.len(),
        ensures
            final(circ)@.wf(),
            final(circ)@.same_nodes(old(circ)@),
            r is Ok ==> pull_upto(
                old(circ)@,
                arena@,
                self.command,
                self.new_nexts@,
                arena@[self.command as int].qubits@.len(),
            ) == Ok::<CircuitModel, PullForwardError>(final(circ)@),
            r matches Err(e) ==> pull_upto(
                old(circ)@,
                arena@,
                self.command,
                self.new_nexts@,
                arena@[self.command as int].qubits@.len(),
            ) == Err::<CircuitModel, PullForwardError>(e),
    {
        let ghost orig = circ@;
        let c = self.command;
        let cn = arena[c].node;
        let qs = &arena[c].qubits;
        let ghost nexts = self.new_nexts@;
        let ghost len = qs@.len();
        proof {
            assert(circ@.node_wf(cn as int));
        }
        let mut i: usize = 0;
        while i < qs.len()
            invariant
                circ@.wf(),
                orig == old(circ)@,
                circ@.same_nodes(orig),
                arena_fits(orig, arena@),
                c < arena@.len(),
                cn == arena@[c as int].node,
                qs@ == arena@[c as int].qubits@,
                len == qs@.len(),
                c == self.command,
                nexts == self.new_nexts@,
                orig.node_wf(cn as int),
                qs@ == orig.qubits[cn as int],
                i <= qs@.len(),
                pull_upto(orig, arena@, c, nexts, i as nat) == Ok::<CircuitModel, PullForwardError>(circ@),
            decreases qs@.len() - i,
        {
            proof {
                assert(circ@.node_wf(cn as int));
            }
            let ghost mi = circ@;
            let q = qs[i];
            let src = match circ.linked_in(cn, i) {
                Some(p) => p,
                None => {
                    proof {
                        assert(pull_step(mi, arena@, c, nexts, i as int) == Err::<CircuitModel, PullForwardError>(PullForwardError::MissingLink(q)));
                        assert(pull_upto(orig, arena@, c, nexts, (i + 1) as nat) == Err::<CircuitModel, PullForwardError>(PullForwardError::MissingLink(q)));
                        lemma_pull_upto_err(orig, arena@, c, nexts, (i + 1) as nat, len, PullForwardError::MissingLink(q));
                    }
                    return Err(PullForwardError::MissingLink(q));
                },
            };
            let dst = match circ.linked_out(cn, i) {
                Some(p) => p,
                None => {
                    proof {
                        assert(pull_step(mi, arena@, c, nexts, i as int) == Err::<CircuitModel, PullForwardError>(PullForwardError::MissingLink(q)));
                        assert(pull_upto(orig, arena@, c, nexts, (i + 1) as nat) == Err::<CircuitModel, PullForwardError>(PullForwardError::MissingLink(q)));
                        lemma_pull_upto_err(orig, arena@, c, nexts, (i + 1) as nat, len, PullForwardError::MissingLink(q));
                    }
                    return Err(PullForwardError::MissingLink(q));
                },
            };
            if q >= self.new_nexts.len() {
                proof {
                    assert(pull_step(mi, arena@, c, nexts, i as int) == Err::<CircuitModel, PullForwardError>(PullForwardError::NoCommandForQb(q)));
                    assert(pull_upto(orig, arena@, c, nexts, (i + 1) as nat) == Err::<CircuitModel, PullForwardError>(PullForwardError::NoCommandForQb(q)));
                    lemma_pull_upto_err(orig, arena@, c, nexts, (i + 1) as nat, len, PullForwardError::NoCommandForQb(q));
                }
                return Err(PullForwardError::NoCommandForQb(q));
            }
            let next = match self.new_nexts[q] {
                Some(k) => k,
                None => {
                    proof {
                        assert(pull_step(mi, arena@, c, nexts, i as int) == Err::<CircuitModel, PullForwardError>(PullForwardError::NoCommandForQb(q)));
                        assert(pull_upto(orig, arena@, c, nexts, (i + 1) as nat) == Err::<CircuitModel, PullForwardError>(PullForwardError::NoCommandForQb(q)));
                        lemma_pull_upto_err(orig, arena@, c, nexts, (i + 1) as nat, len, PullForwardError::NoCommandForQb(q));
                    }
                    return Err(PullForwardError::NoCommandForQb(q));
                },
            };
            if next >= arena.len() {
                proof {
                    assert(pull_step(mi, arena@, c, nexts, i as int) == Err::<CircuitModel, PullForwardError>(PullForwardError::NoCommandForQb(q)));
                    assert(pull_upto(orig, arena@, c, nexts, (i + 1) as nat) == Err::<CircuitModel, PullForwardError>(PullForwardError::NoCommandForQb(q)));
                    lemma_pull_upto_err(orig, arena@, c, nexts, (i + 1) as nat, len, PullForwardError::NoCommandForQb(q));
                }
                return Err(PullForwardError::NoCommandForQb(q));
            }
            if next != c {
                circ.disconnect_in(cn, i);
                proof {
                    assert(circ@ == unlink_in(mi, cn as int, i as int));
                    assert(circ@.node_wf(cn as int));
                }
                let ghost ma = circ@;
                circ.disconnect_out(cn, i);
                proof {
                    assert(circ@ == unlink_out(ma, cn as int, i as int));
                }
                if let Err(e) = circ.connect(src.node, src.port, dst.node, dst.port) {
                    proof {
                        assert(pull_step(mi, arena@, c, nexts, i as int) == Err::<CircuitModel, PullForwardError>(PullForwardError::CircuitError(e)));
                        assert(pull_upto(orig, arena@, c, nexts, (i + 1) as nat) == Err::<CircuitModel, PullForwardError>(PullForwardError::CircuitError(e)));
                        lemma_pull_upto_err(orig, arena@, c, nexts, (i + 1) as nat, len, PullForwardError::CircuitError(e));
                    }
                    return Err(PullForwardError::CircuitError(e));
                }
                let ghost m2 = circ@;
                let nnode = arena[next].node;
                let j = match arena[next].port_of_qb(q) {
                    Some(j) => j,
                    None => {
                        proof {
                            assert(pull_step(mi, arena@, c, nexts, i as int) == Err::<CircuitModel, PullForwardError>(PullForwardError::NoQbInCommand(q)));
                        assert(pull_upto(orig, arena@, c, nexts, (i + 1) as nat) == Err::<CircuitModel, PullForwardError>(PullForwardError::NoQbInCommand(q)));
                        lemma_pull_upto_err(orig, arena@, c, nexts, (i + 1) as nat, len, PullForwardError::NoQbInCommand(q));
                        }
                        return Err(PullForwardError::NoQbInCommand(q));
                    },
                };
                proof {
                    lemma_port_of(arena@[next as int].qubits@, q);
                    assert(circ@.node_wf(nnode as int));
                }
                let new_src = match circ.linked_in(nnode, j) {
                    Some(p) => p,
                    None => {
                        proof {
                            assert(pull_step(mi, arena@, c, nexts, i as int) == Err::<CircuitModel, PullForwardError>(PullForwardError::MissingLink(q)));
                        assert(pull_upto(orig, arena@, c, nexts, (i + 1) as nat) == Err::<CircuitModel, PullForwardError>(PullForwardError::MissingLink(q)));
                        lemma_pull_upto_err(orig, arena@, c, nexts, (i + 1) as nat, len, PullForwardError::MissingLink(q));
                        }
                        return Err(PullForwardError::MissingLink(q));
                    },
                };
                circ.disconnect_in(nnode, j);
                proof {
                    assert(circ@ == unlink_in(m2, nnode as int, j as int));
                }
                if let Err(e) = circ.connect(new_src.node, new_src.port, cn, i) {
                    proof {
                        assert(pull_step(mi, arena@, c, nexts, i as int) == Err::<CircuitModel, PullForwardError>(PullForwardError::CircuitError(e)));
                        assert(pull_upto(orig, arena@, c, nexts, (i + 1) as nat) == Err::<CircuitModel, PullForwardError>(PullForwardError::CircuitError(e)));
                        lemma_pull_upto_err(orig, arena@, c, nexts, (i + 1) as nat, len, PullForwardError::CircuitError(e));
                    }
                    return Err(PullForwardError::CircuitError(e));
                }
                if let Err(e) = circ.connect(cn, i, nnode, j) {
                    proof {
                        assert(pull_step(mi, arena@, c, nexts, i as int) == Err::<CircuitModel, PullForwardError>(PullForwardError::CircuitError(e)));
                        assert(pull_upto(orig, arena@, c, nexts, (i + 1) as nat) == Err::<CircuitModel, PullForwardError>(PullForwardError::CircuitError(e)));
                        lemma_pull_upto_err(orig, arena@, c, nexts, (i + 1) as nat, len, PullForwardError::CircuitError(e));
                    }
                    return Err(PullForwardError::CircuitError(e));
                }
            }
            proof {
                assert(pull_step(mi, arena@, c, nexts, i as int) == Ok::<CircuitModel, PullForwardError>(circ@));
                assert(pull_upto(orig, arena@, c, nexts, (i + 1) as nat) == Ok::<CircuitModel, PullForwardError>(circ@));
            }
            i = i + 1;
        }
        Ok(())
    }
}

/// The commands occupying a slice, each once, in order of first slot.
pub open spec fn slot_commands(slice: Seq<Option<usize>>) -> Seq<usize>
    decreases slice.len(),
{
    if slice.len() == 0 {
        seq![]
    } else {
        let rest = slot_commands(slice.drop_last());
        match slice.last() {
            Some(c) => if rest.contains(c) {
                rest
            } else {
                rest.push(c)
            },
            None => rest,
        }
    }
}

/// The commands occupying a slice, each once, in order of first slot.
pub fn unique_commands(slice: &Vec<Option<usize>>) -> (r: Vec<usize>)
    ensures
        r@ == slot_commands(slice@),
{
    let mut r: Vec<usize> = Vec::new();
    let mut i: usize = 0;
    while i < slice.len()
        invariant
            i <= slice@.len(),
            r@ == slot_commands(slice@.take(i as int)),
        decreases slice@.len() - i,
    {
        proof {
            assert(slice@.take(i + 1).drop_last() =~= slice@.take(i as int));
        }
        if let Some(c) = slice[i] {
            let mut seen = false;
            let mut j: usize = 0;
            while j < r.len()
                invariant
                    j <= r@.len(),
                    seen == r@.take(j as int).contains(c),
                decreases r@.len() - j,
            {
                if r[j] == c {
                    seen = true;
                }
                proof {
                    let t0 = r@.take(j as int);
                    let t1 = r@.take(j + 1);
                    if t1.contains(c) {
                        let k = choose|k: int| 0 <= k < t1.len() && t1[k] == c;
                        if k < j {
                            assert(t0[k] == c);
                        }
                    }
                    if t0.contains(c) {
                        let k = choose|k: int| 0 <= k < t0.len() && t0[k] == c;
                        assert(t1[k] == c);
                    }
                    if r@[j as int] == c {
                        assert(t1[j as int] == c);
                    }
                }
                j = j + 1;
            }
            proof {
                assert(r@.take(r@.len() as int) =~= r@);
            }
            if !seen {
                r.push(c);
            }
        }
        i = i + 1;
    }
    proof {
        assert(slice@.take(slice@.len() as int) =~= slice@);
    }
    r
}

/// The commands of a slice are among those in its slots.
pub proof fn lemma_slot_commands_bound(slice: Seq<Option<usize>>, b: nat)
    requires
        forall|q: int| 0 <= q < slice.len() ==> (#[trigger] slice[q] matches Some(k) ==> k < b),
    ensures
        forall|i: int| 0 <= i < slot_commands(slice).len() ==> slot_commands(slice)[i] < b,
    decreases slice.len(),
{
    if slice.len() > 0 {
        let init = slice.drop_last();
        assert forall|q: int| 0 <= q < init.len() implies (#[trigger] init[q] matches Some(k) ==> k < b) by {
            assert(init[q] == slice[q]);
        }
        lemma_slot_commands_bound(init, b);
        assert(slice[slice.len() - 1] == slice.last());
        let rest = slot_commands(init);
        if let Some(c) = slice.last() {
            assert(c < b);
            if !rest.contains(c) {
                assert forall|i: int| 0 <= i < rest.push(c).len() implies rest.push(c)[i] < b by {
                    if i < rest.len() {
                        assert(rest.push(c)[i] == rest[i]);
                    }
                }
            }
        }
    }
}

/// The slices with the slots of the qubits `qs` moved from slice `from` to
/// slice `to`.
pub open spec fn move_slots(
    slices: Seq<Seq<Option<usize>>>,
    from: int,
    to: int,
    qs: Seq<usize>,
) -> Seq<Seq<Option<usize>>> {
    let emptied = slices.update(
        from,
        Seq::new(slices[from].len(), |q: int| if qs.contains(q as usize) { None } else { slices[from][q] }),
    );
    emptied.update(
        to,
        Seq::new(
            slices[to].len(),
            |q: int| if qs.contains(q as usize) { slices[from][q] } else { emptied[to][q] },
        ),
    )
}

/// The greedy pass from the commands `pending` of slice `si` on, applied
/// to the circuit `m`: each command, slice by slice, goes to the earliest
/// slice available to it (the later slices see that move) and is pulled
/// forward in the circuit. Gives the number of commands moved and the
/// final circuit, or nothing when a pull fails.
pub open spec fn greedy_result(
    ops: Seq<Op>,
    n_qubits: nat,
    arena: Seq<ComCommand>,
    slices: Seq<Seq<Option<usize>>>,
    si: int,
    pending: Seq<usize>,
    m: CircuitModel,
) -> Option<(nat, CircuitModel)>
    decreases slices.len() - si, pending.len(),
{
    if si < 0 || si >= slices.len() {
        Some((0, m))
    } else if pending.len() == 0 {
        if si + 1 < slices.len() {
            greedy_result(ops, n_qubits, arena, slices, si + 1, slot_commands(slices[si + 1]), m)
        } else {
            Some((0, m))
        }
    } else {
        let c = pending[0];
        match available(ops, n_qubits, arena, slices, si, c) {
            Some((dest, nexts)) if (dest as int) < si => match pull_upto(
                m,
                arena,
                c,
                nexts,
                arena[c as int].qubits@.len(),
            ) {
                Ok(m2) => lift(
                    1,
                    greedy_result(
                        ops,
                        n_qubits,
                        arena,
                        move_slots(slices, si, dest as int, arena[c as int].qubits@),
                        si,
                        pending.drop_first(),
                        m2,
                    ),
                ),
                Err(_) => None,
            },
            _ => greedy_result(ops, n_qubits, arena, slices, si, pending.drop_first(), m),
        }
    }
}

/// A greedy pass that moves nothing leaves the circuit as it was.
pub proof fn lemma_greedy_no_move(
    ops: Seq<Op>,
    n_qubits: nat,
    arena: Seq<ComCommand>,
    slices: Seq<Seq<Option<usize>>>,
    si: int,
    pending: Seq<usize>,
    m: CircuitModel,
)
    ensures
        greedy_result(ops, n_qubits, arena, slices, si, pending, m) matches Some((k, m2)) ==> (k == 0 ==> m2
            == m),
    decreases slices.len() - si, pending.len(),
{
    if si < 0 || si >= slices.len() {
    } else if pending.len() == 0 {
        if si + 1 < slices.len() {
            lemma_greedy_no_move(ops, n_qubits, arena, slices, si + 1, slot_commands(slices[si + 1]), m);
        }
    } else {
        let c = pending[0];
        match available(ops, n_qubits, arena, slices, si, c) {
            Some((dest, nexts)) if (dest as int) < si => {},
            _ => {
                lemma_greedy_no_move(ops, n_qubits, arena, slices, si, pending.drop_first(), m);
            },
        }
    }
}

/// A count of moves and a circuit with `k` more moves.
pub open spec fn lift(k: nat, o: Option<(nat, CircuitModel)>) -> Option<(nat, CircuitModel)> {
    match o {
        Some((j, m)) => Some((j + k, m)),
        None => None,
    }
}

/// The greedy pass over a whole layout of the circuit `m`.
pub open spec fn greedy_outcome(
    m: CircuitModel,
    arena: Seq<ComCommand>,
    slices: Seq<Seq<Option<usize>>>,
) -> Option<(nat, CircuitModel)> {
    if slices.len() == 0 {
        Some((0, m))
    } else {
        greedy_result(m.ops, m.n_qubits, arena, slices, 0, slot_commands(slices[0]), m)
    }
}

/// Move the slots of the qubits `qs` from slice `from` to slice `to`.
fn move_command_slots(slices: &mut Vec<Vec<Option<usize>>>, from: usize, to: usize, qs: &Vec<usize>)
    requires
        to < from < old(slices)@.len(),
        forall|i: int| 0 <= i < qs@.len() ==> qs@[i] < old(slices)@[from as int]@.len(),
        old(slices)@[from as int]@.len() == old(slices)@[to as int]@.len(),
        forall|a: int, b: int| 0 <= a < b < qs@.len() ==> qs@[a] != qs@[b],
    ensures
        slices_view(final(slices)@) == move_slots(slices_view(old(slices)@), from as int, to as int, qs@),
{
    let ghost sv0 = slices_view(slices@);
    let ghost n = sv0[from as int].len();
    let width = slices[from].len();
    let mut j: usize = 0;
    while j < qs.len()
        invariant
            to < from < slices@.len(),
            n == width,
            forall|a: int, b: int| 0 <= a < b < qs@.len() ==> qs@[a] != qs@[b],
            slices@.len() == sv0.len(),
            n == sv0[from as int].len(),
            n == sv0[to as int].len(),
            forall|i: int| 0 <= i < qs@.len() ==> qs@[i] < n,
            j <= qs@.len(),
            forall|r: int| 0 <= r < sv0.len() && r != from && r != to ==> slices@[r]@ == sv0[r],
            slices@[from as int]@.len() == n,
            slices@[to as int]@.len() == n,
            forall|k: int| 0 <= k < j ==> slices@[from as int]@[#[trigger] qs@[k] as int] == None::<usize>,
            forall|k: int| 0 <= k < j ==> slices@[to as int]@[#[trigger] qs@[k] as int] == sv0[from as int][qs@[k] as int],
            forall|q: int|
                0 <= q < n && (forall|k: int| 0 <= k < j ==> qs@[k] != q as usize) ==> slices@[from as int]@[q]
                    == sv0[from as int][q] && slices@[to as int]@[q] == sv0[to as int][q],
        decreases qs@.len() - j,
    {
        let q = qs[j];
        let com = slices[from][q];
        slices[from].set(q, None);
        slices[to].set(q, com);
        j = j + 1;
    }
    proof {
        let target = move_slots(sv0, from as int, to as int, qs@);
        assert forall|q: int| 0 <= q < n implies slices@[from as int]@[q] == target[from as int][q]
            && slices@[to as int]@[q] == target[to as int][q] by {
            if qs@.contains(q as usize) {
                let k = choose|k: int| 0 <= k < qs@.len() && qs@[k] == q as usize;
                assert(slices@[from as int]@[qs@[k] as int] == None::<usize>);
                assert(slices@[to as int]@[qs@[k] as int] == sv0[from as int][qs@[k] as int]);
            } else {
                assert forall|k: int| 0 <= k < qs@.len() implies qs@[k] != q as usize by {
                    if qs@[k] == q as usize {
                        assert(qs@.contains(q as usize));
                    }
                }
            }
        }
        assert(slices@[from as int]@ =~= target[from as int]);
        assert(slices@[to as int]@ =~= target[to as int]);
        assert(slices_view(slices@) =~= target);
    }
}

/// Pass which greedily commutes operations forwards in order to reduce
/// depth: returns how many operations were moved, saturating at the
/// largest `u32`.
///
/// Only links change: nodes, operations and qubits stay as they are.
pub fn apply_greedy_commutation(circ: &mut Circuit) -> (r: Result<u32, PullForwardError>)
    requires
        old(circ)@.wf(),
    ensures
        final(circ)@.wf(),
        final(circ)@.same_nodes(old(circ)@),
        exists|arena: Seq<ComCommand>, slices: Seq<Seq<Option<usize>>>|
            #[trigger] is_slice_layout(old(circ)@, arena, slices) && {
                let out = greedy_outcome(old(circ)@, arena, slices);
                &&& (r is Ok <==> out is Some)
                &&& r matches Ok(k) ==> out.unwrap().1 == final(circ)@ && k as nat == vstd::math::min(
                    out.unwrap().0 as int,
                    u32::MAX as int,
                )
            },
        r == Ok::<u32, PullForwardError>(0) ==> final(circ)@ == old(circ)@,
{
    let ghost orig = circ@;
    let (arena, mut slices) = load_slices(circ);
    let ghost sv0 = slices_view(slices@);
    let ghost ops = orig.ops;
    let ghost nq = orig.n_qubits;
    let ghost target = greedy_outcome(orig, arena@, sv0);
    proof {
        assert forall|k: int| 0 <= k < arena@.len() implies {
            &&& (#[trigger] arena@[k]).node < circ@.n_nodes()
            &&& arena@[k].qubits@ == circ@.qubits[arena@[k].node as int]
            &&& circ@.node_wf(arena@[k].node as int)
        } by {
            assert(circ@.is_gate_node(arena@[k].node as int));
        }
    }
    let n_slices = slices.len();
    let mut count: u32 = 0;
    let ghost mut acc: nat = 0;
    let mut si: usize = 0;
    while si < n_slices
        invariant
            orig == old(circ)@,
            ops == orig.ops,
            nq == orig.n_qubits,
            circ@.wf(),
            circ@.same_nodes(orig),
            is_slice_layout(orig, arena@, sv0),
            target == greedy_outcome(orig, arena@, sv0),
            arena_fits(circ@, arena@),
            slices@.len() == n_slices,
            slices_ok(slices_view(slices@), nq, arena@.len()),
            si <= n_slices,
            si < n_slices ==> lift(acc, greedy_result(ops, nq, arena@, slices_view(slices@), si as int, slot_commands(slices_view(slices@)[si as int]), circ@)) == target,
            si == n_slices ==> target == Some((acc, circ@)),
            si == 0 ==> slices_view(slices@) == sv0,
            count as nat == vstd::math::min(acc as int, u32::MAX as int),
        decreases n_slices - si,
    {
        let cmds = unique_commands(&slices[si]);
        proof {
            assert(slices_view(slices@)[si as int] == slices@[si as int]@);
            assert(cmds@.skip(0) =~= cmds@);
            lemma_slot_commands_bound(slices@[si as int]@, arena@.len());
        }
        let mut t: usize = 0;
        while t < cmds.len()
            invariant
                orig == old(circ)@,
                ops == orig.ops,
                nq == orig.n_qubits,
                circ@.wf(),
                circ@.same_nodes(orig),
                arena_fits(circ@, arena@),
                slices@.len() == n_slices,
                slices_ok(slices_view(slices@), nq, arena@.len()),
                si < n_slices,
                t <= cmds@.len(),
                forall|x: int| 0 <= x < cmds@.len() ==> cmds@[x] < arena@.len(),
                target == greedy_outcome(orig, arena@, sv0),
                is_slice_layout(orig, arena@, sv0),
                lift(acc, greedy_result(ops, nq, arena@, slices_view(slices@), si as int, cmds@.skip(t as int), circ@)) == target,
                count as nat == vstd::math::min(acc as int, u32::MAX as int),
            decreases cmds@.len() - t,
        {
            let c = cmds[t];
            let ghost sv = slices_view(slices@);
            proof {
                assert(cmds@.skip(t as int)[0] == c);
                assert(cmds@.skip(t as int).drop_first() =~= cmds@.skip(t + 1));
            }
            let found = available_slice(circ, &arena, &slices, si, c);
            proof {
                lemma_scan_bound(ops, arena@, sv, c, si as int, initial_nexts(arena@, c, nq), None);
            }
            if let Some((destination, new_nexts)) = found {
                if destination < si {
                    let qs = &arena[c].qubits;
                    proof {
                        assert(circ@.node_wf(arena@[c as int].node as int));
                        assert(sv[si as int].len() == nq);
                        assert(sv[destination as int].len() == nq);
                    }
                    move_command_slots(&mut slices, si, destination, qs);
                    proof {
                        let sv2 = slices_view(slices@);
                        assert(sv2.len() == sv.len());
                        assert(slices@.len() == sv2.len());
                        assert forall|x: int| 0 <= x < sv2.len() implies {
                            &&& (#[trigger] sv2[x]).len() == nq
                            &&& forall|q: int| 0 <= q < nq ==> (#[trigger] sv2[x][q] matches Some(k) ==> k < arena@.len())
                        } by {
                            assert(sv[x].len() == nq);
                            assert(sv[si as int].len() == nq);
                            assert forall|q: int| 0 <= q < nq implies (#[trigger] sv2[x][q] matches Some(k) ==> k < arena@.len()) by {
                                assert(sv[x][q] matches Some(k) ==> k < arena@.len());
                                assert(sv[si as int][q] matches Some(k) ==> k < arena@.len());
                            }
                        }
                    }
                    let ghost before = circ@;
                    let rewrite = PullForward { command: c, new_nexts };
                    match rewrite.apply(circ, &arena) {
                        Ok(()) => {},
                        Err(e) => {
                            proof {
                                assert(target is None);
                                assert(is_slice_layout(orig, arena@, sv0));
                                assert(greedy_outcome(orig, arena@, sv0) is None);
                            }
                            return Err(e);
                        },
                    }
                    proof {
                        assert forall|k: int| 0 <= k < arena@.len() implies {
                            &&& (#[trigger] arena@[k]).node < circ@.n_nodes()
                            &&& arena@[k].qubits@ == circ@.qubits[arena@[k].node as int]
                            &&& circ@.node_wf(arena@[k].node as int)
                        } by {
                            assert(arena@[k].node < orig.n_nodes());
                        }
                        acc = acc + 1;
                    }
                    count = count.saturating_add(1);
                }
            }
            t = t + 1;
        }
        proof {
            assert(cmds@.skip(cmds@.len() as int) =~= seq![]);
        }
        si = si + 1;
    }
    proof {
        if n_slices == 0 {
            assert(acc == 0);
        }
        assert(is_slice_layout(orig, arena@, sv0));
        if sv0.len() > 0 {
            lemma_greedy_no_move(ops, nq, arena@, sv0, 0, slot_commands(sv0[0]), orig);
        }
    }
    Ok(count)
}

/// The depth of the circuit: the number of slices of its layout.
pub fn depth(circ: &Circuit) -> (r: usize)
    requires
        circ@.wf(),
    ensures
        exists|arena: Seq<ComCommand>, slices: Seq<Seq<Option<usize>>>|
            is_slice_layout(circ@, arena, slices) && r == slices.len(),
{
    let (arena, slices) = load_slices(circ);
    slices.len()
}

} // verus!
