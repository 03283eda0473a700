//! The dataflow graph of a circuit: an arena of operation nodes whose ports
//! carry qubit wires, with an Input and an Output boundary node.
use vstd::prelude::*;

use crate::ops::{is_boundary, op_arity, Op};

verus! {

/// Index of the Input boundary node.
pub const INPUT: usize = 0;

/// Index of the Output boundary node.
pub const OUTPUT: usize = 1;

/// Number of phase units (eighths of a turn) in a full turn.
pub const PHASE_PERIOD: i64 = 8;

/// One port of one node: incoming or outgoing is given by where it is stored.
#[derive(Clone, Copy, Debug, PartialEq, Eq, Structural)]
pub struct PortRef {
    pub node: usize,
    pub port: usize,
}

/// A wire: an outgoing port linked to an incoming port.
#[derive(Clone, Copy, Debug, PartialEq, Eq, Structural)]
pub struct Edge {
    pub src: PortRef,
    pub dst: PortRef,
}

/// The direction of a port.
#[derive(Clone, Copy, Debug, PartialEq, Eq, Structural)]
pub enum Direction {
    Incoming,
    Outgoing,
}

/// Errors of graph mutation.
#[derive(Clone, Copy, Debug, PartialEq, Eq, Structural)]
pub enum CircuitMutError {
    /// A node index does not name a node of the circuit.
    InvalidNode(usize),
    /// A port offset is out of range for its node.
    InvalidPortOffset(usize),
    /// The wire to be deleted is not empty.
    DeleteNonEmptyWire(usize),
    /// A port to be linked is already linked.
    PortInUse(usize),
    /// The two ports carry different qubits.
    QubitMismatch(usize),
    /// The qubits given to a new operation are out of range, repeated, or
    /// not as many as the operation acts on.
    InvalidQubits,
}

/// The mathematical model of a circuit.
pub struct CircuitModel {
    pub n_qubits: nat,
    pub ops: Seq<Op>,
    /// The qubit carried by each port; port `i` in and port `i` out carry
    /// the same qubit.
    pub qubits: Seq<Seq<usize>>,
    /// For each node and incoming port, the outgoing port it is linked from.
    pub ins: Seq<Seq<Option<PortRef>>>,
    /// For each node and outgoing port, the incoming port it is linked to.
    pub outs: Seq<Seq<Option<PortRef>>>,
    pub live: Seq<bool>,
    /// Global phase, in eighths of a turn, in `0..8`.
    pub phase: int,
}

impl CircuitModel {
    pub open spec fn n_nodes(self) -> nat {
        self.ops.len()
    }

    pub open spec fn is_live(self, n: int) -> bool {
        0 <= n < self.n_nodes() && self.live[n]
    }

    /// A live node that is neither Input nor Output.
    pub open spec fn is_gate_node(self, n: int) -> bool {
        self.is_live(n) && n != INPUT && n != OUTPUT
    }

    pub open spec fn node_wf(self, n: int) -> bool {
        &&& self.qubits[n].len() <= usize::MAX
        &&& self.ins[n].len() == self.qubits[n].len()
        &&& self.outs[n].len() == self.qubits[n].len()
        &&& forall|p: int| 0 <= p < self.qubits[n].len() ==> self.qubits[n][p] < self.n_qubits
        &&& forall|p: int, q: int|
            0 <= p < q < self.qubits[n].len() ==> self.qubits[n][p] != self.qubits[n][q]
        &&& n != INPUT && n != OUTPUT ==> !is_boundary(self.ops[n])
        &&& n != INPUT && n != OUTPUT && self.live[n] ==> self.qubits[n].len() == op_arity(
            self.ops[n],
        )
        &&& n == INPUT || !self.live[n] ==> forall|p: int|
            0 <= p < self.ins[n].len() ==> self.ins[n][p] is None
        &&& n == OUTPUT || !self.live[n] ==> forall|p: int|
            0 <= p < self.outs[n].len() ==> self.outs[n][p] is None
    }

    /// The outgoing port `(n, p)` is linked to `(r.node, r.port)`, which links
    /// back, and both carry the same qubit.
    pub open spec fn out_link_ok(self, n: int, p: int) -> bool {
        self.outs[n][p] matches Some(r) ==> {
            &&& r.node < self.n_nodes()
            &&& r.port < self.ins[r.node as int].len()
            &&& self.ins[r.node as int][r.port as int] == Some(PortRef { node: n as usize, port: p as usize })
            &&& self.qubits[r.node as int][r.port as int] == self.qubits[n][p]
        }
    }

    pub open spec fn in_link_ok(self, n: int, p: int) -> bool {
        self.ins[n][p] matches Some(r) ==> {
            &&& r.node < self.n_nodes()
            &&& r.port < self.outs[r.node as int].len()
            &&& self.outs[r.node as int][r.port as int] == Some(PortRef { node: n as usize, port: p as usize })
            &&& self.qubits[r.node as int][r.port as int] == self.qubits[n][p]
        }
    }

    pub open spec fn wf(self) -> bool {
        &&& 2 <= self.n_nodes() <= usize::MAX
        &&& self.qubits.len() == self.n_nodes()
        &&& self.ins.len() == self.n_nodes()
        &&& self.outs.len() == self.n_nodes()
        &&& self.live.len() == self.n_nodes()
        &&& self.ops[INPUT as int] == Op::Input
        &&& self.ops[OUTPUT as int] == Op::Output
        &&& self.live[INPUT as int]
        &&& self.live[OUTPUT as int]
        &&& self.qubits[INPUT as int].len() == self.n_qubits
        &&& self.qubits[OUTPUT as int].len() == self.n_qubits
        &&& forall|q: int|
            0 <= q < self.n_qubits ==> self.qubits[INPUT as int][q] == q && self.qubits[OUTPUT as int][q] == q
        &&& 0 <= self.phase < PHASE_PERIOD
        &&& forall|n: int| 0 <= n < self.n_nodes() ==> #[trigger] self.node_wf(n)
        &&& forall|n: int, p: int|
            0 <= n < self.n_nodes() && 0 <= p < self.outs[n].len() ==> #[trigger] self.out_link_ok(n, p)
        &&& forall|n: int, p: int|
            0 <= n < self.n_nodes() && 0 <= p < self.ins[n].len() ==> #[trigger] self.in_link_ok(n, p)
    }

    /// The same nodes, operations, qubits and phase; only links may differ.
    pub open spec fn same_nodes(self, other: CircuitModel) -> bool {
        &&& self.n_qubits == other.n_qubits
        &&& self.ops == other.ops
        &&& self.qubits == other.qubits
        &&& self.live == other.live
        &&& self.phase == other.phase
    }

    /// Both ports exist on live nodes, are free, and carry the same qubit.
    pub open spec fn can_connect(self, src: int, sp: int, dst: int, dp: int) -> bool {
        &&& self.is_live(src)
        &&& self.is_live(dst)
        &&& src != OUTPUT
        &&& dst != INPUT
        &&& 0 <= sp < self.outs[src].len()
        &&& 0 <= dp < self.ins[dst].len()
        &&& self.outs[src][sp] is None
        &&& self.ins[dst][dp] is None
        &&& self.qubits[src][sp] == self.qubits[dst][dp]
    }

    /// The model with the link `(src, sp) -> (dst, dp)` added.
    pub open spec fn with_link(self, src: int, sp: int, dst: int, dp: int) -> CircuitModel {
        CircuitModel {
            outs: self.outs.update(
                src,
                self.outs[src].update(sp, Some(PortRef { node: dst as usize, port: dp as usize })),
            ),
            ins: self.ins.update(
                dst,
                self.ins[dst].update(dp, Some(PortRef { node: src as usize, port: sp as usize })),
            ),
            ..self
        }
    }

    /// The model with the link `(src, sp) -> (dst, dp)` removed.
    pub open spec fn without_link(self, src: int, sp: int, dst: int, dp: int) -> CircuitModel {
        CircuitModel {
            outs: self.outs.update(src, self.outs[src].update(sp, None)),
            ins: self.ins.update(dst, self.ins[dst].update(dp, None)),
            ..self
        }
    }
}

/// The qubits given to an operation are in range, pairwise distinct, and as
/// many as the operation acts on.
pub open spec fn valid_qubits(n_qubits: nat, op: Op, qs: Seq<usize>) -> bool {
    &&& !is_boundary(op)
    &&& qs.len() == op_arity(op)
    &&& forall|i: int| 0 <= i < qs.len() ==> qs[i] < n_qubits
    &&& forall|i: int, j: int| 0 <= i < j < qs.len() ==> qs[i] != qs[j]
}

/// A sequence of `n` free ports.
pub open spec fn free_ports(n: nat) -> Seq<Option<PortRef>> {
    Seq::new(n, |i: int| None)
}

/// The identity wiring `0, 1, ..., n - 1`.
pub open spec fn range_seq(n: nat) -> Seq<usize> {
    Seq::new(n, |i: int| i as usize)
}

impl CircuitModel {
    /// The model with a new unlinked node appended.
    pub open spec fn with_node(self, op: Op, qs: Seq<usize>) -> CircuitModel {
        CircuitModel {
            ops: self.ops.push(op),
            qubits: self.qubits.push(qs),
            ins: self.ins.push(free_ports(qs.len())),
            outs: self.outs.push(free_ports(qs.len())),
            live: self.live.push(true),
            ..self
        }
    }
}

/// `order` lists distinct gate nodes, each one after every gate node that
/// feeds one of its ports.
pub open spec fn is_topological(m: CircuitModel, order: Seq<usize>) -> bool {
    &&& order.no_duplicates()
    &&& forall|k: int| 0 <= k < order.len() ==> #[trigger] m.is_gate_node(order[k] as int)
    &&& forall|k: int, p: int|
        0 <= k < order.len() && 0 <= p < m.ins[order[k] as int].len() ==> (#[trigger] m.ins[order[k] as int][p] matches Some(s)
            ==> s.node == INPUT || order.take(k).contains(s.node))
}

/// Node `n` has a port fed by a gate node that `order` leaves out.
pub open spec fn is_blocked(m: CircuitModel, order: Seq<usize>, n: int) -> bool {
    exists|p: int|
        0 <= p < m.ins[n].len() && (#[trigger] m.ins[n][p] matches Some(s) && s.node != INPUT
            && !order.contains(s.node))
}

/// Every gate node that `order` leaves out is blocked: it lies on or after
/// a cycle of left-out nodes, so no longer topological order exists.
pub open spec fn is_maximal(m: CircuitModel, order: Seq<usize>) -> bool {
    forall|n: int| #[trigger] m.is_gate_node(n) && !order.contains(n as usize) ==> is_blocked(m, order, n)
}

/// Some topological order lists every operation node.
pub open spec fn all_ordered(m: CircuitModel) -> bool {
    exists|t: Seq<usize>|
        #[trigger] is_topological(m, t) && forall|g: int| #[trigger] m.is_gate_node(g) ==> t.contains(g as usize)
}

/// When some topological order lists every operation node, so does every
/// maximal one.
pub proof fn lemma_maximal_complete(m: CircuitModel, o: Seq<usize>, t: Seq<usize>)
    requires
        m.wf(),
        is_maximal(m, o),
        is_topological(m, t),
        forall|g: int| #[trigger] m.is_gate_node(g) ==> t.contains(g as usize),
    ensures
        forall|g: int| #[trigger] m.is_gate_node(g) ==> o.contains(g as usize),
{
    lemma_maximal_prefix(m, o, t, t.len());
    assert forall|g: int| #[trigger] m.is_gate_node(g) implies o.contains(g as usize) by {
        let k = choose|k: int| 0 <= k < t.len() && t[k] == g as usize;
        assert(o.contains(t[k]));
    }
}

/// Every node of the first `k` of a topological order is in a maximal one.
proof fn lemma_maximal_prefix(m: CircuitModel, o: Seq<usize>, t: Seq<usize>, k: nat)
    requires
        m.wf(),
        is_maximal(m, o),
        is_topological(m, t),
        k <= t.len(),
    ensures
        forall|j: int| 0 <= j < k ==> o.contains(#[trigger] t[j]),
    decreases k,
{
    if k > 0 {
        lemma_maximal_prefix(m, o, t, (k - 1) as nat);
        let x = t[k - 1];
        assert(m.is_gate_node(x as int));
        if !o.contains(x) {
            assert(is_blocked(m, o, x as int));
            let p = choose|p: int|
                0 <= p < m.ins[x as int].len() && (#[trigger] m.ins[x as int][p] matches Some(s) && s.node != INPUT
                    && !o.contains(s.node));
            assert(m.ins[t[k - 1] as int][p] == m.ins[x as int][p]);
            let sn = m.ins[x as int][p].unwrap().node;
            assert(t.take(k - 1).contains(sn));
            let j = choose|j: int| 0 <= j < k - 1 && #[trigger] t.take(k - 1)[j] == sn;
            assert(t[j] == sn);
            assert(o.contains(t[j]));
        }
    }
}

/// A sequence of distinct values below `n` has at most `n` elements.
pub proof fn lemma_distinct_below_len(s: Seq<usize>, n: nat)
    requires
        s.no_duplicates(),
        forall|i: int| 0 <= i < s.len() ==> s[i] < n,
    ensures
        s.len() <= n,
{
    let si = s.map_values(|x: usize| x as int);
    assert forall|i: int, j: int| 0 <= i < si.len() && 0 <= j < si.len() && i != j implies si[i] != si[j] by {}
    assert(si.no_duplicates());
    si.unique_seq_to_set();
    vstd::set_lib::lemma_int_range(0, n as int);
    assert forall|x: int| si.to_set().contains(x) implies vstd::set_lib::set_int_range(0, n as int).contains(x) by {
        let i = choose|i: int| 0 <= i < si.len() && si[i] == x;
    }
    vstd::set_lib::lemma_len_subset(si.to_set(), vstd::set_lib::set_int_range(0, n as int));
}

impl CircuitModel {
    /// The link at port `p` of node `n` in direction `dir`.
    pub open spec fn link(self, n: int, dir: Direction, p: int) -> Option<PortRef> {
        match dir {
            Direction::Incoming => self.ins[n][p],
            Direction::Outgoing => self.outs[n][p],
        }
    }

    /// The edges at the first `k` ports of node `n` in direction `dir`, in
    /// port order; free ports have none.
    pub open spec fn edges_upto(self, n: int, dir: Direction, k: nat) -> Seq<Edge>
        decreases k,
    {
        if k == 0 {
            seq![]
        } else {
            let rest = self.edges_upto(n, dir, (k - 1) as nat);
            let p = k - 1;
            match self.link(n, dir, p) {
                Some(r) => rest.push(
                    match dir {
                        Direction::Incoming => Edge { src: r, dst: PortRef { node: n as usize, port: p as usize } },
                        Direction::Outgoing => Edge { src: PortRef { node: n as usize, port: p as usize }, dst: r },
                    },
                ),
                None => rest,
            }
        }
    }

    /// The edges at node `n` in direction `dir`, in port order.
    pub open spec fn boundary(self, n: int, dir: Direction) -> Seq<Edge> {
        self.edges_upto(n, dir, self.qubits[n].len())
    }

    /// `e` is a wire of the circuit.
    pub open spec fn has_edge(self, e: Edge) -> bool {
        &&& e.src.node < self.n_nodes()
        &&& e.src.port < self.outs[e.src.node as int].len()
        &&& self.outs[e.src.node as int][e.src.port as int] == Some(e.dst)
    }

    /// The number of live nodes.
    pub open spec fn live_count(self) -> nat {
        count_true(self.live)
    }
}

/// The number of `true` entries.
pub open spec fn count_true(s: Seq<bool>) -> nat
    decreases s.len(),
{
    if s.len() == 0 {
        0
    } else {
        count_true(s.drop_last()) + if s.last() { 1nat } else { 0nat }
    }
}

/// Appending an entry adds one to the count when it is `true`.
pub proof fn lemma_count_true_push(s: Seq<bool>, b: bool)
    ensures
        count_true(s.push(b)) == count_true(s) + if b { 1nat } else { 0nat },
{
    assert(s.push(b).drop_last() =~= s);
}

/// Clearing a `true` entry lowers the count by one.
pub proof fn lemma_count_true_clear(s: Seq<bool>, i: int)
    requires
        0 <= i < s.len(),
        s[i],
    ensures
        count_true(s.update(i, false)) + 1 == count_true(s),
    decreases s.len(),
{
    let t = s.update(i, false);
    if i < s.len() - 1 {
        assert(t.drop_last() =~= s.drop_last().update(i, false));
        lemma_count_true_clear(s.drop_last(), i);
    } else {
        assert(t.drop_last() =~= s.drop_last());
    }
}

/// The phase `a + b` brought into `0..8`.
pub open spec fn phase_add(a: int, b: int) -> int {
    (a + b) % (PHASE_PERIOD as int)
}

/// Qubit `x` renumbered after qubit `q` is taken out.
pub open spec fn shift_qubit(x: usize, q: usize) -> usize {
    if x > q {
        (x - 1) as usize
    } else {
        x
    }
}

/// Whether `k` is the Input or the Output node.
pub open spec fn is_io(k: int) -> bool {
    k == INPUT || k == OUTPUT
}

/// The port of node `k` before qubit `q` is taken out, for port `p` after.
pub open spec fn old_port(k: int, p: int, q: int) -> int {
    if is_io(k) && p >= q {
        p + 1
    } else {
        p
    }
}

/// A link renumbered after port `q` of Input and Output is taken out.
pub open spec fn shift_ref(r: Option<PortRef>, q: usize) -> Option<PortRef> {
    match r {
        Some(x) => Some(
            PortRef {
                node: x.node,
                port: if is_io(x.node as int) && x.port > q {
                    (x.port - 1) as usize
                } else {
                    x.port
                },
            },
        ),
        None => None,
    }
}

/// The ports of node `k` after qubit `q` is taken out.
pub open spec fn new_port_count(m: CircuitModel, k: int) -> nat {
    if is_io(k) {
        (m.qubits[k].len() - 1) as nat
    } else if !m.live[k] {
        0
    } else {
        m.qubits[k].len()
    }
}

impl CircuitModel {
    /// The circuit with the wire of qubit `q` taken out: Input and Output
    /// lose port `q`, later ports and qubits move down by one.
    pub open spec fn without_wire(self, q: usize) -> CircuitModel {
        CircuitModel {
            n_qubits: (self.n_qubits - 1) as nat,
            qubits: Seq::new(
                self.n_nodes(),
                |k: int|
                    if is_io(k) {
                        range_seq((self.n_qubits - 1) as nat)
                    } else if !self.live[k] {
                        Seq::<usize>::empty()
                    } else {
                        self.qubits[k].map_values(|x: usize| shift_qubit(x, q))
                    },
            ),
            ins: Seq::new(
                self.n_nodes(),
                |k: int|
                    Seq::new(
                        new_port_count(self, k),
                        |p: int| shift_ref(self.ins[k][old_port(k, p, q as int)], q),
                    ),
            ),
            outs: Seq::new(
                self.n_nodes(),
                |k: int|
                    Seq::new(
                        new_port_count(self, k),
                        |p: int| shift_ref(self.outs[k][old_port(k, p, q as int)], q),
                    ),
            ),
            ..self
        }
    }

    /// Qubit `q` is a wire of its own: Input's port `q` is free or linked
    /// straight to Output, and no live operation node carries `q`.
    pub open spec fn wire_is_empty(self, q: usize) -> bool {
        &&& q < self.n_qubits
        &&& (self.outs[INPUT as int][q as int] is None || self.outs[INPUT as int][q as int] == Some(
            PortRef { node: OUTPUT, port: q },
        ))
        &&& forall|k: int, p: int|
            0 <= k < self.n_nodes() && !is_io(k) && self.live[k] && 0 <= p < self.qubits[k].len()
                ==> #[trigger] self.qubits[k][p]
                != q
    }
}

/// A link renumbered after port `q` of Input and Output is taken out.
pub fn shift_port_ref(r: Option<PortRef>, q: usize) -> (s: Option<PortRef>)
    ensures
        s == shift_ref(r, q),
{
    match r {
        Some(x) => Some(
            PortRef {
                node: x.node,
                port: if (x.node == INPUT || x.node == OUTPUT) && x.port > q {
                    x.port - 1
                } else {
                    x.port
                },
            },
        ),
        None => None,
    }
}

/// Taking out an empty wire keeps a circuit well formed.
#[verifier::rlimit(80)]
pub proof fn lemma_without_wire_wf(m: CircuitModel, q: usize)
    requires
        m.wf(),
        m.wire_is_empty(q),
    ensures
        m.without_wire(q).wf(),
{
    let m2 = m.without_wire(q);
    let n = m.n_qubits;
    assert(m.node_wf(INPUT as int));
    assert(m.node_wf(OUTPUT as int));
    // New ports of every node read old ports; qubits follow the renumbering.
    assert forall|k: int, p: int| 0 <= k < m.n_nodes() && 0 <= p < new_port_count(m, k) implies {
        &&& 0 <= old_port(k, p, q as int) < m.qubits[k].len()
        &&& old_port(k, p, q as int) != q || !is_io(k)
        &&& #[trigger] m2.qubits[k][p] == shift_qubit(m.qubits[k][old_port(k, p, q as int)], q)
    } by {
        assert(m.node_wf(k));
        if is_io(k) {
            assert(m.qubits[k][old_port(k, p, q as int)] == old_port(k, p, q as int));
        }
    }
    assert forall|k: int| 0 <= k < m2.n_nodes() implies #[trigger] m2.node_wf(k) by {
        assert(m.node_wf(k));
        if !is_io(k) && m.live[k] {
            assert forall|p: int, r: int| 0 <= p < r < m2.qubits[k].len() implies m2.qubits[k][p] != m2.qubits[k][r] by {
                assert(m.qubits[k][p] != m.qubits[k][r]);
                assert(m.qubits[k][p] != q);
                assert(m.qubits[k][r] != q);
            }
            assert forall|p: int| 0 <= p < m2.qubits[k].len() implies m2.qubits[k][p] < m2.n_qubits by {
                assert(m.qubits[k][p] != q);
            }
        }
        assert forall|p: int| 0 <= p < m2.ins[k].len() && (k == INPUT || !m.live[k]) implies m2.ins[k][p] is None by {
            assert(m.ins[k][old_port(k, p, q as int)] is None);
        }
        assert forall|p: int| 0 <= p < m2.outs[k].len() && (k == OUTPUT || !m.live[k]) implies m2.outs[k][p] is None by {
            assert(m.outs[k][old_port(k, p, q as int)] is None);
        }
    }
    assert forall|k: int, p: int|
        0 <= k < m2.n_nodes() && 0 <= p < m2.outs[k].len() implies #[trigger] m2.out_link_ok(k, p) by {
        let op = old_port(k, p, q as int);
        assert(m.node_wf(k));
        assert(m2.outs[k].len() == new_port_count(m, k));
        assert(0 <= op < m.outs[k].len());
        assert(m.out_link_ok(k, op));
        if let Some(r) = m.outs[k][op] {
            let b = r.node as int;
            assert(m.node_wf(b));
            assert(m.in_link_ok(b, r.port as int));
            assert(m.live[k]);
            assert(m.live[b]);
            if is_io(b) {
                assert(r.port != q) by {
                    if r.port == q {
                        assert(m.qubits[b][r.port as int] == q);
                        assert(m.qubits[k][op] == q);
                        if k == INPUT {
                            assert(m.qubits[k][op] == op);
                        }
                    }
                };
            }
            let np = if is_io(b) && r.port > q { r.port - 1 } else { r.port as int };
            assert(old_port(b, np, q as int) == r.port);
            assert(m2.ins[b][np] == shift_ref(m.ins[b][r.port as int], q));
            if is_io(k) {
                assert(op != q) by {
                    if op == q as int {
                        assert(m.qubits[k][op] == q);
                    }
                };
            }
            assert(m2.qubits[b][np] == shift_qubit(m.qubits[b][r.port as int], q));
        }
    }
    assert forall|k: int, p: int|
        0 <= k < m2.n_nodes() && 0 <= p < m2.ins[k].len() implies #[trigger] m2.in_link_ok(k, p) by {
        let op = old_port(k, p, q as int);
        assert(m.node_wf(k));
        assert(m2.ins[k].len() == new_port_count(m, k));
        assert(0 <= op < m.ins[k].len());
        assert(m.in_link_ok(k, op));
        if let Some(r) = m.ins[k][op] {
            let b = r.node as int;
            assert(m.node_wf(b));
            assert(m.out_link_ok(b, r.port as int));
            assert(m.live[k]);
            assert(m.live[b]);
            if is_io(b) {
                assert(r.port != q) by {
                    if r.port == q {
                        assert(m.qubits[b][r.port as int] == q);
                        assert(m.qubits[k][op] == q);
                        if k == OUTPUT {
                            assert(m.qubits[k][op] == op);
                        }
                    }
                };
            }
            let np = if is_io(b) && r.port > q { r.port - 1 } else { r.port as int };
            assert(old_port(b, np, q as int) == r.port);
            assert(m2.outs[b][np] == shift_ref(m.outs[b][r.port as int], q));
            if is_io(k) {
                assert(op != q) by {
                    if op == q as int {
                        assert(m.qubits[k][op] == q);
                    }
                };
            }
            assert(m2.qubits[b][np] == shift_qubit(m.qubits[b][r.port as int], q));
        }
    }
}

/// Outgoing port `p` of node `x` is linked to the Output port of one of
/// the qubits `qs`.
pub open spec fn feeds_output(m: CircuitModel, qs: Seq<usize>, x: int, p: int) -> bool {
    m.outs[x][p] matches Some(d) && d.node == OUTPUT && qs.contains(d.port)
}

/// The error `connect` reports when the link `(src, sp) -> (dst, dp)`
/// cannot be made: the first of a bad source node, a bad target node, a
/// port out of range at either end, a port in use at either end, and
/// different qubits.
pub open spec fn connect_error(m: CircuitModel, src: usize, sp: usize, dst: usize, dp: usize) -> CircuitMutError {
    if !m.is_live(src as int) || src == OUTPUT {
        CircuitMutError::InvalidNode(src)
    } else if !m.is_live(dst as int) || dst == INPUT {
        CircuitMutError::InvalidNode(dst)
    } else if sp >= m.outs[src as int].len() {
        CircuitMutError::InvalidPortOffset(sp)
    } else if dp >= m.ins[dst as int].len() {
        CircuitMutError::InvalidPortOffset(dp)
    } else if m.outs[src as int][sp as int] is Some {
        CircuitMutError::PortInUse(sp)
    } else if m.ins[dst as int][dp as int] is Some {
        CircuitMutError::PortInUse(dp)
    } else {
        CircuitMutError::QubitMismatch(dp)
    }
}

/// Adding a link between two free ports that carry the same qubit keeps a
/// circuit well formed.
pub proof fn lemma_with_link_wf(m: CircuitModel, src: int, sp: int, dst: int, dp: int)
    requires
        m.wf(),
        m.can_connect(src, sp, dst, dp),
    ensures
        m.with_link(src, sp, dst, dp).wf(),
{
    let m2 = m.with_link(src, sp, dst, dp);
    assert(m.node_wf(src) && m.node_wf(dst));
    assert((src as usize) as int == src && (sp as usize) as int == sp);
    assert((dst as usize) as int == dst && (dp as usize) as int == dp);
    assert forall|k: int| 0 <= k < m.n_nodes() implies m2.ins[k].len() == m.ins[k].len()
        && m2.outs[k].len() == m.outs[k].len() by {}
    assert forall|n: int| 0 <= n < m2.n_nodes() implies #[trigger] m2.node_wf(n) by {
        assert(m.node_wf(n));
        assert(m2.ins[n].len() == m.ins[n].len());
        assert(m2.outs[n].len() == m.outs[n].len());
        if n == src {
            assert(m.node_wf(dst));
        }
    }
    assert forall|n: int, p: int|
        0 <= n < m2.n_nodes() && 0 <= p < m2.outs[n].len() implies #[trigger] m2.out_link_ok(
        n,
        p,
    ) by {
        assert(m2.outs[n].len() == m.outs[n].len());
        assert(m.out_link_ok(n, p));
        assert(m.node_wf(n));
        assert((n as usize) as int == n && (p as usize) as int == p);
        if !(n == src && p == sp) {
            assert(m2.outs[n][p] == m.outs[n][p]);
            if let Some(r) = m.outs[n][p] {
                assert(m.in_link_ok(r.node as int, r.port as int));
                assert(m2.ins[r.node as int][r.port as int] == m.ins[r.node as int][r.port as int]);
            }
        }
    }
    assert forall|n: int, p: int|
        0 <= n < m2.n_nodes() && 0 <= p < m2.ins[n].len() implies #[trigger] m2.in_link_ok(
        n,
        p,
    ) by {
        assert(m2.ins[n].len() == m.ins[n].len());
        assert(m.in_link_ok(n, p));
        assert(m.node_wf(n));
        assert((n as usize) as int == n && (p as usize) as int == p);
        if !(n == dst && p == dp) {
            assert(m2.ins[n][p] == m.ins[n][p]);
            if let Some(r) = m.ins[n][p] {
                assert(m.out_link_ok(r.node as int, r.port as int));
                assert(m2.outs[r.node as int][r.port as int] == m.outs[r.node as int][r.port as int]);
            }
        }
    }
}

/// Removing an existing link keeps a circuit well formed.
pub proof fn lemma_without_link_wf(m: CircuitModel, src: int, sp: int)
    requires
        m.wf(),
        0 <= src < m.n_nodes(),
        0 <= sp < m.outs[src].len(),
        m.outs[src][sp] is Some,
    ensures
        ({
            let d = m.outs[src][sp].unwrap();
            &&& d.node < m.n_nodes()
            &&& d.port < m.ins[d.node as int].len()
            &&& m.ins[d.node as int][d.port as int] == Some(PortRef { node: src as usize, port: sp as usize })
            &&& m.without_link(src, sp, d.node as int, d.port as int).wf()
        }),
{
    let d = m.outs[src][sp].unwrap();
    let dst = d.node as int;
    let dp = d.port as int;
    assert(m.out_link_ok(src, sp));
    let m2 = m.without_link(src, sp, dst, dp);
    assert(m.node_wf(src));
    assert((src as usize) as int == src && (sp as usize) as int == sp);
    assert forall|k: int| 0 <= k < m.n_nodes() implies m2.ins[k].len() == m.ins[k].len()
        && m2.outs[k].len() == m.outs[k].len() by {}
    assert forall|n: int| 0 <= n < m2.n_nodes() implies #[trigger] m2.node_wf(n) by {
        assert(m.node_wf(n));
        assert(m2.ins[n].len() == m.ins[n].len());
        assert(m2.outs[n].len() == m.outs[n].len());
        assert forall|p: int| 0 <= p < m2.ins[n].len() && m.ins[n][p] is None implies m2.ins[n][p] is None by {}
        assert forall|p: int| 0 <= p < m2.outs[n].len() && m.outs[n][p] is None implies m2.outs[n][p] is None by {}
    }
    assert forall|n: int, p: int|
        0 <= n < m2.n_nodes() && 0 <= p < m2.outs[n].len() implies #[trigger] m2.out_link_ok(
        n,
        p,
    ) by {
        assert(m2.outs[n].len() == m.outs[n].len());
        assert(m.out_link_ok(n, p));
        assert(m.node_wf(n));
        assert((n as usize) as int == n && (p as usize) as int == p);
        if !(n == src && p == sp) {
            assert(m2.outs[n][p] == m.outs[n][p]);
            if let Some(r) = m.outs[n][p] {
                assert(m.in_link_ok(r.node as int, r.port as int));
                assert(m2.ins[r.node as int][r.port as int] == m.ins[r.node as int][r.port as int]);
            }
        }
    }
    assert forall|n: int, p: int|
        0 <= n < m2.n_nodes() && 0 <= p < m2.ins[n].len() implies #[trigger] m2.in_link_ok(
        n,
        p,
    ) by {
        assert(m2.ins[n].len() == m.ins[n].len());
        assert(m.in_link_ok(n, p));
        assert(m.node_wf(n));
        assert((n as usize) as int == n && (p as usize) as int == p);
        if !(n == dst && p == dp) {
            assert(m2.ins[n][p] == m.ins[n][p]);
            if let Some(r) = m.ins[n][p] {
                assert(m.out_link_ok(r.node as int, r.port as int));
                assert(m2.outs[r.node as int][r.port as int] == m.outs[r.node as int][r.port as int]);
            }
        }
    }
}

/// A quantum circuit as a dataflow graph.
pub struct Circuit {
    n_qubits: usize,
    ops: Vec<Op>,
    qubits: Vec<Vec<usize>>,
    ins: Vec<Vec<Option<PortRef>>>,
    outs: Vec<Vec<Option<PortRef>>>,
    live: Vec<bool>,
    phase: i64,
}

impl View for Circuit {
    type V = CircuitModel;

    closed spec fn view(&self) -> CircuitModel {
        CircuitModel {
            n_qubits: self.n_qubits as nat,
            ops: self.ops@,
            qubits: self.qubits@.map_values(|v: Vec<usize>| v@),
            ins: self.ins@.map_values(|v: Vec<Option<PortRef>>| v@),
            outs: self.outs@.map_values(|v: Vec<Option<PortRef>>| v@),
            live: self.live@,
            phase: self.phase as int,
        }
    }
}

impl Circuit {
    /// An empty circuit on `n_qubits` qubits: each Input port is linked to
    /// the Output port of the same qubit.
    pub fn new(n_qubits: usize) -> (r: Circuit)
        ensures
            r@.wf(),
            r@.n_qubits == n_qubits,
            r@.n_nodes() == 2,
            r@.phase == 0,
            forall|q: int|
                0 <= q < n_qubits ==> r@.outs[INPUT as int][q] == Some(PortRef { node: OUTPUT, port: q as usize })
                    && r@.ins[OUTPUT as int][q] == Some(PortRef { node: INPUT, port: q as usize }),
    {
        let mut qs: Vec<usize> = Vec::new();
        let mut to_out: Vec<Option<PortRef>> = Vec::new();
        let mut from_in: Vec<Option<PortRef>> = Vec::new();
        let mut free: Vec<Option<PortRef>> = Vec::new();
        let mut i: usize = 0;
        while i < n_qubits
            invariant
                i <= n_qubits,
                qs@ == range_seq(i as nat),
                free@ == free_ports(i as nat),
                to_out@ == Seq::new(i as nat, |k: int| Some(PortRef { node: OUTPUT, port: k as usize })),
                from_in@ == Seq::new(i as nat, |k: int| Some(PortRef { node: INPUT, port: k as usize })),
            decreases n_qubits - i,
        {
            qs.push(i);
            to_out.push(Some(PortRef { node: OUTPUT, port: i }));
            from_in.push(Some(PortRef { node: INPUT, port: i }));
            free.push(None);
            i = i + 1;
            proof {
                assert(qs@ =~= range_seq(i as nat));
                assert(free@ =~= free_ports(i as nat));
                assert(to_out@ =~= Seq::new(i as nat, |k: int| Some(PortRef { node: OUTPUT, port: k as usize })));
                assert(from_in@ =~= Seq::new(i as nat, |k: int| Some(PortRef { node: INPUT, port: k as usize })));
            }
        }
        let c = Circuit {
            n_qubits,
            ops: vec![Op::Input, Op::Output],
            qubits: vec![qs.clone(), qs],
            ins: vec![free.clone(), from_in],
            outs: vec![to_out, free],
            live: vec![true, true],
            phase: 0,
        };
        proof {
            let m = c@;
            assert(m.qubits[0] == range_seq(n_qubits as nat));
            assert(m.qubits[1] == range_seq(n_qubits as nat));
            assert(m.ins[0] == free_ports(n_qubits as nat));
            assert(m.outs[1] == free_ports(n_qubits as nat));
            assert forall|n: int| 0 <= n < m.n_nodes() implies #[trigger] m.node_wf(n) by {}
            assert forall|n: int, p: int|
                0 <= n < m.n_nodes() && 0 <= p < m.outs[n].len() implies #[trigger] m.out_link_ok(n, p) by {}
            assert forall|n: int, p: int|
                0 <= n < m.n_nodes() && 0 <= p < m.ins[n].len() implies #[trigger] m.in_link_ok(n, p) by {}
        }
        c
    }

    /// Whether `qs` may be the qubits of a new node with operation `op`.
    pub fn check_qubits(&self, op: Op, qs: &Vec<usize>) -> (r: bool)
        ensures
            r == valid_qubits(self@.n_qubits, op, qs@),
    {
        if op.is_boundary() {
            return false;
        }
        let arity = match op {
            Op::Gate(g) => g.n_qubits(),
            Op::Identity(_) => 1,
            Op::Opaque(_, k) => k,
            _ => 0,
        };
        if qs.len() != arity {
            return false;
        }
        let mut i: usize = 0;
        while i < qs.len()
            invariant
                i <= qs@.len(),
                forall|a: int| 0 <= a < i ==> qs@[a] < self@.n_qubits,
                forall|a: int, b: int| 0 <= a < b < i ==> qs@[a] != qs@[b],
            decreases qs@.len() - i,
        {
            if qs[i] >= self.n_qubits {
                return false;
            }
            let mut j: usize = 0;
            while j < i
                invariant
                    i < qs@.len(),
                    j <= i,
                    forall|a: int| 0 <= a < j ==> qs@[a] != qs@[i as int],
                decreases i - j,
            {
                if qs[j] == qs[i] {
                    return false;
                }
                j = j + 1;
            }
            i = i + 1;
        }
        true
    }

    /// Add a node with no links.
    pub fn add_node(&mut self, op: Op, qs: Vec<usize>) -> (r: usize)
        requires
            old(self)@.wf(),
            valid_qubits(old(self)@.n_qubits, op, qs@),
            old(self)@.n_nodes() < usize::MAX,
        ensures
            final(self)@.wf(),
            r == old(self)@.n_nodes(),
            final(self)@ == old(self)@.with_node(op, qs@),
            final(self)@.live_count() == old(self)@.live_count() + 1,
    {
        let ghost m = self@;
        let k = qs.len();
        let mut free: Vec<Option<PortRef>> = Vec::new();
        let mut i: usize = 0;
        while i < k
            invariant
                i <= k,
                free@ == free_ports(i as nat),
            decreases k - i,
        {
            free.push(None);
            i = i + 1;
            proof {
                assert(free@ =~= free_ports(i as nat));
            }
        }
        let r = self.ops.len();
        self.ops.push(op);
        self.qubits.push(qs);
        self.ins.push(free.clone());
        self.outs.push(free);
        self.live.push(true);
        proof {
            let m2 = m.with_node(op, qs@);
            assert(self@.qubits =~= m2.qubits);
            assert(self@.ins =~= m2.ins);
            assert(self@.outs =~= m2.outs);
            assert(self@ == m2);
            lemma_count_true_push(m.live, true);
            assert forall|n: int| 0 <= n < m2.n_nodes() implies #[trigger] m2.node_wf(n) by {
                if n < m.n_nodes() {
                    assert(m.node_wf(n));
                }
            }
            assert forall|n: int, p: int|
                0 <= n < m2.n_nodes() && 0 <= p < m2.outs[n].len() implies #[trigger] m2.out_link_ok(n, p) by {
                if n < m.n_nodes() {
                    assert(m.out_link_ok(n, p));
                }
            }
            assert forall|n: int, p: int|
                0 <= n < m2.n_nodes() && 0 <= p < m2.ins[n].len() implies #[trigger] m2.in_link_ok(n, p) by {
                if n < m.n_nodes() {
                    assert(m.in_link_ok(n, p));
                }
            }
        }
        r
    }

    /// Append an operation at the end of the circuit on the given qubits:
    /// each of its ports is spliced in just before the Output node.
    ///
    /// Returns the new node, or `InvalidQubits` when the qubits are out of
    /// range, repeated, or not as many as the operation acts on.
    pub fn append(&mut self, op: Op, qs: Vec<usize>) -> (r: Result<usize, CircuitMutError>)
        requires
            old(self)@.wf(),
            old(self)@.n_nodes() < usize::MAX,
        ensures
            final(self)@.wf(),
            r is Err <==> !valid_qubits(old(self)@.n_qubits, op, qs@),
            r is Err ==> r == Err::<usize, CircuitMutError>(CircuitMutError::InvalidQubits) && final(self)@ == old(self)@,
            r matches Ok(n) ==> {
                &&& n == old(self)@.n_nodes()
                &&& final(self)@.same_nodes(old(self)@.with_node(op, qs@))
                &&& forall|i: int|
                    0 <= i < qs@.len() ==> final(self)@.outs[n as int][i] == Some(
                        PortRef { node: OUTPUT, port: qs@[i] },
                    ) && final(self)@.ins[n as int][i] == old(self)@.ins[OUTPUT as int][qs@[i] as int]
                        && final(self)@.ins[OUTPUT as int][qs@[i] as int] == Some(PortRef { node: n, port: i as usize })
                &&& forall|x: int, p: int|
                    0 <= x < old(self)@.n_nodes() && x != OUTPUT && 0 <= p < old(self)@.ins[x].len() ==> #[trigger] final(self)@.ins[x][p] == old(self)@.ins[x][p]
                &&& forall|q: int|
                    0 <= q < old(self)@.n_qubits && !qs@.contains(q as usize) ==> #[trigger] final(self)@.ins[OUTPUT as int][q]
                        == old(self)@.ins[OUTPUT as int][q]
                &&& forall|x: int, p: int|
                    0 <= x < old(self)@.n_nodes() && 0 <= p < old(self)@.outs[x].len() && !feeds_output(
                        old(self)@,
                        qs@,
                        x,
                        p,
                    ) ==> #[trigger] final(self)@.outs[x][p] == old(self)@.outs[x][p]
            },
    {
        if !self.check_qubits(op, &qs) {
            return Err(CircuitMutError::InvalidQubits);
        }
        let ghost m0 = self@;
        let k = qs.len();
        let nn = self.add_node(op, qs);
        let ghost m1 = self@;
        let mut i: usize = 0;
        while i < k
            invariant
                i <= k,
                k == m1.qubits[nn as int].len(),
                nn == m0.n_nodes(),
                m0.wf(),
                m1 == m0.with_node(op, m1.qubits[nn as int]),
                valid_qubits(m0.n_qubits, op, m1.qubits[nn as int]),
                self@.wf(),
                self@.same_nodes(m1),
                forall|j: int| i <= j < k ==> self@.ins[nn as int][j] is None && self@.outs[nn as int][j] is None,
                forall|j: int| i <= j < k ==> self@.ins[OUTPUT as int][m1.qubits[nn as int][j] as int] == m0.ins[OUTPUT as int][m1.qubits[nn as int][j] as int],
                forall|j: int| 0 <= j < i ==> self@.outs[nn as int][j] == Some(PortRef { node: OUTPUT, port: m1.qubits[nn as int][j] }) && self@.ins[nn as int][j] == m0.ins[OUTPUT as int][m1.qubits[nn as int][j] as int],
                forall|j: int| 0 <= j < i ==> self@.ins[OUTPUT as int][#[trigger] m1.qubits[nn as int][j] as int] == Some(PortRef { node: nn, port: j as usize }),
                forall|x: int, p: int|
                    0 <= x < m0.n_nodes() && x != OUTPUT && 0 <= p < m0.ins[x].len() ==> #[trigger] self@.ins[x][p] == m0.ins[x][p],
                forall|q: int|
                    0 <= q < m0.n_qubits && (forall|j: int| 0 <= j < i ==> m1.qubits[nn as int][j] != q as usize) ==> #[trigger] self@.ins[OUTPUT as int][q] == m0.ins[OUTPUT as int][q],
                forall|x: int, p: int|
                    0 <= x < m0.n_nodes() && 0 <= p < m0.outs[x].len() && !feeds_output(m0, m1.qubits[nn as int].take(i as int), x, p) ==> #[trigger] self@.outs[x][p] == m0.outs[x][p],
            decreases k - i,
        {
            let q = self.qubits[nn][i];
            let ghost s0 = self@;
            proof {
                assert(s0.node_wf(OUTPUT as int));
                assert(s0.node_wf(nn as int));
            }
            let prev = self.disconnect_in(OUTPUT, q);
            let ghost s1 = self@;
            if let Some(s) = prev {
                proof {
                    assert(s0.in_link_ok(OUTPUT as int, q as int));
                    assert(s0.node_wf(s.node as int));
                }
                let _ = self.connect(s.node, s.port, nn, i);
            }
            let ghost s2 = self@;
            let _ = self.connect(nn, i, OUTPUT, q);
            proof {
                assert forall|x: int, p: int|
                    0 <= x < nn && 0 <= p < s0.outs[x].len() && !(prev matches Some(sr) && x == sr.node as int && p
                        == sr.port as int) implies #[trigger] self@.outs[x][p] == s0.outs[x][p] by {
                    assert(s0.node_wf(x));
                    assert(s1.outs[x][p] == s0.outs[x][p]);
                    assert(s2.outs[x][p] == s1.outs[x][p]);
                }
            }
            proof {
                let qq = m1.qubits[nn as int];
                assert(qq.take(i + 1).drop_last() =~= qq.take(i as int));
                assert forall|x: int, p: int|
                    0 <= x < m0.n_nodes() && 0 <= p < m0.outs[x].len() && !feeds_output(m0, qq.take(i + 1), x, p) implies #[trigger] self@.outs[x][p] == m0.outs[x][p] by {
                    if let Some(d) = m0.outs[x][p] {
                        if d.node == OUTPUT && qq.take(i as int).contains(d.port) {
                            let j = choose|j: int| 0 <= j < i && #[trigger] qq.take(i as int)[j] == d.port;
                            assert(qq.take(i + 1)[j] == d.port);
                        }
                    }
                    assert(!feeds_output(m0, qq.take(i as int), x, p));
                    assert(m0.node_wf(x));
                    assert(m1.qubits[x] == m0.qubits[x]);
                    assert(s0.node_wf(x));
                    assert(s0.outs[x][p] == m0.outs[x][p]);
                    if let Some(sr) = prev {
                        if x == sr.node as int && p == sr.port as int {
                            assert(s0.in_link_ok(OUTPUT as int, q as int));
                            assert(m0.out_link_ok(x, p));
                            assert(m0.outs[x][p] == Some(PortRef { node: OUTPUT, port: q }));
                            assert(qq.take(i + 1)[i as int] == q);
                        }
                    }
                }
            }
            i = i + 1;
        }
        proof {
            let qq = m1.qubits[nn as int];
            assert(qq.take(k as int) =~= qq);
            assert forall|q: int|
                0 <= q < m0.n_qubits && !qq.contains(q as usize) implies #[trigger] self@.ins[OUTPUT as int][q] == m0.ins[OUTPUT as int][q] by {
                assert forall|j: int| 0 <= j < k implies qq[j] != q as usize by {
                    if qq[j] == q as usize {
                        assert(qq.contains(q as usize));
                    }
                }
            }
        }
        Ok(nn)
    }

    /// Whether every port of node `n` is fed by Input or by an emitted node.
    fn is_ready(&self, n: usize, emitted: &Vec<bool>, Ghost(order): Ghost<Seq<usize>>) -> (r: bool)
        requires
            self@.wf(),
            n < self@.n_nodes(),
            emitted@.len() == self@.n_nodes(),
            forall|x: int| 0 <= x < self@.n_nodes() ==> (emitted@[x] <==> order.contains(x as usize)),
        ensures
            r ==> forall|p: int|
                0 <= p < self@.ins[n as int].len() ==> (#[trigger] self@.ins[n as int][p] matches Some(s)
                    ==> s.node == INPUT || order.contains(s.node)),
            !r ==> is_blocked(self@, order, n as int),
    {
        let k = self.ins[n].len();
        let mut p: usize = 0;
        while p < k
            invariant
                self@.wf(),
                n < self@.n_nodes(),
                k == self@.ins[n as int].len(),
                p <= k,
                emitted@.len() == self@.n_nodes(),
                forall|x: int| 0 <= x < self@.n_nodes() ==> (emitted@[x] <==> order.contains(x as usize)),
                forall|j: int|
                    0 <= j < p ==> (#[trigger] self@.ins[n as int][j] matches Some(s) ==> s.node == INPUT
                        || order.contains(s.node)),
            decreases k - p,
        {
            if let Some(s) = self.ins[n][p] {
                proof {
                    assert(self@.in_link_ok(n as int, p as int));
                }
                if s.node != INPUT && !emitted[s.node] {
                    proof {
                        assert(self@.ins[n as int][p as int] matches Some(s) && s.node != INPUT && !order.contains(s.node));
                    }
                    return false;
                }
            }
            p = p + 1;
        }
        true
    }

    /// The operation nodes of the circuit (Input and Output excluded) in a
    /// topological order; a node that lies on or after a cycle is left out.
    pub fn commands(&self) -> (r: Vec<usize>)
        requires
            self@.wf(),
        ensures
            is_topological(self@, r@),
            is_maximal(self@, r@),
    {
        let len = self.ops.len();
        let mut emitted: Vec<bool> = Vec::new();
        let mut i: usize = 0;
        while i < len
            invariant
                i <= len,
                emitted@ == Seq::new(i as nat, |x: int| false),
            decreases len - i,
        {
            emitted.push(false);
            i = i + 1;
            proof {
                assert(emitted@ =~= Seq::new(i as nat, |x: int| false));
            }
        }
        let mut order: Vec<usize> = Vec::new();
        loop
            invariant
                self@.wf(),
                len == self@.n_nodes(),
                emitted@.len() == len,
                forall|x: int| 0 <= x < len ==> (emitted@[x] <==> order@.contains(x as usize)),
                is_topological(self@, order@),
            ensures
                is_topological(self@, order@),
                is_maximal(self@, order@),
            decreases len - order@.len(),
        {
            proof {
                assert forall|k: int| 0 <= k < order@.len() implies order@[k] < len by {
                    assert(self@.is_gate_node(order@[k] as int));
                }
                lemma_distinct_below_len(order@, len as nat);
            }
            let ghost start = order@;
            let mut progress = false;
            let mut n: usize = 2;
            while n < len
                invariant
                    self@.wf(),
                    len == self@.n_nodes(),
                    2 <= n <= len,
                    emitted@.len() == len,
                    forall|x: int| 0 <= x < len ==> (emitted@[x] <==> order@.contains(x as usize)),
                    is_topological(self@, order@),
                    start.len() <= order@.len(),
                    !progress ==> order@ == start,
                    progress ==> start.len() < order@.len(),
                    !progress ==> forall|x: int|
                        2 <= x < n && #[trigger] self@.is_gate_node(x) && !order@.contains(x as usize) ==> is_blocked(self@, order@, x),
                decreases len - n,
            {
                if self.live[n] && !emitted[n] {
                    if self.is_ready(n, &emitted, Ghost(order@)) {
                        let ghost before = order@;
                        order.push(n);
                        emitted.set(n, true);
                        progress = true;
                        proof {
                            assert(order@.take(before.len() as int) =~= before);
                            assert forall|k: int| 0 <= k < before.len() implies order@.take(k) =~= before.take(k) by {}
                            assert forall|x: int| 0 <= x < len implies (emitted@[x] <==> order@.contains(x as usize)) by {
                                if x == n as int {
                                    assert(order@[before.len() as int] == n);
                                } else {
                                    if order@.contains(x as usize) {
                                        let j = choose|j: int| 0 <= j < order@.len() && order@[j] == x as usize;
                                        assert(j < before.len());
                                        assert(before[j] == x as usize);
                                    }
                                    if before.contains(x as usize) {
                                        let j = choose|j: int| 0 <= j < before.len() && before[j] == x as usize;
                                        assert(order@[j] == x as usize);
                                    }
                                }
                            }
                            assert forall|k: int, p: int|
                                0 <= k < order@.len() && 0 <= p < self@.ins[order@[k] as int].len() implies (#[trigger] self@.ins[order@[k] as int][p] matches Some(s)
                                    ==> s.node == INPUT || order@.take(k).contains(s.node)) by {
                                if k < before.len() {
                                    assert(before[k] == order@[k]);
                                    assert(self@.ins[before[k] as int][p] == self@.ins[order@[k] as int][p]);
                                }
                            }
                            assert forall|k: int| 0 <= k < order@.len() implies #[trigger] self@.is_gate_node(order@[k] as int) by {
                                if k < before.len() {
                                    assert(before[k] == order@[k]);
                                }
                            }
                        }
                    }
                }
                n = n + 1;
            }
            if !progress {
                proof {
                    assert forall|x: int| #[trigger] self@.is_gate_node(x) && !order@.contains(x as usize) implies is_blocked(self@, order@, x) by {
                        assert(2 <= x < len);
                    }
                }
                break;
            }
            proof {
                assert forall|k: int| 0 <= k < order@.len() implies order@[k] < len by {
                    assert(self@.is_gate_node(order@[k] as int));
                }
                lemma_distinct_below_len(order@, len as nat);
            }
        }
        order
    }

    /// Add `p` eighths of a turn to the global phase.
    pub fn add_phase(&mut self, p: i64)
        requires
            old(self)@.wf(),
        ensures
            final(self)@ == (CircuitModel { phase: phase_add(old(self)@.phase, p as int), ..old(self)@ }),
            final(self)@.wf(),
    {
        let r: i64 = if p >= 0 {
            p % PHASE_PERIOD
        } else {
            7 - (-(p + 1)) % PHASE_PERIOD
        };
        proof {
            if p < 0 {
                let q: int = -(p + 1);
                let t: int = q % 8;
                assert(q == 8 * (q / 8) + t && 0 <= t < 8) by (nonlinear_arith)
                    requires
                        q >= 0,
                        t == q % 8,
                ;
                assert((p as int) % 8 == 7 - t) by (nonlinear_arith)
                    requires
                        p == -q - 1,
                        q == 8 * (q / 8) + t,
                        0 <= t < 8,
                ;
            }
        }
        let mut x = self.phase + r;
        if x >= PHASE_PERIOD {
            x = x - PHASE_PERIOD;
        }
        proof {
            assert(x == phase_add(self.phase as int, p as int)) by (nonlinear_arith)
                requires
                    r == (p as int) % 8,
                    0 <= r < 8,
                    0 <= self.phase < 8,
                    x == (if self.phase + r >= 8 { self.phase + r - 8 } else { self.phase + r }),
            {
                assert(((self.phase + r) - (if self.phase + r >= 8 { 8int } else { 0int })) % 8
                    == (self.phase + (p as int)) % 8) by (nonlinear_arith)
                    requires
                        r == (p as int) % 8,
                        0 <= self.phase < 8,
                ;
            }
        }
        let ghost m = self@;
        self.phase = x;
        proof {
            let m2 = self@;
            assert(0 <= x < 8);
            assert forall|n: int| 0 <= n < m2.n_nodes() implies #[trigger] m2.node_wf(n) by {
                assert(m.node_wf(n));
            }
            assert forall|n: int, q: int|
                0 <= n < m2.n_nodes() && 0 <= q < m2.outs[n].len() implies #[trigger] m2.out_link_ok(n, q) by {
                assert(m.out_link_ok(n, q));
            }
            assert forall|n: int, q: int|
                0 <= n < m2.n_nodes() && 0 <= q < m2.ins[n].len() implies #[trigger] m2.in_link_ok(n, q) by {
                assert(m.in_link_ok(n, q));
            }
        }
    }

    /// Remove gate node `n` if none of its ports is linked; returns whether
    /// it was removed.
    pub fn remove_node(&mut self, n: usize) -> (r: bool)
        requires
            old(self)@.wf(),
        ensures
            final(self)@.wf(),
            r == (old(self)@.is_gate_node(n as int) && (forall|p: int|
                0 <= p < old(self)@.qubits[n as int].len() ==> old(self)@.ins[n as int][p] is None
                    && old(self)@.outs[n as int][p] is None)),
            r ==> final(self)@ == (CircuitModel { live: old(self)@.live.update(n as int, false), ..old(self)@ }),
            !r ==> final(self)@ == old(self)@,
            r ==> final(self)@.live_count() + 1 == old(self)@.live_count(),
    {
        if n >= self.ops.len() || n == INPUT || n == OUTPUT || !self.live[n] {
            return false;
        }
        proof {
            assert(self@.node_wf(n as int));
        }
        let k = self.qubits[n].len();
        let mut p: usize = 0;
        while p < k
            invariant
                self@.wf(),
                n < self@.n_nodes(),
                k == self@.qubits[n as int].len(),
                self@.node_wf(n as int),
                p <= k,
                forall|j: int| 0 <= j < p ==> self@.ins[n as int][j] is None && self@.outs[n as int][j] is None,
            decreases k - p,
        {
            if self.ins[n][p].is_some() || self.outs[n][p].is_some() {
                return false;
            }
            p = p + 1;
        }
        let ghost m = self@;
        self.live.set(n, false);
        proof {
            let m2 = CircuitModel { live: m.live.update(n as int, false), ..m };
            assert(self@ == m2);
            assert forall|x: int| 0 <= x < m2.n_nodes() implies #[trigger] m2.node_wf(x) by {
                assert(m.node_wf(x));
            }
            assert forall|x: int, q: int|
                0 <= x < m2.n_nodes() && 0 <= q < m2.outs[x].len() implies #[trigger] m2.out_link_ok(x, q) by {
                assert(m.out_link_ok(x, q));
            }
            assert forall|x: int, q: int|
                0 <= x < m2.n_nodes() && 0 <= q < m2.ins[x].len() implies #[trigger] m2.in_link_ok(x, q) by {
                assert(m.in_link_ok(x, q));
            }
            lemma_count_true_clear(m.live, n as int);
        }
        true
    }

    /// A copy of the circuit.
    pub fn duplicate(&self) -> (r: Circuit)
        requires
            self@.wf(),
        ensures
            r@ == self@,
    {
        let n = self.ops.len();
        let mut qubits: Vec<Vec<usize>> = Vec::new();
        let mut ins: Vec<Vec<Option<PortRef>>> = Vec::new();
        let mut outs: Vec<Vec<Option<PortRef>>> = Vec::new();
        let mut i: usize = 0;
        while i < n
            invariant
                self@.wf(),
                n == self@.n_nodes(),
                i <= n,
                qubits@.len() == i,
                ins@.len() == i,
                outs@.len() == i,
                forall|k: int| 0 <= k < i ==> qubits@[k]@ == self@.qubits[k],
                forall|k: int| 0 <= k < i ==> ins@[k]@ == self@.ins[k],
                forall|k: int| 0 <= k < i ==> outs@[k]@ == self@.outs[k],
            decreases n - i,
        {
            qubits.push(self.qubits[i].clone());
            ins.push(self.ins[i].clone());
            outs.push(self.outs[i].clone());
            i = i + 1;
        }
        let r = Circuit {
            n_qubits: self.n_qubits,
            ops: self.ops.clone(),
            qubits,
            ins,
            outs,
            live: self.live.clone(),
            phase: self.phase,
        };
        proof {
            assert(r@.qubits =~= self@.qubits);
            assert(r@.ins =~= self@.ins);
            assert(r@.outs =~= self@.outs);
            assert(r@.ops =~= self@.ops);
            assert(r@.live =~= self@.live);
        }
        r
    }

    /// The number of operations of the circuit (boundary nodes excluded).
    pub fn num_gates(&self) -> (r: usize)
        requires
            self@.wf(),
        ensures
            r + 2 == self@.live_count(),
    {
        let n = self.live.len();
        let mut count: usize = 0;
        let mut k: usize = 0;
        while k < n
            invariant
                self@.wf(),
                n == self@.n_nodes(),
                k <= n,
                count == count_true(self@.live.take(k as int)),
                count <= k,
            decreases n - k,
        {
            proof {
                assert(self@.live.take(k + 1).drop_last() =~= self@.live.take(k as int));
            }
            if self.live[k] {
                count = count + 1;
            }
            k = k + 1;
        }
        proof {
            assert(self@.live.take(n as int) =~= self@.live);
            crate::rewrite::lemma_live_at_least_two(self@);
        }
        count - 2
    }

    /// The number of qubits of the circuit.
    pub fn qubit_count(&self) -> (r: usize)
        ensures
            r == self@.n_qubits,
    {
        self.n_qubits
    }

    /// Take out the wire of qubit `input_port`, which must run straight from
    /// Input to Output (or be free) with no operation on it: Input and Output
    /// lose that port, and later ports and qubits move down by one.
    pub fn remove_empty_wire(&mut self, input_port: usize) -> (r: Result<(), CircuitMutError>)
        requires
            old(self)@.wf(),
        ensures
            final(self)@.wf(),
            input_port >= old(self)@.n_qubits ==> r == Err::<(), CircuitMutError>(
                CircuitMutError::InvalidPortOffset(input_port),
            ),
            input_port < old(self)@.n_qubits && !old(self)@.wire_is_empty(input_port) ==> r == Err::<
                (),
                CircuitMutError,
            >(CircuitMutError::DeleteNonEmptyWire(input_port)),
            r is Ok <==> old(self)@.wire_is_empty(input_port),
            r is Ok ==> final(self)@ == old(self)@.without_wire(input_port),
            r is Err ==> final(self)@ == old(self)@,
    {
        let q = input_port;
        if q >= self.n_qubits {
            return Err(CircuitMutError::InvalidPortOffset(q));
        }
        let ghost m = self@;
        proof {
            assert(m.node_wf(INPUT as int));
            assert(m.node_wf(OUTPUT as int));
        }
        if let Some(d) = self.outs[INPUT][q] {
            if d.node != OUTPUT || d.port != q {
                return Err(CircuitMutError::DeleteNonEmptyWire(q));
            }
        }
        let n = self.ops.len();
        let mut k: usize = 2;
        while k < n
            invariant
                self@ == m,
                m == old(self)@,
                q == input_port,
                m.wf(),
                n == m.n_nodes(),
                2 <= k <= n,
                q < m.n_qubits,
                forall|x: int, p: int|
                    0 <= x < k && !is_io(x) && m.live[x] && 0 <= p < m.qubits[x].len() ==> #[trigger] m.qubits[x][p] != q,
            decreases n - k,
        {
            let mut p: usize = 0;
            while self.live[k] && p < self.qubits[k].len()
                invariant
                    self@ == m,
                    m == old(self)@,
                    q == input_port,
                    m.wf(),
                    n == m.n_nodes(),
                    2 <= k < n,
                    q < m.n_qubits,
                    p <= m.qubits[k as int].len(),
                    forall|y: int| 0 <= y < p ==> #[trigger] m.qubits[k as int][y] != q,
                decreases m.qubits[k as int].len() - p,
            {
                if self.qubits[k][p] == q {
                    proof {
                        assert(!is_io(k as int));
                        assert(m.qubits[k as int][p as int] == q);
                    }
                    return Err(CircuitMutError::DeleteNonEmptyWire(q));
                }
                p = p + 1;
            }
            k = k + 1;
        }
        proof {
            assert(m.wire_is_empty(q));
            lemma_without_wire_wf(m, q);
        }
        let ghost m2 = m.without_wire(q);
        let mut qubits: Vec<Vec<usize>> = Vec::new();
        let mut ins: Vec<Vec<Option<PortRef>>> = Vec::new();
        let mut outs: Vec<Vec<Option<PortRef>>> = Vec::new();
        let mut k: usize = 0;
        while k < n
            invariant
                self@ == m,
                m == old(self)@,
                q == input_port,
                m.wf(),
                m.wire_is_empty(q),
                m2 == m.without_wire(q),
                n == m.n_nodes(),
                k <= n,
                qubits@.len() == k,
                ins@.len() == k,
                outs@.len() == k,
                forall|x: int| 0 <= x < k ==> #[trigger] qubits@[x]@ == m2.qubits[x],
                forall|x: int| 0 <= x < k ==> #[trigger] ins@[x]@ == m2.ins[x],
                forall|x: int| 0 <= x < k ==> #[trigger] outs@[x]@ == m2.outs[x],
            decreases n - k,
        {
            proof {
                assert(m.node_wf(k as int));
            }
            let width = self.qubits[k].len();
            let new_width = if k == INPUT || k == OUTPUT {
                width - 1
            } else if !self.live[k] {
                0
            } else {
                width
            };
            let mut qrow: Vec<usize> = Vec::new();
            let mut irow: Vec<Option<PortRef>> = Vec::new();
            let mut orow: Vec<Option<PortRef>> = Vec::new();
            let mut p: usize = 0;
            while p < new_width
                invariant
                    self@ == m,
                    m.wf(),
                    m2 == m.without_wire(q),
                    n == m.n_nodes(),
                    k < n,
                    m.node_wf(k as int),
                    width == m.qubits[k as int].len(),
                    new_width == new_port_count(m, k as int),
                    q < m.n_qubits,
                    p <= new_width,
                    qrow@.len() == p,
                    irow@.len() == p,
                    orow@.len() == p,
                    forall|y: int| 0 <= y < p ==> #[trigger] qrow@[y] == m2.qubits[k as int][y],
                    forall|y: int| 0 <= y < p ==> #[trigger] irow@[y] == m2.ins[k as int][y],
                    forall|y: int| 0 <= y < p ==> #[trigger] orow@[y] == m2.outs[k as int][y],
                decreases new_width - p,
            {
                let op = if (k == INPUT || k == OUTPUT) && p >= q { p + 1 } else { p };
                let x = self.qubits[k][op];
                qrow.push(if k == INPUT || k == OUTPUT { p } else if x > q { x - 1 } else { x });
                irow.push(shift_port_ref(self.ins[k][op], q));
                orow.push(shift_port_ref(self.outs[k][op], q));
                proof {
                    if is_io(k as int) {
                        assert(m2.qubits[k as int] == range_seq((m.n_qubits - 1) as nat));
                    }
                }
                p = p + 1;
            }
            proof {
                assert(qrow@ =~= m2.qubits[k as int]);
                assert(irow@ =~= m2.ins[k as int]);
                assert(orow@ =~= m2.outs[k as int]);
            }
            qubits.push(qrow);
            ins.push(irow);
            outs.push(orow);
            k = k + 1;
        }
        self.n_qubits = self.n_qubits - 1;
        self.qubits = qubits;
        self.ins = ins;
        self.outs = outs;
        proof {
            assert(self@.qubits =~= m2.qubits);
            assert(self@.ins =~= m2.ins);
            assert(self@.outs =~= m2.outs);
        }
        Ok(())
    }

    /// The Input node of the circuit.
    pub fn input_node(&self) -> (r: usize)
        ensures
            r == INPUT,
    {
        INPUT
    }

    /// The Output node of the circuit.
    pub fn output_node(&self) -> (r: usize)
        ensures
            r == OUTPUT,
    {
        OUTPUT
    }

    /// The Input and Output nodes of the circuit.
    pub fn io_nodes(&self) -> (r: [usize; 2])
        ensures
            r[0] == INPUT,
            r[1] == OUTPUT,
    {
        [INPUT, OUTPUT]
    }

    /// Number of qubits of the circuit.
    pub fn n_qubits(&self) -> (r: usize)
        ensures
            r == self@.n_qubits,
    {
        self.n_qubits
    }

    /// Number of node slots, live or removed, boundary nodes included.
    pub fn node_count(&self) -> (r: usize)
        ensures
            r == self@.n_nodes(),
    {
        self.ops.len()
    }

    /// The global phase, in eighths of a turn.
    pub fn phase(&self) -> (r: i64)
        ensures
            r == self@.phase,
    {
        self.phase
    }

    /// Whether `n` names a live node.
    pub fn contains_node(&self, n: usize) -> (r: bool)
        requires
            self@.wf(),
        ensures
            r == self@.is_live(n as int),
    {
        n < self.live.len() && self.live[n]
    }

    /// The operation at node `n`.
    pub fn op(&self, n: usize) -> (r: Op)
        requires
            n < self@.n_nodes(),
        ensures
            r == self@.ops[n as int],
    {
        self.ops[n]
    }

    /// The qubits carried by the ports of node `n`.
    pub fn node_qubits(&self, n: usize) -> (r: &Vec<usize>)
        requires
            self@.wf(),
            n < self@.n_nodes(),
        ensures
            r@ == self@.qubits[n as int],
    {
        &self.qubits[n]
    }

    /// The outgoing port linked to incoming port `p` of node `n`.
    pub fn linked_in(&self, n: usize, p: usize) -> (r: Option<PortRef>)
        requires
            self@.wf(),
            n < self@.n_nodes(),
            p < self@.ins[n as int].len(),
        ensures
            r == self@.ins[n as int][p as int],
    {
        self.ins[n][p]
    }

    /// The incoming port linked to outgoing port `p` of node `n`.
    pub fn linked_out(&self, n: usize, p: usize) -> (r: Option<PortRef>)
        requires
            self@.wf(),
            n < self@.n_nodes(),
            p < self@.outs[n as int].len(),
        ensures
            r == self@.outs[n as int][p as int],
    {
        self.outs[n][p]
    }
    /// Link outgoing port `sp` of `src` to incoming port `dp` of `dst`.
    pub fn connect(&mut self, src: usize, sp: usize, dst: usize, dp: usize) -> (r: Result<
        (),
        CircuitMutError,
    >)
        requires
            old(self)@.wf(),
        ensures
            final(self)@.wf(),
            r is Ok <==> old(self)@.can_connect(src as int, sp as int, dst as int, dp as int),
            r is Ok ==> final(self)@ == old(self)@.with_link(src as int, sp as int, dst as int, dp as int),
            r is Err ==> final(self)@ == old(self)@,
            r matches Err(e) ==> e == connect_error(old(self)@, src, sp, dst, dp),
    {
        if src >= self.ops.len() || !self.live[src] || src == OUTPUT {
            return Err(CircuitMutError::InvalidNode(src));
        }
        if dst >= self.ops.len() || !self.live[dst] || dst == INPUT {
            return Err(CircuitMutError::InvalidNode(dst));
        }
        if sp >= self.outs[src].len() {
            return Err(CircuitMutError::InvalidPortOffset(sp));
        }
        if dp >= self.ins[dst].len() {
            return Err(CircuitMutError::InvalidPortOffset(dp));
        }
        if self.outs[src][sp].is_some() {
            return Err(CircuitMutError::PortInUse(sp));
        }
        if self.ins[dst][dp].is_some() {
            return Err(CircuitMutError::PortInUse(dp));
        }
        proof {
            assert(self@.node_wf(src as int));
            assert(self@.node_wf(dst as int));
        }
        if self.qubits[src][sp] != self.qubits[dst][dp] {
            return Err(CircuitMutError::QubitMismatch(dp));
        }
        let ghost m = self@;
        self.outs[src].set(sp, Some(PortRef { node: dst, port: dp }));
        self.ins[dst].set(dp, Some(PortRef { node: src, port: sp }));
        proof {
            let m2 = m.with_link(src as int, sp as int, dst as int, dp as int);
            assert(self@.outs =~~= m2.outs);
            assert(self@.ins =~~= m2.ins);
            assert(self@.qubits =~~= m2.qubits);
            lemma_with_link_wf(m, src as int, sp as int, dst as int, dp as int);
        }
        Ok(())
    }

    /// Remove the link at outgoing port `p` of node `n`, if any; returns the
    /// incoming port it led to.
    pub fn disconnect_out(&mut self, n: usize, p: usize) -> (r: Option<PortRef>)
        requires
            old(self)@.wf(),
            n < old(self)@.n_nodes(),
            p < old(self)@.outs[n as int].len(),
        ensures
            final(self)@.wf(),
            r == old(self)@.outs[n as int][p as int],
            r matches Some(d) ==> final(self)@ == old(self)@.without_link(n as int, p as int, d.node as int, d.port as int),
            r is None ==> final(self)@ == old(self)@,
    {
        let r = self.outs[n][p];
        if let Some(d) = r {
            let ghost m = self@;
            proof {
                lemma_without_link_wf(m, n as int, p as int);
            }
            self.outs[n].set(p, None);
            self.ins[d.node].set(d.port, None);
            proof {
                let m2 = m.without_link(n as int, p as int, d.node as int, d.port as int);
                assert(self@.outs =~~= m2.outs);
                assert(self@.ins =~~= m2.ins);
                assert(self@.qubits =~~= m2.qubits);
            }
        }
        r
    }

    /// Remove the link at incoming port `p` of node `n`, if any; returns the
    /// outgoing port it came from.
    pub fn disconnect_in(&mut self, n: usize, p: usize) -> (r: Option<PortRef>)
        requires
            old(self)@.wf(),
            n < old(self)@.n_nodes(),
            p < old(self)@.ins[n as int].len(),
        ensures
            final(self)@.wf(),
            r == old(self)@.ins[n as int][p as int],
            r matches Some(s) ==> final(self)@ == old(self)@.without_link(s.node as int, s.port as int, n as int, p as int),
            r is None ==> final(self)@ == old(self)@,
    {
        let r = self.ins[n][p];
        if let Some(s) = r {
            proof {
                assert(self@.in_link_ok(n as int, p as int));
            }
            self.disconnect_out(s.node, s.port);
        }
        r
    }
}

} // verus!
