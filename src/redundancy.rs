//! Redundancy removal: operations that are the identity up to a global
//! phase are cut out (their phase goes to the circuit), and an operation
//! followed directly by its adjoint on all of its wires is cut out with it.
use vstd::prelude::*;

use crate::ops::{op_dagger, op_identity_phase};
use crate::circuit::{
    count_true, lemma_count_true_clear, phase_add, Circuit, CircuitModel, Direction, Edge, PortRef,
    INPUT, OUTPUT, PHASE_PERIOD,
};

verus! {

/// The edges at `node` in `direction`, in port order.
pub fn get_boundary(circ: &Circuit, node: usize, direction: Direction) -> (r: Vec<Edge>)
    requires
        circ@.wf(),
        node < circ@.n_nodes(),
    ensures
        r@ == circ@.boundary(node as int, direction),
{
    proof {
        assert(circ@.node_wf(node as int));
    }
    let k = circ.node_qubits(node).len();
    let mut r: Vec<Edge> = Vec::new();
    let mut p: usize = 0;
    while p < k
        invariant
            circ@.wf(),
            node < circ@.n_nodes(),
            circ@.node_wf(node as int),
            k == circ@.qubits[node as int].len(),
            p <= k,
            r@ == circ@.edges_upto(node as int, direction, p as nat),
        decreases k - p,
    {
        match direction {
            Direction::Incoming => {
                if let Some(s) = circ.linked_in(node, p) {
                    r.push(Edge { src: s, dst: PortRef { node, port: p } });
                }
            },
            Direction::Outgoing => {
                if let Some(d) = circ.linked_out(node, p) {
                    r.push(Edge { src: PortRef { node, port: p }, dst: d });
                }
            },
        }
        p = p + 1;
    }
    r
}

/// The qubit that each edge carries.
pub fn get_weights(circ: &Circuit, edges: &Vec<Edge>) -> (r: Vec<usize>)
    requires
        circ@.wf(),
        forall|i: int| 0 <= i < edges@.len() ==> circ@.has_edge(#[trigger] edges@[i]),
    ensures
        r@.len() == edges@.len(),
        forall|i: int|
            0 <= i < edges@.len() ==> r@[i] == circ@.qubits[edges@[i].dst.node as int][edges@[i].dst.port as int],
{
    let mut r: Vec<usize> = Vec::new();
    let mut i: usize = 0;
    while i < edges.len()
        invariant
            circ@.wf(),
            forall|j: int| 0 <= j < edges@.len() ==> circ@.has_edge(#[trigger] edges@[j]),
            i <= edges@.len(),
            r@.len() == i,
            forall|j: int|
                0 <= j < i ==> r@[j] == circ@.qubits[edges@[j].dst.node as int][edges@[j].dst.port as int],
        decreases edges@.len() - i,
    {
        let e = edges[i];
        proof {
            assert(circ@.has_edge(edges@[i as int]));
            assert(circ@.out_link_ok(e.src.node as int, e.src.port as int));
            assert(circ@.node_wf(e.dst.node as int));
        }
        r.push(circ.node_qubits(e.dst.node)[e.dst.port]);
        i = i + 1;
    }
    r
}

/// `set` with the nodes of the first `k` edges marked: their sources when
/// `sources` holds, else their targets.
pub open spec fn mark_ends(set: Seq<bool>, edges: Seq<Edge>, sources: bool, k: nat) -> Seq<bool>
    decreases k,
{
    if k == 0 {
        set
    } else {
        let e = edges[k - 1];
        mark_ends(set, edges, sources, (k - 1) as nat).update(
            if sources { e.src.node as int } else { e.dst.node as int },
            true,
        )
    }
}

/// `set` with the sources of `preds` and the targets of `succs` marked.
pub open spec fn with_neighbours(set: Seq<bool>, preds: Seq<Edge>, succs: Seq<Edge>) -> Seq<bool> {
    mark_ends(mark_ends(set, preds, true, preds.len()), succs, false, succs.len())
}

/// Mark the nodes that feed `preds` and that `succs` lead to.
pub fn add_neighbours(preds: &Vec<Edge>, succs: &Vec<Edge>, set: &mut Vec<bool>)
    requires
        forall|i: int| 0 <= i < preds@.len() ==> (#[trigger] preds@[i]).src.node < old(set)@.len(),
        forall|i: int| 0 <= i < succs@.len() ==> (#[trigger] succs@[i]).dst.node < old(set)@.len(),
    ensures
        final(set)@ == with_neighbours(old(set)@, preds@, succs@),
        final(set)@.len() == old(set)@.len(),
        forall|x: int| 0 <= x < old(set)@.len() && old(set)@[x] ==> final(set)@[x],
{
    let ghost orig = set@;
    let mut i: usize = 0;
    while i < preds.len()
        invariant
            forall|j: int| 0 <= j < preds@.len() ==> (#[trigger] preds@[j]).src.node < orig.len(),
            i <= preds@.len(),
            set@ == mark_ends(orig, preds@, true, i as nat),
            set@.len() == orig.len(),
            forall|x: int| 0 <= x < orig.len() && orig[x] ==> set@[x],
        decreases preds@.len() - i,
    {
        set.set(preds[i].src.node, true);
        i = i + 1;
    }
    let ghost mid = set@;
    let mut i: usize = 0;
    while i < succs.len()
        invariant
            forall|j: int| 0 <= j < succs@.len() ==> (#[trigger] succs@[j]).dst.node < orig.len(),
            i <= succs@.len(),
            set@ == mark_ends(mid, succs@, false, i as nat),
            set@.len() == orig.len(),
            mid.len() == orig.len(),
            forall|x: int| 0 <= x < orig.len() && orig[x] ==> mid[x],
            forall|x: int| 0 <= x < orig.len() && mid[x] ==> set@[x],
        decreases succs@.len() - i,
    {
        set.set(succs[i].dst.node, true);
        i = i + 1;
    }
}

/// Only links and removals differ between two models: the same operations
/// and qubits, and no node revived.
pub open spec fn only_removed(new: CircuitModel, old: CircuitModel) -> bool {
    &&& new.n_qubits == old.n_qubits
    &&& new.ops == old.ops
    &&& new.qubits == old.qubits
    &&& new.live.len() == old.live.len()
    &&& forall|i: int| 0 <= i < new.live.len() && #[trigger] new.live[i] ==> old.live[i]
}

/// The phases of the nodes among the first `k` that are live identities in
/// `old` and removed in `new`, summed.
pub open spec fn removed_phase(old: CircuitModel, new: CircuitModel, k: nat) -> int
    decreases k,
{
    if k == 0 {
        0
    } else {
        removed_phase(old, new, (k - 1) as nat) + removed_contribution(old, new, k - 1)
    }
}

/// The phase node `x` adds when it is a live identity in `old`, removed in
/// `new`.
pub open spec fn removed_contribution(old: CircuitModel, new: CircuitModel, x: int) -> int {
    if old.live[x] && !new.live[x] && op_identity_phase(old.ops[x]) is Some {
        op_identity_phase(old.ops[x]).unwrap() as int
    } else {
        0
    }
}

/// Removals of nodes that are not identities leave the removed phase as it
/// was.
pub proof fn lemma_removed_phase_same(orig: CircuitModel, n1: CircuitModel, n2: CircuitModel, k: nat)
    requires
        forall|x: int|
            0 <= x < k && n1.live[x] != n2.live[x] ==> !n2.live[x] && op_identity_phase(orig.ops[x]) is None,
    ensures
        removed_phase(orig, n2, k) == removed_phase(orig, n1, k),
    decreases k,
{
    if k > 0 {
        lemma_removed_phase_same(orig, n1, n2, (k - 1) as nat);
    }
}

/// Removing one more live node adds its contribution to the removed phase.
pub proof fn lemma_removed_phase_one(orig: CircuitModel, n1: CircuitModel, n2: CircuitModel, k: nat, y: int)
    requires
        0 <= y,
        forall|x: int| 0 <= x < k && x != y ==> n1.live[x] == n2.live[x],
        n1.live[y],
        !n2.live[y],
    ensures
        removed_phase(orig, n2, k) == removed_phase(orig, n1, k) + if y < k {
            removed_contribution(orig, n2, y)
        } else {
            0
        },
    decreases k,
{
    if k > 0 {
        lemma_removed_phase_one(orig, n1, n2, (k - 1) as nat, y);
        if k - 1 != y {
            assert(removed_contribution(orig, n1, k - 1) == removed_contribution(orig, n2, k - 1));
        } else {
            assert(removed_contribution(orig, n1, y) == 0);
        }
    }
}

/// Nothing removed, no phase.
pub proof fn lemma_removed_phase_zero(orig: CircuitModel, k: nat)
    ensures
        removed_phase(orig, orig, k) == 0,
    decreases k,
{
    if k > 0 {
        lemma_removed_phase_zero(orig, (k - 1) as nat);
    }
}

/// No operation node left is the identity up to a phase.
pub open spec fn no_identity_left(m: CircuitModel) -> bool {
    forall|x: int| #[trigger] m.is_gate_node(x) ==> op_identity_phase(m.ops[x]) is None
}

/// Every outgoing port `p` of `x` leads to port `p` of `kid`, which has as
/// many ports as `x`, at least one.
pub open spec fn kid_of(m: CircuitModel, x: int, kid: int) -> bool {
    &&& m.qubits[x].len() > 0
    &&& 0 <= kid < m.n_nodes()
    &&& m.qubits[kid].len() == m.qubits[x].len()
    &&& forall|p: int|
        0 <= p < m.qubits[x].len() ==> m.outs[x][p] == Some(PortRef { node: kid as usize, port: p as usize })
}

/// The node that the first outgoing port of `x` leads to.
pub open spec fn first_next(m: CircuitModel, x: int) -> int {
    m.outs[x][0].unwrap().node as int
}

/// Operation node `x` is followed on every wire by a node holding its
/// adjoint.
pub open spec fn adjoint_pair(m: CircuitModel, x: int) -> bool {
    &&& m.is_gate_node(x)
    &&& m.qubits[x].len() > 0
    &&& m.outs[x][0] is Some
    &&& kid_of(m, x, first_next(m, x))
    &&& op_dagger(m.ops[first_next(m, x)]) == Some(m.ops[x])
}

/// No operation node is followed on every wire by its adjoint.
pub open spec fn no_pair_left(m: CircuitModel) -> bool {
    forall|x: int| 0 <= x < m.n_nodes() ==> !#[trigger] adjoint_pair(m, x)
}

/// The operation node that every outgoing port of `n` leads to, at the same
/// port, when there is one and it has as many ports as `n`.
pub fn single_kid(circ: &Circuit, n: usize) -> (r: Option<usize>)
    requires
        circ@.wf(),
        n < circ@.n_nodes(),
    ensures
        r is Some <==> (circ@.qubits[n as int].len() > 0 && circ@.outs[n as int][0] is Some && kid_of(
            circ@,
            n as int,
            first_next(circ@, n as int),
        )),
        r matches Some(kid) ==> kid == first_next(circ@, n as int),
        r matches Some(kid) ==> {
            &&& circ@.qubits[n as int].len() > 0
            &&& kid < circ@.n_nodes()
            &&& circ@.qubits[kid as int].len() == circ@.qubits[n as int].len()
            &&& forall|p: int|
                0 <= p < circ@.qubits[n as int].len() ==> circ@.outs[n as int][p] == Some(
                    PortRef { node: kid, port: p as usize },
                )
        },
{
    proof {
        assert(circ@.node_wf(n as int));
    }
    let k = circ.node_qubits(n).len();
    if k == 0 {
        return None;
    }
    let kid = match circ.linked_out(n, 0) {
        Some(d) => d.node,
        None => return None,
    };
    proof {
        assert(circ@.out_link_ok(n as int, 0));
        assert(circ@.node_wf(kid as int));
    }
    if circ.node_qubits(kid).len() != k {
        return None;
    }
    let mut p: usize = 0;
    while p < k
        invariant
            circ@.wf(),
            n < circ@.n_nodes(),
            circ@.node_wf(n as int),
            k == circ@.qubits[n as int].len(),
            p <= k,
            circ@.outs[n as int][0] is Some,
            kid == first_next(circ@, n as int),
            forall|j: int| 0 <= j < p ==> circ@.outs[n as int][j] == Some(PortRef { node: kid, port: j as usize }),
        decreases k - p,
    {
        match circ.linked_out(n, p) {
            Some(d) => {
                if d.node != kid || d.port != p {
                    proof {
                        assert(circ@.outs[n as int][p as int] == Some(d));
                        assert(circ@.outs[n as int][p as int] != Some(PortRef { node: kid, port: p }));
                    }
                    return None;
                }
            },
            None => {
                return None;
            },
        }
        p = p + 1;
    }
    Some(kid)
}

/// Cut a one-qubit node out of its wire, linking its neighbours, and
/// remove it; returns whether it was removed.
fn remove_single(circ: &mut Circuit, k: usize) -> (r: bool)
    requires
        old(circ)@.wf(),
        k < old(circ)@.n_nodes(),
        old(circ)@.qubits[k as int].len() == 1,
    ensures
        final(circ)@.wf(),
        only_removed(final(circ)@, old(circ)@),
        final(circ)@.phase == old(circ)@.phase,
        r ==> final(circ)@.live_count() < old(circ)@.live_count(),
        !r ==> final(circ)@.live == old(circ)@.live,
        old(circ)@.is_gate_node(k as int) ==> r && !final(circ)@.live[k as int],
        forall|x: int| 0 <= x < old(circ)@.live.len() && x != k ==> #[trigger] final(circ)@.live[x] == old(circ)@.live[x],
{
    let ghost m0 = circ@;
    proof {
        assert(circ@.node_wf(k as int));
    }
    let s = circ.disconnect_in(k, 0);
    let ghost m1 = circ@;
    proof {
        assert(circ@.node_wf(k as int));
        if let Some(sr) = s {
            assert(m0.in_link_ok(k as int, 0));
            crate::rewrite::lemma_unlink_frees(m0, sr.node as int, sr.port as int, k as int, 0);
        }
        assert(m1.ins[k as int][0] is None);
    }
    let d = circ.disconnect_out(k, 0);
    let ghost m2 = circ@;
    proof {
        if let Some(dr) = d {
            assert(m1.out_link_ok(k as int, 0));
            crate::rewrite::lemma_unlink_frees(m1, k as int, 0, dr.node as int, dr.port as int);
        }
        assert(m2.ins[k as int][0] is None);
        assert(m2.outs[k as int][0] is None);
    }
    if let (Some(s), Some(d)) = (s, d) {
        proof {
            assert(m0.in_link_ok(k as int, 0));
            assert(m1.out_link_ok(k as int, 0));
            if s.node == k {
                assert(m0.node_wf(k as int));
                assert(s.port == 0);
                assert(m1.outs[k as int][0] is None);
            }
            if d.node == k {
                assert(m0.node_wf(k as int));
                assert(d.port == 0);
            }
        }
        let _ = circ.connect(s.node, s.port, d.node, d.port);
    }
    proof {
        assert(circ@.node_wf(k as int));
        assert(circ@.ins[k as int][0] is None);
        assert(circ@.outs[k as int][0] is None);
    }
    circ.remove_node(k)
}

/// Cut every link of node `x`.
fn detach(circ: &mut Circuit, x: usize) -> (r: (Vec<Option<PortRef>>, Vec<Option<PortRef>>))
    requires
        old(circ)@.wf(),
        x < old(circ)@.n_nodes(),
    ensures
        final(circ)@.wf(),
        final(circ)@.same_nodes(old(circ)@),
        forall|p: int|
            0 <= p < final(circ)@.qubits[x as int].len() ==> final(circ)@.ins[x as int][p] is None
                && final(circ)@.outs[x as int][p] is None,
        forall|y: int, p: int|
            0 <= y < old(circ)@.n_nodes() && 0 <= p < old(circ)@.ins[y].len() && old(circ)@.ins[y][p] is None
                ==> #[trigger] final(circ)@.ins[y][p] is None,
        forall|y: int, p: int|
            0 <= y < old(circ)@.n_nodes() && 0 <= p < old(circ)@.outs[y].len() && old(circ)@.outs[y][p] is None
                ==> #[trigger] final(circ)@.outs[y][p] is None,
        r.0@.len() == old(circ)@.qubits[x as int].len(),
        r.1@.len() == old(circ)@.qubits[x as int].len(),
{
    let ghost orig = circ@;
    proof {
        assert(circ@.node_wf(x as int));
    }
    let k = circ.node_qubits(x).len();
    let mut srcs: Vec<Option<PortRef>> = Vec::new();
    let mut dsts: Vec<Option<PortRef>> = Vec::new();
    let mut p: usize = 0;
    while p < k
        invariant
            circ@.wf(),
            orig.wf(),
            circ@.same_nodes(orig),
            x < orig.n_nodes(),
            orig.node_wf(x as int),
            k == orig.qubits[x as int].len(),
            p <= k,
            srcs@.len() == p,
            dsts@.len() == p,
            forall|j: int| 0 <= j < p ==> circ@.ins[x as int][j] is None && circ@.outs[x as int][j] is None,
            forall|y: int, q: int|
                0 <= y < orig.n_nodes() && 0 <= q < orig.ins[y].len() && orig.ins[y][q] is None
                    ==> #[trigger] circ@.ins[y][q] is None,
            forall|y: int, q: int|
                0 <= y < orig.n_nodes() && 0 <= q < orig.outs[y].len() && orig.outs[y][q] is None
                    ==> #[trigger] circ@.outs[y][q] is None,
        decreases k - p,
    {
        proof {
            assert(circ@.node_wf(x as int));
        }
        let ghost b0 = circ@;
        let s = circ.disconnect_in(x, p);
        proof {
            if let Some(sr) = s {
                assert(b0.in_link_ok(x as int, p as int));
                crate::rewrite::lemma_unlink_frees(b0, sr.node as int, sr.port as int, x as int, p as int);
            }
            assert(circ@.node_wf(x as int));
        }
        let ghost b1 = circ@;
        let d = circ.disconnect_out(x, p);
        proof {
            if let Some(dr) = d {
                assert(b1.out_link_ok(x as int, p as int));
                crate::rewrite::lemma_unlink_frees(b1, x as int, p as int, dr.node as int, dr.port as int);
            }
            assert forall|y: int, q: int|
                0 <= y < orig.n_nodes() && 0 <= q < orig.ins[y].len() && orig.ins[y][q] is None
                    implies #[trigger] circ@.ins[y][q] is None by {
                assert(orig.node_wf(y));
                assert(b0.node_wf(y));
                assert(b1.node_wf(y));
            }
            assert forall|y: int, q: int|
                0 <= y < orig.n_nodes() && 0 <= q < orig.outs[y].len() && orig.outs[y][q] is None
                    implies #[trigger] circ@.outs[y][q] is None by {
                assert(orig.node_wf(y));
                assert(b0.node_wf(y));
                assert(b1.node_wf(y));
            }
            assert forall|j: int| 0 <= j < p + 1 implies circ@.ins[x as int][j] is None && circ@.outs[x as int][j] is None by {
                if j < p {
                    assert(b0.ins[x as int][j] is None && b0.outs[x as int][j] is None);
                }
            }
        }
        srcs.push(s);
        dsts.push(d);
        p = p + 1;
    }
    (srcs, dsts)
}

/// Cut node `a` and the node `b` that follows it on every wire out of the
/// circuit, linking what fed `a` to what `b` fed, port by port, and remove
/// both; returns whether any node was removed. Both are removed whenever
/// both are operation nodes.
fn remove_pair(circ: &mut Circuit, a: usize, b: usize) -> (r: bool)
    requires
        old(circ)@.wf(),
        a < old(circ)@.n_nodes(),
        b < old(circ)@.n_nodes(),
        old(circ)@.qubits[a as int].len() == old(circ)@.qubits[b as int].len(),
    ensures
        final(circ)@.wf(),
        only_removed(final(circ)@, old(circ)@),
        final(circ)@.phase == old(circ)@.phase,
        r ==> final(circ)@.live_count() < old(circ)@.live_count(),
        !r ==> final(circ)@.live == old(circ)@.live,
        forall|x: int|
            0 <= x < old(circ)@.live.len() && x != a && x != b ==> #[trigger] final(circ)@.live[x] == old(circ)@.live[x],
        old(circ)@.is_gate_node(a as int) && old(circ)@.is_gate_node(b as int) ==> r && !final(circ)@.live[a as int]
            && !final(circ)@.live[b as int],
{
    let ghost orig = circ@;
    let (srcs, _a_outs) = detach(circ, a);
    let ghost m1 = circ@;
    let (_b_ins, dsts) = detach(circ, b);
    let ghost m2 = circ@;
    proof {
        assert(m1.node_wf(a as int));
        assert(orig.node_wf(a as int));
        assert(orig.node_wf(b as int));
        assert forall|p: int| 0 <= p < m2.qubits[a as int].len() implies m2.ins[a as int][p] is None
            && m2.outs[a as int][p] is None by {}
    }
    let k = srcs.len();
    let mut p: usize = 0;
    while p < k
        invariant
            circ@.wf(),
            circ@.same_nodes(orig),
            a < orig.n_nodes(),
            b < orig.n_nodes(),
            k == srcs@.len(),
            k == dsts@.len(),
            forall|j: int| 0 <= j < circ@.qubits[a as int].len() ==> circ@.ins[a as int][j] is None && circ@.outs[a as int][j] is None,
            forall|j: int| 0 <= j < circ@.qubits[b as int].len() ==> circ@.ins[b as int][j] is None && circ@.outs[b as int][j] is None,
        decreases k - p,
    {
        if let (Some(s), Some(d)) = (srcs[p], dsts[p]) {
            if s.node != a && s.node != b && d.node != a && d.node != b {
                let _ = circ.connect(s.node, s.port, d.node, d.port);
            }
        }
        p = p + 1;
    }
    let ghost mid = circ@;
    let ra = circ.remove_node(a);
    let ghost after_a = circ@;
    let rb = circ.remove_node(b);
    proof {
        assert forall|i: int| 0 <= i < circ@.live.len() && #[trigger] circ@.live[i] implies orig.live[i] by {
            assert(after_a.live[i]);
        }
        if orig.is_gate_node(a as int) && orig.is_gate_node(b as int) {
            assert(mid.is_gate_node(a as int));
            assert(ra);
            if a != b {
                assert(after_a.is_gate_node(b as int));
                assert(forall|j: int| 0 <= j < after_a.qubits[b as int].len() ==> after_a.ins[b as int][j] is None && after_a.outs[b as int][j] is None);
                assert(rb);
            }
        }
    }
    ra || rb
}

/// An operation node that is the identity up to a phase, or is followed on
/// every wire by its adjoint, if there is one.
fn find_redundant(circ: &Circuit) -> (r: Option<usize>)
    requires
        circ@.wf(),
    ensures
        r matches Some(x) ==> circ@.is_gate_node(x as int) && (op_identity_phase(circ@.ops[x as int]) is Some
            || adjoint_pair(circ@, x as int)),
        r is None ==> no_identity_left(circ@) && no_pair_left(circ@),
{
    let n = circ.node_count();
    let mut x: usize = 0;
    while x < n
        invariant
            circ@.wf(),
            n == circ@.n_nodes(),
            x <= n,
            forall|y: int| 0 <= y < x && #[trigger] circ@.is_gate_node(y) ==> op_identity_phase(circ@.ops[y]) is None,
            forall|y: int| 0 <= y < x ==> !#[trigger] adjoint_pair(circ@, y),
        decreases n - x,
    {
        if x >= 2 && circ.contains_node(x) {
            let op = circ.op(x);
            if op.identity_up_to_phase().is_some() {
                return Some(x);
            }
            if let Some(kid) = single_kid(circ, x) {
                proof {
                    assert(circ@.node_wf(x as int));
                    assert(circ@.out_link_ok(x as int, 0));
                }
                if circ.op(kid).dagger() == Some(op) {
                    return Some(x);
                }
            }
        }
        x = x + 1;
    }
    None
}

/// Remove operations that are the identity up to a global phase, adding
/// their phase to the circuit's, and operations followed on all of their
/// wires by their adjoint, together with it.
///
/// Only removals and relinking happen: operations and qubits stay, and no
/// removed node comes back. When the pass ends no identity is left, no
/// operation is followed on all of its wires by its adjoint, and the
/// circuit's phase has gained the phases of the removed identities.
pub fn remove_redundancies(circ: Circuit) -> (r: Circuit)
    requires
        circ@.wf(),
    ensures
        r@.wf(),
        only_removed(r@, circ@),
        r@.live_count() <= circ@.live_count(),
        no_identity_left(r@),
        no_pair_left(r@),
        r@.phase == phase_add(circ@.phase, removed_phase(circ@, r@, circ@.n_nodes())),
{
    let mut circ = circ;
    let ghost orig = circ@;
    let n = circ.node_count();
    let mut candidates: Vec<bool> = Vec::new();
    let mut i: usize = 0;
    while i < n
        invariant
            i <= n,
            candidates@.len() == i,
            forall|x: int| 0 <= x < i ==> candidates@[x],
        decreases n - i,
    {
        candidates.push(true);
        i = i + 1;
    }
    proof {
        lemma_removed_phase_zero(orig, n as nat);
        vstd::arithmetic::div_mod::lemma_small_mod(orig.phase as nat, PHASE_PERIOD as nat);
    }
    loop
        invariant
            circ@.wf(),
            only_removed(circ@, orig),
            circ@.live_count() <= orig.live_count(),
            n == circ@.n_nodes(),
            n == orig.n_nodes(),
            orig.wf(),
            circ@.phase == phase_add(orig.phase, removed_phase(orig, circ@, n as nat)),
            candidates@.len() == n,
            forall|x: int|
                0 <= x < n && #[trigger] circ@.is_gate_node(x) && op_identity_phase(circ@.ops[x]) is Some
                    ==> candidates@[x],
        ensures
            circ@.wf(),
            only_removed(circ@, orig),
            circ@.live_count() <= orig.live_count(),
            no_identity_left(circ@),
            no_pair_left(circ@),
            circ@.phase == phase_add(orig.phase, removed_phase(orig, circ@, n as nat)),
        decreases circ@.live_count(), count_true(candidates@),
    {
        let mut k: usize = 0;
        while k < n && !candidates[k]
            invariant
                k <= n,
                candidates@.len() == n,
                forall|x: int| 0 <= x < k ==> !candidates@[x],
            decreases n - k,
        {
            k = k + 1;
        }
        let ghost c0 = circ@;
        let ghost cand0 = candidates@;
        let ghost scanned = k == n;
        if k == n {
            match find_redundant(&circ) {
                None => {
                    break;
                },
                Some(x) => {
                    k = x;
                },
            }
        } else {
            proof {
                lemma_count_true_clear(candidates@, k as int);
            }
            candidates.set(k, false);
        }
        proof {
            if scanned && !(op_identity_phase(c0.ops[k as int]) is Some) {
                assert(adjoint_pair(c0, k as int));
                let kid = first_next(c0, k as int);
                assert(c0.node_wf(k as int));
                assert(c0.out_link_ok(k as int, 0));
                assert(c0.node_wf(kid));
                assert(c0.is_gate_node(kid));
            }
        }
        if circ.contains_node(k) && k != INPUT && k != OUTPUT {
            proof {
                assert(circ@.node_wf(k as int));
            }
            let op = circ.op(k);
            if let Some(phase) = op.identity_up_to_phase() {
                let preds = get_boundary(&circ, k, Direction::Incoming);
                let succs = get_boundary(&circ, k, Direction::Outgoing);
                let ghost before = circ@;
                let single = remove_single(&mut circ, k);
                let ghost after = circ@;
                if !single {
                    proof {
                        lemma_removed_phase_same(orig, before, after, n as nat);
                    }
                }
                if single {
                    proof {
                        lemma_boundary_nodes(before, k as int);
                        assert(!after.live[k as int]);
                        lemma_removed_phase_one(orig, before, after, n as nat, k as int);
                        assert(orig.live[k as int]);
                        assert(removed_contribution(orig, after, k as int) == phase as int);
                        vstd::arithmetic::div_mod::lemma_add_mod_noop_right(
                            phase as int,
                            orig.phase + removed_phase(orig, before, n as nat),
                            PHASE_PERIOD as int,
                        );
                    }
                    add_neighbours(&preds, &succs, &mut candidates);
                    circ.add_phase(phase);
                    proof {
                        lemma_removed_phase_same(orig, after, circ@, n as nat);
                        assert(circ@.phase == phase_add(after.phase, phase as int));
                        assert(after.phase == before.phase);
                    }
                }
            } else if let Some(kid) = single_kid(&circ, k) {
                if circ.op(kid).dagger() == Some(op) {
                    let preds = get_boundary(&circ, k, Direction::Incoming);
                    let succs = get_boundary(&circ, kid, Direction::Outgoing);
                    let ghost before = circ@;
                    let removed = remove_pair(&mut circ, k, kid);
                    proof {
                        let after = circ@;
                        assert(op_identity_phase(orig.ops[k as int]) is None);
                        assert(op_identity_phase(orig.ops[kid as int]) is None);
                        lemma_removed_phase_same(orig, before, after, n as nat);
                    }
                    if removed {
                        proof {
                            lemma_boundary_nodes(before, k as int);
                            lemma_boundary_nodes(before, kid as int);
                        }
                        add_neighbours(&preds, &succs, &mut candidates);
                    }
                }
            }
        }
        proof {
            assert forall|x: int|
                0 <= x < n && #[trigger] circ@.is_gate_node(x) && op_identity_phase(circ@.ops[x]) is Some
                    implies candidates@[x] by {
                assert(c0.live[x]);
                assert(c0.is_gate_node(x));
                assert(cand0[x]);
                if x != k as int {
                    assert(candidates@[x]);
                }
            }
        }
    }
    circ
}

/// The edges at a node lead to nodes of the circuit.
pub proof fn lemma_boundary_nodes(m: CircuitModel, n: int)
    requires
        m.wf(),
        0 <= n < m.n_nodes(),
    ensures
        forall|i: int|
            0 <= i < m.boundary(n, Direction::Incoming).len() ==> (#[trigger] m.boundary(
                n,
                Direction::Incoming,
            )[i]).src.node < m.n_nodes(),
        forall|i: int|
            0 <= i < m.boundary(n, Direction::Outgoing).len() ==> (#[trigger] m.boundary(
                n,
                Direction::Outgoing,
            )[i]).dst.node < m.n_nodes(),
{
    assert(m.node_wf(n));
    lemma_edges_upto_nodes(m, n, Direction::Incoming, m.qubits[n].len());
    lemma_edges_upto_nodes(m, n, Direction::Outgoing, m.qubits[n].len());
}

/// The far end of each edge at the first ports of a node is a node.
pub proof fn lemma_edges_upto_nodes(m: CircuitModel, n: int, dir: Direction, k: nat)
    requires
        m.wf(),
        0 <= n < m.n_nodes(),
        k <= m.qubits[n].len(),
    ensures
        forall|i: int|
            0 <= i < m.edges_upto(n, dir, k).len() ==> (match dir {
                Direction::Incoming => (#[trigger] m.edges_upto(n, dir, k)[i]).src.node,
                Direction::Outgoing => m.edges_upto(n, dir, k)[i].dst.node,
            }) < m.n_nodes(),
    decreases k,
{
    assert(m.node_wf(n));
    if k > 0 {
        lemma_edges_upto_nodes(m, n, dir, (k - 1) as nat);
        assert(m.in_link_ok(n, k - 1));
        assert(m.out_link_ok(n, k - 1));
        let rest = m.edges_upto(n, dir, (k - 1) as nat);
        let all = m.edges_upto(n, dir, k);
        assert forall|i: int| 0 <= i < rest.len() implies all[i] == rest[i] by {}
    }
}

} // verus!
