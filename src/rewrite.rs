//! Convex subcircuits, and rewrites that replace one by another circuit.
use vstd::prelude::*;

use crate::circuit::{
    count_true, lemma_count_true_clear, phase_add, Circuit, CircuitModel, PortRef, INPUT, OUTPUT,
    PHASE_PERIOD,
};

verus! {

/// Some outgoing port of `a` is linked to a port of `b`.
pub open spec fn linked(m: CircuitModel, a: usize, b: usize) -> bool {
    exists|p: int|
        0 <= p < m.outs[a as int].len() && (#[trigger] m.outs[a as int][p] matches Some(r) && r.node == b)
}

/// `path` follows links from node to node.
pub open spec fn is_path(m: CircuitModel, path: Seq<usize>) -> bool {
    &&& path.len() >= 1
    &&& forall|i: int| 0 <= i < path.len() - 1 ==> #[trigger] linked(m, path[i], path[i + 1])
}

/// `path` leaves the node set `s` at its start and stays out of it after.
pub open spec fn leaves(m: CircuitModel, s: Seq<usize>, path: Seq<usize>) -> bool {
    &&& is_path(m, path)
    &&& path.len() >= 2
    &&& s.contains(path[0])
    &&& forall|i: int| 1 <= i < path.len() ==> !s.contains(#[trigger] path[i])
}

/// `path` leaves the node set `s` and enters it again at its end.
pub open spec fn reenters(m: CircuitModel, s: Seq<usize>, path: Seq<usize>) -> bool {
    &&& path.len() >= 3
    &&& leaves(m, s, path.drop_last())
    &&& linked(m, path[path.len() - 2], path.last())
    &&& s.contains(path.last())
}

/// No path leaves the node set `s` and enters it again.
pub open spec fn is_convex(m: CircuitModel, s: Seq<usize>) -> bool {
    !exists|path: Seq<usize>| #[trigger] reenters(m, s, path)
}

/// Node `y` is reached by a path that leaves `s`.
pub open spec fn escapes(m: CircuitModel, s: Seq<usize>, y: usize) -> bool {
    exists|path: Seq<usize>| #[trigger] leaves(m, s, path) && path.last() == y
}

/// Successors of `s` outside it are reached; successors of reached nodes
/// are reached and outside `s`.
pub open spec fn reach_closed(m: CircuitModel, s: Seq<usize>, unreached: Seq<bool>) -> bool {
    &&& forall|k: int, p: int|
        0 <= k < s.len() && 0 <= p < m.outs[s[k] as int].len() ==> (#[trigger] m.outs[s[k] as int][p] matches Some(r)
            ==> s.contains(r.node) || !unreached[r.node as int])
    &&& forall|y: int, p: int|
        0 <= y < m.n_nodes() && !unreached[y] && 0 <= p < m.outs[y].len() ==> (#[trigger] m.outs[y][p] matches Some(r)
            ==> !s.contains(r.node) && !unreached[r.node as int])
}

/// A reach-closed marking admits no path that leaves `s` and comes back.
pub proof fn lemma_closure_convex(m: CircuitModel, s: Seq<usize>, unreached: Seq<bool>)
    requires
        m.wf(),
        unreached.len() == m.n_nodes(),
        forall|k: int| 0 <= k < s.len() ==> s[k] < m.n_nodes(),
        reach_closed(m, s, unreached),
    ensures
        is_convex(m, s),
{
    assert forall|path: Seq<usize>| !#[trigger] reenters(m, s, path) by {
        if reenters(m, s, path) {
            let pre = path.drop_last();
            lemma_path_reached(m, s, unreached, pre, pre.len() - 1);
            let y = pre.last();
            assert(y == path[path.len() - 2]);
            let b = path.last();
            let p = choose|p: int|
                0 <= p < m.outs[y as int].len() && (#[trigger] m.outs[y as int][p] matches Some(r) && r.node == b);
            assert(!unreached[y as int]);
        }
    }
}

/// Along a path leaving `s`, every node after the first is reached.
pub proof fn lemma_path_reached(m: CircuitModel, s: Seq<usize>, unreached: Seq<bool>, path: Seq<usize>, i: int)
    requires
        m.wf(),
        unreached.len() == m.n_nodes(),
        forall|k: int| 0 <= k < s.len() ==> s[k] < m.n_nodes(),
        reach_closed(m, s, unreached),
        leaves(m, s, path),
        1 <= i < path.len(),
    ensures
        path[i] < m.n_nodes(),
        !unreached[path[i] as int],
    decreases i,
{
    assert(linked(m, path[i - 1], path[(i - 1) + 1]));
    let a = path[i - 1];
    let p = choose|p: int|
        0 <= p < m.outs[a as int].len() && (#[trigger] m.outs[a as int][p] matches Some(r) && r.node == path[i]);
    if i == 1 {
        let k = choose|k: int| 0 <= k < s.len() && s[k] == path[0];
        assert(m.outs[s[k] as int][p] == m.outs[a as int][p]);
        assert(m.out_link_ok(a as int, p));
        assert(!s.contains(path[i]));
    } else {
        lemma_path_reached(m, s, unreached, path, i - 1);
        assert(m.out_link_ok(a as int, p));
    }
}

/// Every link of a well-formed circuit leads to one of its nodes.
pub proof fn lemma_out_targets(m: CircuitModel)
    requires
        m.wf(),
    ensures
        forall|a: int, p: int|
            0 <= a < m.n_nodes() && 0 <= p < m.outs[a].len() ==> (#[trigger] m.outs[a][p] matches Some(r)
                ==> r.node < m.n_nodes()),
{
    assert forall|a: int, p: int|
        0 <= a < m.n_nodes() && 0 <= p < m.outs[a].len() implies (#[trigger] m.outs[a][p] matches Some(r)
            ==> r.node < m.n_nodes()) by {
        assert(m.out_link_ok(a, p));
    }
}

/// Extending a path that leaves `s` by a link out of its last node.
pub proof fn lemma_extend_escape(m: CircuitModel, s: Seq<usize>, y: usize, q: int)
    requires
        escapes(m, s, y),
        0 <= q < m.outs[y as int].len(),
        m.outs[y as int][q] is Some,
    ensures
        !s.contains(m.outs[y as int][q].unwrap().node) ==> escapes(m, s, m.outs[y as int][q].unwrap().node),
        s.contains(m.outs[y as int][q].unwrap().node) ==> !is_convex(m, s),
{
    let b = m.outs[y as int][q].unwrap().node;
    let path = choose|path: Seq<usize>| #[trigger] leaves(m, s, path) && path.last() == y;
    let ext = path.push(b);
    assert(linked(m, y, b));
    assert forall|i: int| 0 <= i < ext.len() - 1 implies #[trigger] linked(m, ext[i], ext[i + 1]) by {
        if i < path.len() - 1 {
            assert(linked(m, path[i], path[i + 1]));
        }
    }
    assert(ext.drop_last() =~= path);
    if s.contains(b) {
        assert(reenters(m, s, ext));
    } else {
        assert forall|i: int| 1 <= i < ext.len() implies !s.contains(#[trigger] ext[i]) by {
            if i < path.len() {
                assert(ext[i] == path[i]);
            }
        }
        assert(leaves(m, s, ext));
    }
}

/// Whether no path leaves the node set `nodes` and enters it again.
pub fn check_convex(circ: &Circuit, nodes: &Vec<usize>) -> (r: bool)
    requires
        circ@.wf(),
        forall|k: int| 0 <= k < nodes@.len() ==> nodes@[k] < circ@.n_nodes(),
    ensures
        r == is_convex(circ@, nodes@),
{
    let ghost m = circ@;
    let ghost s = nodes@;
    let n = circ.node_count();
    let mut in_s: Vec<bool> = Vec::new();
    let mut unreached: Vec<bool> = Vec::new();
    let mut i: usize = 0;
    while i < n
        invariant
            i <= n,
            in_s@ == Seq::new(i as nat, |x: int| false),
            unreached@ == Seq::new(i as nat, |x: int| true),
        decreases n - i,
    {
        in_s.push(false);
        unreached.push(true);
        i = i + 1;
        proof {
            assert(in_s@ =~= Seq::new(i as nat, |x: int| false));
            assert(unreached@ =~= Seq::new(i as nat, |x: int| true));
        }
    }
    let mut k: usize = 0;
    while k < nodes.len()
        invariant
            m == circ@,
            s == nodes@,
            n == m.n_nodes(),
            forall|j: int| 0 <= j < s.len() ==> s[j] < n,
            k <= s.len(),
            in_s@.len() == n,
            forall|j: int| 0 <= j < k ==> in_s@[#[trigger] s[j] as int],
            forall|x: int|
                0 <= x < n && (forall|j: int| 0 <= j < k ==> s[j] != x as usize) ==> !in_s@[x],
        decreases s.len() - k,
    {
        in_s.set(nodes[k], true);
        k = k + 1;
    }
    proof {
        assert forall|x: int| 0 <= x < n implies (in_s@[x] <==> s.contains(x as usize)) by {
            if s.contains(x as usize) {
                let j = choose|j: int| 0 <= j < s.len() && s[j] == x as usize;
                assert(in_s@[s[j] as int]);
            } else {
                assert forall|j: int| 0 <= j < s.len() implies s[j] != x as usize by {
                    if s[j] == x as usize {
                        assert(s.contains(x as usize));
                    }
                }
            }
        }
    }
    let mut order: Vec<usize> = Vec::new();
    let mut k: usize = 0;
    while k < nodes.len()
        invariant
            m == circ@,
            m.wf(),
            s == nodes@,
            n == m.n_nodes(),
            forall|j: int| 0 <= j < s.len() ==> s[j] < n,
            k <= s.len(),
            in_s@.len() == n,
            unreached@.len() == n,
            forall|x: int| 0 <= x < n ==> (in_s@[x] <==> s.contains(x as usize)),
            forall|x: int| 0 <= x < n ==> (!unreached@[x] <==> order@.contains(x as usize)),
            forall|j: int| 0 <= j < order@.len() ==> order@[j] < n && !s.contains(order@[j]) && escapes(m, s, order@[j]),
            forall|j: int, p: int|
                0 <= j < k && 0 <= p < m.outs[s[j] as int].len() ==> (#[trigger] m.outs[s[j] as int][p] matches Some(r)
                    ==> s.contains(r.node) || !unreached@[r.node as int]),
        decreases s.len() - k,
    {
        let x = nodes[k];
        proof {
            assert(m.node_wf(x as int));
        }
        let np = circ.node_qubits(x).len();
        let mut p: usize = 0;
        while p < np
            invariant
                m == circ@,
                m.wf(),
                s == nodes@,
                n == m.n_nodes(),
                forall|j: int| 0 <= j < s.len() ==> s[j] < n,
                k < s.len(),
                x == s[k as int],
                np == m.outs[x as int].len(),
                p <= np,
                in_s@.len() == n,
                unreached@.len() == n,
                forall|y: int| 0 <= y < n ==> (in_s@[y] <==> s.contains(y as usize)),
                forall|y: int| 0 <= y < n ==> (!unreached@[y] <==> order@.contains(y as usize)),
                forall|j: int| 0 <= j < order@.len() ==> order@[j] < n && !s.contains(order@[j]) && escapes(m, s, order@[j]),
                forall|j: int, q: int|
                    0 <= j < k && 0 <= q < m.outs[s[j] as int].len() ==> (#[trigger] m.outs[s[j] as int][q] matches Some(r)
                        ==> s.contains(r.node) || !unreached@[r.node as int]),
                forall|q: int|
                    0 <= q < p ==> (#[trigger] m.outs[x as int][q] matches Some(r) ==> s.contains(r.node)
                        || !unreached@[r.node as int]),
            decreases np - p,
        {
            proof {
                lemma_out_targets(m);
            }
            if let Some(d) = circ.linked_out(x, p) {
                proof {
                    assert(m.out_link_ok(x as int, p as int));
                }
                if !in_s[d.node] && unreached[d.node] {
                    let ghost before = order@;
                    unreached.set(d.node, false);
                    order.push(d.node);
                    proof {
                        let path = seq![x, d.node];
                        assert(linked(m, x, d.node));
                        assert(s.contains(x)) by {
                            assert(s[k as int] == x);
                        }
                        assert(leaves(m, s, path));
                        assert(escapes(m, s, d.node));
                        assert forall|y: int| 0 <= y < n implies (!unreached@[y] <==> order@.contains(y as usize)) by {
                            if order@.contains(y as usize) && y != d.node as int {
                                let j = choose|j: int| 0 <= j < order@.len() && order@[j] == y as usize;
                                assert(before[j] == y as usize);
                            }
                            if before.contains(y as usize) {
                                let j = choose|j: int| 0 <= j < before.len() && before[j] == y as usize;
                                assert(order@[j] == y as usize);
                            }
                            if y == d.node as int {
                                assert(order@[before.len() as int] == d.node);
                            }
                        }
                    }
                }
            }
            p = p + 1;
        }
        k = k + 1;
    }
    let mut h: usize = 0;
    while h < order.len()
        invariant
            m == circ@,
            m.wf(),
            s == nodes@,
            n == m.n_nodes(),
            forall|j: int| 0 <= j < s.len() ==> s[j] < n,
            in_s@.len() == n,
            unreached@.len() == n,
            h <= order@.len(),
            forall|x: int| 0 <= x < n ==> (in_s@[x] <==> s.contains(x as usize)),
            forall|x: int| 0 <= x < n ==> (!unreached@[x] <==> order@.contains(x as usize)),
            forall|j: int| 0 <= j < order@.len() ==> order@[j] < n && !s.contains(order@[j]) && escapes(m, s, order@[j]),
            forall|j: int, p: int|
                0 <= j < s.len() && 0 <= p < m.outs[s[j] as int].len() ==> (#[trigger] m.outs[s[j] as int][p] matches Some(r)
                    ==> s.contains(r.node) || !unreached@[r.node as int]),
            forall|j: int, p: int|
                0 <= j < h && 0 <= p < m.outs[order@[j] as int].len() ==> (#[trigger] m.outs[order@[j] as int][p] matches Some(r)
                    ==> !s.contains(r.node) && !unreached@[r.node as int]),
        decreases count_true(unreached@), order@.len() - h,
    {
        let y = order[h];
        proof {
            assert(m.node_wf(y as int));
        }
        let np = circ.node_qubits(y).len();
        let ghost count0 = count_true(unreached@);
        let ghost len0 = order@.len();
        let mut p: usize = 0;
        while p < np
            invariant
                m == circ@,
                m.wf(),
                s == nodes@,
                n == m.n_nodes(),
                forall|j: int| 0 <= j < s.len() ==> s[j] < n,
                in_s@.len() == n,
                unreached@.len() == n,
                h < order@.len(),
                y == order@[h as int],
                np == m.outs[y as int].len(),
                p <= np,
                count_true(unreached@) <= count0,
                count_true(unreached@) == count0 ==> order@.len() == len0,
                forall|x: int| 0 <= x < n ==> (in_s@[x] <==> s.contains(x as usize)),
                forall|x: int| 0 <= x < n ==> (!unreached@[x] <==> order@.contains(x as usize)),
                forall|j: int| 0 <= j < order@.len() ==> order@[j] < n && !s.contains(order@[j]) && escapes(m, s, order@[j]),
                forall|j: int, q: int|
                    0 <= j < s.len() && 0 <= q < m.outs[s[j] as int].len() ==> (#[trigger] m.outs[s[j] as int][q] matches Some(r)
                        ==> s.contains(r.node) || !unreached@[r.node as int]),
                forall|j: int, q: int|
                    0 <= j < h && 0 <= q < m.outs[order@[j] as int].len() ==> (#[trigger] m.outs[order@[j] as int][q] matches Some(r)
                        ==> !s.contains(r.node) && !unreached@[r.node as int]),
                forall|q: int|
                    0 <= q < p ==> (#[trigger] m.outs[y as int][q] matches Some(r) ==> !s.contains(r.node)
                        && !unreached@[r.node as int]),
            decreases np - p,
        {
            proof {
                lemma_out_targets(m);
            }
            if let Some(d) = circ.linked_out(y, p) {
                proof {
                    assert(m.out_link_ok(y as int, p as int));
                    lemma_extend_escape(m, s, y, p as int);
                }
                if in_s[d.node] {
                    return false;
                }
                if unreached[d.node] {
                    let ghost before = order@;
                    proof {
                        lemma_count_true_clear(unreached@, d.node as int);
                    }
                    unreached.set(d.node, false);
                    order.push(d.node);
                    proof {
                        assert forall|x: int| 0 <= x < n implies (!unreached@[x] <==> order@.contains(x as usize)) by {
                            if order@.contains(x as usize) && x != d.node as int {
                                let j = choose|j: int| 0 <= j < order@.len() && order@[j] == x as usize;
                                assert(before[j] == x as usize);
                            }
                            if before.contains(x as usize) {
                                let j = choose|j: int| 0 <= j < before.len() && before[j] == x as usize;
                                assert(order@[j] == x as usize);
                            }
                            if x == d.node as int {
                                assert(order@[before.len() as int] == d.node);
                            }
                        }
                        assert forall|j: int, q: int|
                            0 <= j < h && 0 <= q < m.outs[order@[j] as int].len() implies (#[trigger] m.outs[order@[j] as int][q] matches Some(r)
                                ==> !s.contains(r.node) && !unreached@[r.node as int]) by {
                            assert(order@[j] == before[j]);
                        }
                    }
                }
            }
            p = p + 1;
        }
        h = h + 1;
    }
    proof {
        lemma_out_targets(m);
        assert forall|x: int, p: int|
            0 <= x < n && !unreached@[x] && 0 <= p < m.outs[x].len() implies (#[trigger] m.outs[x][p] matches Some(r)
                ==> !s.contains(r.node) && !unreached@[r.node as int]) by {
            let j = choose|j: int| 0 <= j < order@.len() && order@[j] == x as usize;
        }
        lemma_closure_convex(m, s, unreached@);
    }
    true
}

/// Removing a link frees its two ports and links no port.
pub proof fn lemma_unlink_frees(m: CircuitModel, src: int, sp: int, dst: int, dp: int)
    requires
        0 <= src < m.n_nodes(),
        0 <= dst < m.n_nodes(),
        m.outs.len() == m.n_nodes(),
        m.ins.len() == m.n_nodes(),
        0 <= sp < m.outs[src].len(),
        0 <= dp < m.ins[dst].len(),
    ensures
        m.without_link(src, sp, dst, dp).outs[src][sp] is None,
        m.without_link(src, sp, dst, dp).ins[dst][dp] is None,
        forall|n: int, p: int|
            0 <= n < m.n_nodes() && 0 <= p < m.ins[n].len() && m.ins[n][p] is None ==> (#[trigger] m.without_link(
                src,
                sp,
                dst,
                dp,
            ).ins[n][p]) is None,
        forall|n: int, p: int|
            0 <= n < m.n_nodes() && 0 <= p < m.outs[n].len() && m.outs[n][p] is None ==> (#[trigger] m.without_link(
                src,
                sp,
                dst,
                dp,
            ).outs[n][p]) is None,
{
}

/// Errors from building a subcircuit or a rewrite.
#[derive(Clone, Copy, Debug, PartialEq, Eq, Structural)]
pub enum InvalidSubgraph {
    /// The node set is empty.
    EmptySubgraph,
    /// A node is not an operation node of the circuit, or is repeated.
    InvalidNode(usize),
    /// A path leaves the node set and enters it again.
    NotConvex,
    /// The replacement does not act on as many qubits as the subcircuit.
    InvalidReplacement,
    /// A boundary wire of the subcircuit could not be linked to the
    /// replacement.
    BoundaryNotLinked,
}

/// Distinct operation nodes of the circuit.
pub open spec fn valid_nodes(m: CircuitModel, s: Seq<usize>) -> bool {
    &&& forall|k: int| 0 <= k < s.len() ==> m.is_gate_node(#[trigger] s[k] as int)
    &&& s.no_duplicates()
}

/// A convex set of operation nodes of a circuit.
pub struct Subcircuit {
    nodes: Vec<usize>,
}

impl Subcircuit {
    /// The nodes of the subcircuit.
    pub closed spec fn node_seq(&self) -> Seq<usize> {
        self.nodes@
    }

    /// The nodes of the subcircuit.
    pub fn nodes(&self) -> (r: &Vec<usize>)
        ensures
            r@ == self.node_seq(),
    {
        &self.nodes
    }

    /// A copy of the subcircuit.
    pub fn duplicate(&self) -> (r: Subcircuit)
        ensures
            r.node_seq() == self.node_seq(),
    {
        Subcircuit { nodes: self.nodes.clone() }
    }

    /// Build a subcircuit from its nodes: it must be non-empty, hold
    /// distinct operation nodes, and be convex.
    pub fn try_new(circ: &Circuit, nodes: Vec<usize>) -> (r: Result<Subcircuit, InvalidSubgraph>)
        requires
            circ@.wf(),
        ensures
            nodes@.len() == 0 ==> r == Err::<Subcircuit, InvalidSubgraph>(InvalidSubgraph::EmptySubgraph),
            r matches Err(InvalidSubgraph::InvalidNode(_)) ==> nodes@.len() > 0 && !valid_nodes(circ@, nodes@),
            r == Err::<Subcircuit, InvalidSubgraph>(InvalidSubgraph::NotConvex) <==> nodes@.len() > 0
                && valid_nodes(circ@, nodes@) && !is_convex(circ@, nodes@),
            r is Ok <==> nodes@.len() > 0 && valid_nodes(circ@, nodes@) && is_convex(circ@, nodes@),
            r matches Ok(sc) ==> sc.node_seq() == nodes@,
    {
        if nodes.len() == 0 {
            return Err(InvalidSubgraph::EmptySubgraph);
        }
        let n = circ.node_count();
        let mut seen: Vec<bool> = Vec::new();
        let mut i: usize = 0;
        while i < n
            invariant
                i <= n,
                seen@ == Seq::new(i as nat, |x: int| false),
            decreases n - i,
        {
            seen.push(false);
            i = i + 1;
            proof {
                assert(seen@ =~= Seq::new(i as nat, |x: int| false));
            }
        }
        let mut k: usize = 0;
        while k < nodes.len()
            invariant
                circ@.wf(),
                n == circ@.n_nodes(),
                k <= nodes@.len(),
                seen@.len() == n,
                forall|j: int| 0 <= j < k ==> circ@.is_gate_node(#[trigger] nodes@[j] as int),
                forall|j: int| 0 <= j < k ==> seen@[#[trigger] nodes@[j] as int],
                forall|x: int| 0 <= x < n && seen@[x] ==> exists|j: int| 0 <= j < k && #[trigger] nodes@[j] == x,
                forall|a: int, b: int| 0 <= a < b < k ==> nodes@[a] != nodes@[b],
            decreases nodes@.len() - k,
        {
            let x = nodes[k];
            if x >= n || x == INPUT || x == OUTPUT || !circ.contains_node(x) || seen[x] {
                proof {
                    if x < n && seen@[x as int] {
                        let j = choose|j: int| 0 <= j < k && #[trigger] nodes@[j] == x as int;
                        assert(nodes@[j] == nodes@[k as int]);
                    }
                }
                return Err(InvalidSubgraph::InvalidNode(x));
            }
            seen.set(x, true);
            k = k + 1;
            proof {
                assert forall|y: int| 0 <= y < n && seen@[y] implies exists|j: int| 0 <= j < k && #[trigger] nodes@[j] == y by {
                    if y == x as int {
                        assert(nodes@[k - 1] == y);
                    }
                }
                assert forall|a: int, b: int| 0 <= a < b < k implies nodes@[a] != nodes@[b] by {
                    if b == k - 1 {
                        assert(seen@[nodes@[a] as int]);
                    }
                }
            }
        }
        proof {
            assert(nodes@.no_duplicates());
        }
        if !check_convex(circ, &nodes) {
            return Err(InvalidSubgraph::NotConvex);
        }
        Ok(Subcircuit { nodes })
    }
}

/// `new` is `old` with `removed` operations replaced by those of `repl`,
/// and the phase `delta` added.
pub open spec fn rewrite_effect(
    old: CircuitModel,
    new: CircuitModel,
    removed: nat,
    repl: CircuitModel,
    delta: int,
) -> bool {
    &&& new.wf()
    &&& new.n_qubits == old.n_qubits
    &&& new.phase == phase_add(old.phase, delta)
    &&& new.live_count() + removed + 2 == old.live_count() + repl.live_count()
}

/// Applying a rewrite and then its inverse, which takes out the operations
/// the first put in, puts back as many as it took out, and adds the
/// opposite phase, restores the number of operations and the global phase.
pub proof fn lemma_rewrite_round_trip(
    c0: CircuitModel,
    c1: CircuitModel,
    c2: CircuitModel,
    removed: nat,
    repl: CircuitModel,
    inverse_repl: CircuitModel,
    delta: int,
)
    requires
        c0.wf(),
        repl.wf(),
        inverse_repl.wf(),
        rewrite_effect(c0, c1, removed, repl, delta),
        rewrite_effect(c1, c2, (repl.live_count() - 2) as nat, inverse_repl, -delta),
        inverse_repl.live_count() == removed + 2,
    ensures
        c2.live_count() == c0.live_count(),
        c2.phase == c0.phase,
        c2.n_qubits == c0.n_qubits,
{
    lemma_live_at_least_two(repl);
    vstd::arithmetic::div_mod::lemma_add_mod_noop_right(-delta, c0.phase + delta, PHASE_PERIOD as int);
    vstd::arithmetic::div_mod::lemma_small_mod(c0.phase as nat, PHASE_PERIOD as nat);
}

/// A well-formed circuit has its two boundary nodes live.
pub proof fn lemma_live_at_least_two(m: CircuitModel)
    requires
        m.wf(),
    ensures
        m.live_count() >= 2,
{
    lemma_count_upto_boundary(m.live, m.live.len());
    assert(m.live.take(m.live.len() as int) =~= m.live);
}

/// Counting `true` entries over a sequence whose first two are `true`.
proof fn lemma_count_upto_boundary(s: Seq<bool>, k: nat)
    requires
        s.len() >= 2,
        s[0],
        s[1],
        2 <= k <= s.len(),
    ensures
        count_true(s.take(k as int)) >= 2,
    decreases k,
{
    if k > 2 {
        lemma_count_upto_boundary(s, (k - 1) as nat);
        assert(s.take(k as int).drop_last() =~= s.take(k - 1));
    } else {
        assert(s.take(2).drop_last() =~= s.take(1));
        assert(s.take(1).drop_last() =~= s.take(0));
        assert(s.take(2).last() == s[1]);
        assert(s.take(1).last() == s[0]);
        assert(count_true(s.take(0)) == 0);
        assert(count_true(s.take(1)) == 1);
    }
}

/// Some port of a node of `s` carries qubit `q`.
pub open spec fn acts_on(m: CircuitModel, s: Seq<usize>, q: int) -> bool {
    exists|j: int, p: int|
        0 <= j < s.len() && 0 <= p < m.qubits[s[j] as int].len() && #[trigger] m.qubits[s[j] as int][p] == q
}

/// The number of qubits below `k` that the nodes `s` act on.
pub open spec fn count_acted(m: CircuitModel, s: Seq<usize>, k: nat) -> nat
    decreases k,
{
    if k == 0 {
        0
    } else {
        count_acted(m, s, (k - 1) as nat) + if acts_on(m, s, k - 1) {
            1nat
        } else {
            0nat
        }
    }
}

/// The number of qubits that the nodes `s` act on.
pub open spec fn width(m: CircuitModel, s: Seq<usize>) -> nat {
    count_acted(m, s, m.n_qubits)
}

/// A rewrite: replace a subcircuit by another circuit, and add a phase.
///
/// Replacement qubit `i` stands for the `i`-th smallest qubit that the
/// subcircuit acts on.
pub struct CircuitRewrite {
    subcircuit: Subcircuit,
    replacement: Circuit,
    phase: i64,
}

impl CircuitRewrite {
    /// A rewrite of `subcircuit` into `replacement`, adding `phase`.
    pub fn new(subcircuit: Subcircuit, replacement: Circuit, phase: i64) -> (r: CircuitRewrite)
        ensures
            r.nodes() == subcircuit.node_seq(),
            r.replacement() == replacement@,
            r.phase_delta() == phase,
    {
        CircuitRewrite { subcircuit, replacement, phase }
    }

    /// The nodes to be replaced.
    pub closed spec fn nodes(&self) -> Seq<usize> {
        self.subcircuit.node_seq()
    }

    /// The circuit put in their place.
    pub closed spec fn replacement(&self) -> CircuitModel {
        self.replacement@
    }

    /// The phase added, in eighths of a turn.
    pub closed spec fn phase_delta(&self) -> i64 {
        self.phase
    }

    /// Replace the subcircuit by the replacement: the boundary wires of the
    /// subcircuit are cut, its nodes removed, the replacement's operations
    /// added and wired to the saved boundary in qubit order, and the phase
    /// added.
    ///
    /// Fails with `InvalidReplacement`, leaving the circuit as it was, when
    /// the replacement does not act on as many qubits as the subcircuit.
    /// Fails with `BoundaryNotLinked` when a boundary wire could not be
    /// relinked. Either way a failed rewrite leaves the circuit as it was.
    pub fn apply(self, circ: &mut Circuit) -> (r: Result<(), InvalidSubgraph>)
        requires
            old(circ)@.wf(),
            valid_nodes(old(circ)@, self.nodes()),
            self.replacement().wf(),
            old(circ)@.n_nodes() + self.replacement().n_nodes() < usize::MAX,
        ensures
            final(circ)@.wf(),
            final(circ)@.n_qubits == old(circ)@.n_qubits,
            r == Err::<(), InvalidSubgraph>(InvalidSubgraph::InvalidReplacement) <==> self.replacement().n_qubits
                != width(old(circ)@, self.nodes()),
            r is Err ==> final(circ)@ == old(circ)@,
            r is Ok ==> forall|k: int| 0 <= k < self.nodes().len() ==> !final(circ)@.live[#[trigger] self.nodes()[k] as int],
            r is Ok ==> rewrite_effect(
                old(circ)@,
                final(circ)@,
                self.nodes().len(),
                self.replacement(),
                self.phase_delta() as int,
            ),
    {
        let mut work = circ.duplicate();
        let ghost m0 = work@;
        let ghost s = self.subcircuit.nodes@;
        let ghost rm = self.replacement@;
        let nodes = &self.subcircuit.nodes;
        let repl = &self.replacement;
        let nq = work.n_qubits();
        let n = work.node_count();
        // The qubits the subcircuit acts on, in increasing order.
        let mut uses: Vec<bool> = Vec::new();
        let mut i: usize = 0;
        while i < nq
            invariant
                i <= nq,
                uses@.len() == i,
                forall|y: int| 0 <= y < i ==> !uses@[y],
            decreases nq - i,
        {
            uses.push(false);
            i = i + 1;
        }
        let mut k: usize = 0;
        while k < nodes.len()
            invariant
                work@ == m0,
                m0.wf(),
                s == nodes@,
                valid_nodes(m0, s),
                nq == m0.n_qubits,
                uses@.len() == nq,
                k <= s.len(),
                forall|y: int| 0 <= y < nq && uses@[y] ==> acts_on(m0, s, y),
                forall|j: int, p: int|
                    0 <= j < k && 0 <= p < m0.qubits[s[j] as int].len() ==> uses@[#[trigger] m0.qubits[s[j] as int][p] as int],
            decreases s.len() - k,
        {
            let x = nodes[k];
            proof {
                assert(m0.is_gate_node(s[k as int] as int));
                assert(m0.node_wf(x as int));
            }
            let qs = work.node_qubits(x);
            let mut p: usize = 0;
            while p < qs.len()
                invariant
                    work@ == m0,
                    m0.wf(),
                    x < m0.n_nodes(),
                    m0.node_wf(x as int),
                    qs@ == m0.qubits[x as int],
                    nq == m0.n_qubits,
                    uses@.len() == nq,
                    p <= qs@.len(),
                    s == nodes@,
                    valid_nodes(m0, s),
                    k < s.len(),
                    x == s[k as int],
                    forall|y: int| 0 <= y < nq && uses@[y] ==> acts_on(m0, s, y),
                    forall|j: int, p2: int|
                        0 <= j < k && 0 <= p2 < m0.qubits[s[j] as int].len() ==> uses@[#[trigger] m0.qubits[s[j] as int][p2] as int],
                    forall|p2: int| 0 <= p2 < p ==> uses@[#[trigger] m0.qubits[x as int][p2] as int],
                decreases qs@.len() - p,
            {
                proof {
                    assert(acts_on(m0, s, qs@[p as int] as int)) by {
                        assert(m0.qubits[s[k as int] as int][p as int] == qs@[p as int]);
                    }
                }
                let ghost u0 = uses@;
                uses.set(qs[p], true);
                proof {
                    assert forall|j: int, p2: int|
                        0 <= j < k && 0 <= p2 < m0.qubits[s[j] as int].len() implies uses@[#[trigger] m0.qubits[s[j] as int][p2] as int] by {
                        assert(m0.is_gate_node(s[j] as int));
                        assert(m0.node_wf(s[j] as int));
                        assert(u0[m0.qubits[s[j] as int][p2] as int]);
                    }
                    assert forall|p2: int| 0 <= p2 < p + 1 implies uses@[#[trigger] m0.qubits[x as int][p2] as int] by {
                        if p2 < p {
                            assert(u0[m0.qubits[x as int][p2] as int]);
                        }
                    }
                }
                p = p + 1;
            }
            proof {
                assert forall|j: int, p2: int|
                    0 <= j < k + 1 && 0 <= p2 < m0.qubits[s[j] as int].len() implies uses@[#[trigger] m0.qubits[s[j] as int][p2] as int] by {
                    if j == k as int {
                        assert(s[j] == x);
                    }
                }
            }
            k = k + 1;
        }
        proof {
            assert forall|y: int| 0 <= y < nq implies (uses@[y] <==> acts_on(m0, s, y)) by {
                if acts_on(m0, s, y) {
                    let (j, p) = choose|j: int, p: int|
                        0 <= j < s.len() && 0 <= p < m0.qubits[s[j] as int].len() && #[trigger] m0.qubits[s[j] as int][p] == y;
                    assert(uses@[m0.qubits[s[j] as int][p] as int]);
                }
            }
        }
        let mut order: Vec<usize> = Vec::new();
        let mut pos: Vec<usize> = Vec::new();
        let mut q: usize = 0;
        while q < nq
            invariant
                forall|y: int| 0 <= y < nq ==> (uses@[y] <==> acts_on(m0, s, y)),
                order@.len() == count_acted(m0, s, q as nat),
                q <= nq,
                uses@.len() == nq,
                pos@.len() == q,
                order@.len() <= q,
                forall|j: int| 0 <= j < order@.len() ==> order@[j] < q,
                forall|a: int, b: int| 0 <= a < b < order@.len() ==> order@[a] < order@[b],
                forall|y: int| 0 <= y < q && uses@[y] ==> pos@[y] < order@.len() && order@[pos@[y] as int] == y,
            decreases nq - q,
        {
            if uses[q] {
                pos.push(order.len());
                order.push(q);
            } else {
                pos.push(0);
            }
            q = q + 1;
        }
        if repl.n_qubits() != order.len() {
            return Err(InvalidSubgraph::InvalidReplacement);
        }
        // The outside ports linked to the subcircuit's boundary, by position.
        let mut in_s: Vec<bool> = Vec::new();
        let mut i: usize = 0;
        while i < n
            invariant
                i <= n,
                in_s@.len() == i,
            decreases n - i,
        {
            in_s.push(false);
            i = i + 1;
        }
        let mut k: usize = 0;
        while k < nodes.len()
            invariant
                s == nodes@,
                valid_nodes(m0, s),
                n == m0.n_nodes(),
                in_s@.len() == n,
                k <= s.len(),
            decreases s.len() - k,
        {
            proof {
                assert(m0.is_gate_node(s[k as int] as int));
            }
            in_s.set(nodes[k], true);
            k = k + 1;
        }
        let width = order.len();
        let mut ext_src: Vec<Option<PortRef>> = Vec::new();
        let mut ext_dst: Vec<Option<PortRef>> = Vec::new();
        let mut i: usize = 0;
        while i < width
            invariant
                i <= width,
                ext_src@.len() == i,
                ext_dst@.len() == i,
            decreases width - i,
        {
            ext_src.push(None);
            ext_dst.push(None);
            i = i + 1;
        }
        let mut k: usize = 0;
        while k < nodes.len()
            invariant
                work@ == m0,
                m0.wf(),
                s == nodes@,
                valid_nodes(m0, s),
                n == m0.n_nodes(),
                nq == m0.n_qubits,
                in_s@.len() == n,
                uses@.len() == nq,
                pos@.len() == nq,
                width == order@.len(),
                forall|y: int| 0 <= y < nq && uses@[y] ==> pos@[y] < width,
                ext_src@.len() == width,
                ext_dst@.len() == width,
                k <= s.len(),
            decreases s.len() - k,
        {
            let x = nodes[k];
            proof {
                assert(m0.is_gate_node(s[k as int] as int));
                assert(m0.node_wf(x as int));
            }
            let np = work.node_qubits(x).len();
            let mut p: usize = 0;
            while p < np
                invariant
                    work@ == m0,
                    m0.wf(),
                    x < n,
                    n == m0.n_nodes(),
                    m0.node_wf(x as int),
                    np == m0.qubits[x as int].len(),
                    nq == m0.n_qubits,
                    in_s@.len() == n,
                    uses@.len() == nq,
                    pos@.len() == nq,
                    forall|y: int| 0 <= y < nq && uses@[y] ==> pos@[y] < width,
                    ext_src@.len() == width,
                    ext_dst@.len() == width,
                    p <= np,
                decreases np - p,
            {
                let qb = work.node_qubits(x)[p];
                if uses[qb] {
                    let at = pos[qb];
                    proof {
                        assert(m0.in_link_ok(x as int, p as int));
                        assert(m0.out_link_ok(x as int, p as int));
                    }
                    if let Some(src) = work.linked_in(x, p) {
                        if !in_s[src.node] {
                            ext_src.set(at, Some(src));
                        }
                    }
                    if let Some(dst) = work.linked_out(x, p) {
                        if !in_s[dst.node] {
                            ext_dst.set(at, Some(dst));
                        }
                    }
                }
                p = p + 1;
            }
            k = k + 1;
        }
        // Cut the subcircuit out.
        let ghost count0 = m0.live_count();
        let mut k: usize = 0;
        while k < nodes.len()
            invariant
                work@.wf(),
                work@.same_nodes(
                    CircuitModel { live: work@.live, ..m0 },
                ),
                work@.live.len() == m0.live.len(),
                s == nodes@,
                valid_nodes(m0, s),
                forall|j: int| k <= j < s.len() ==> work@.live[#[trigger] s[j] as int],
                forall|j: int| 0 <= j < k ==> !work@.live[#[trigger] s[j] as int],
                k <= s.len(),
                work@.live_count() + k == count0,
            decreases s.len() - k,
        {
            let x = nodes[k];
            proof {
                assert(m0.is_gate_node(s[k as int] as int));
                assert(work@.node_wf(x as int));
            }
            let np = work.node_qubits(x).len();
            let ghost before = work@;
            let mut p: usize = 0;
            while p < np
                invariant
                    work@.wf(),
                    work@.same_nodes(before),
                    x < work@.n_nodes(),
                    np == work@.qubits[x as int].len(),
                    work@.node_wf(x as int),
                    p <= np,
                    forall|j: int| 0 <= j < p ==> work@.ins[x as int][j] is None && work@.outs[x as int][j] is None,
                decreases np - p,
            {
                let ghost b0 = work@;
                let s_in = work.disconnect_in(x, p);
                let ghost b1 = work@;
                proof {
                    assert(work@.node_wf(x as int));
                    if let Some(sr) = s_in {
                        assert(b0.in_link_ok(x as int, p as int));
                        lemma_unlink_frees(b0, sr.node as int, sr.port as int, x as int, p as int);
                    }
                    assert(b1.ins[x as int][p as int] is None);
                }
                let d_out = work.disconnect_out(x, p);
                proof {
                    assert(work@.node_wf(x as int));
                    if let Some(dr) = d_out {
                        assert(b1.out_link_ok(x as int, p as int));
                        lemma_unlink_frees(b1, x as int, p as int, dr.node as int, dr.port as int);
                    }
                }
                p = p + 1;
            }
            let ghost mid = work@;
            let removed = work.remove_node(x);
            proof {
                assert(mid.is_gate_node(x as int));
                assert(removed);
                assert forall|j: int| k + 1 <= j < s.len() implies work@.live[#[trigger] s[j] as int] by {
                    assert(s[j] != s[k as int]);
                    assert(mid.live[s[j] as int]);
                }
                assert forall|j: int| 0 <= j < k + 1 implies !work@.live[#[trigger] s[j] as int] by {
                    if j < k {
                        assert(!mid.live[s[j] as int]);
                    }
                }
            }
            k = k + 1;
        }
        // Add the replacement's operations.
        let rn = repl.node_count();
        let mut map: Vec<usize> = Vec::new();
        let ghost count1 = work@.live_count();
        let mut g: usize = 0;
        while g < rn
            invariant
                work@.wf(),
                work@.n_qubits == m0.n_qubits,
                work@.phase == m0.phase,
                work@.n_nodes() <= m0.n_nodes() + g,
                work@.n_nodes() >= m0.n_nodes(),
                s == nodes@,
                valid_nodes(m0, s),
                forall|j: int| 0 <= j < s.len() ==> !work@.live[#[trigger] s[j] as int],
                rm == repl@,
                rm.wf(),
                rn == rm.n_nodes(),
                m0.n_nodes() + rn < usize::MAX,
                g <= rn,
                map@.len() == g,
                rm.n_qubits == width,
                width == order@.len(),
                forall|j: int| 0 <= j < order@.len() ==> order@[j] < m0.n_qubits,
                forall|a: int, b: int| 0 <= a < b < order@.len() ==> order@[a] < order@[b],
                forall|j: int| 0 <= j < g && 2 <= j && rm.live[j] ==> map@[j] < work@.n_nodes(),
                work@.live_count() == count1 + count_true(rm.live.take(g as int)) - count_true(rm.live.take(if g < 2 { g as int } else { 2 })),
            decreases rn - g,
        {
            proof {
                assert(rm.live.take(g + 1).drop_last() =~= rm.live.take(g as int));
                assert(rm.node_wf(g as int));
            }
            if g >= 2 && repl.contains_node(g) {
                let rq = repl.node_qubits(g);
                let mut qs: Vec<usize> = Vec::new();
                let mut j: usize = 0;
                while j < rq.len()
                    invariant
                        rm.wf(),
                        rm.node_wf(g as int),
                        rq@ == rm.qubits[g as int],
                        rm.n_qubits == order@.len(),
                        j <= rq@.len(),
                        qs@.len() == j,
                        forall|t: int| 0 <= t < j ==> qs@[t] == order@[rq@[t] as int],
                    decreases rq@.len() - j,
                {
                    qs.push(order[rq[j]]);
                    j = j + 1;
                }
                proof {
                    assert forall|a: int, b: int| 0 <= a < b < qs@.len() implies qs@[a] != qs@[b] by {
                        let ra = rq@[a] as int;
                        let rb = rq@[b] as int;
                        assert(ra != rb);
                        if ra < rb {
                            assert(order@[ra] < order@[rb]);
                        } else {
                            assert(order@[rb] < order@[ra]);
                        }
                    }
                }
                let idx = work.add_node(repl.op(g), qs);
                map.push(idx);
            } else {
                map.push(0);
            }
            g = g + 1;
        }
        proof {
            assert(rm.live.take(rn as int) =~= rm.live);
            assert(rm.live.take(2).drop_last() =~= rm.live.take(1));
            assert(rm.live.take(1).drop_last() =~= rm.live.take(0));
            assert(rm.live[0] && rm.live[1]);
            assert(rm.live.take(1).last() == rm.live[0]);
            assert(rm.live.take(2).last() == rm.live[1]);
            assert(count_true(rm.live.take(0)) == 0);
            assert(count_true(rm.live.take(1)) == 1);
            assert(count_true(rm.live.take(2)) == 2);
        }
        // Wire the replacement in.
        let ghost count2 = work@.live_count();
        let mut linked_all = true;
        let mut g: usize = 0;
        while g < rn
            invariant
                work@.wf(),
                work@.n_qubits == m0.n_qubits,
                work@.phase == m0.phase,
                work@.live_count() == count2,
                work@.n_nodes() >= m0.n_nodes(),
                s == nodes@,
                valid_nodes(m0, s),
                forall|j: int| 0 <= j < s.len() ==> !work@.live[#[trigger] s[j] as int],
                rm == repl@,
                rm.wf(),
                rn == rm.n_nodes(),
                g <= rn,
                map@.len() == rn,
                rm.n_qubits == width,
                ext_src@.len() == width,
                ext_dst@.len() == width,
            decreases rn - g,
        {
            proof {
                assert(rm.node_wf(g as int));
            }
            if g != OUTPUT && repl.contains_node(g) {
                let np = repl.node_qubits(g).len();
                let mut p: usize = 0;
                while p < np
                    invariant
                        work@.wf(),
                        work@.n_qubits == m0.n_qubits,
                        work@.phase == m0.phase,
                        work@.live_count() == count2,
                        work@.n_nodes() >= m0.n_nodes(),
                        s == nodes@,
                        valid_nodes(m0, s),
                        forall|j: int| 0 <= j < s.len() ==> !work@.live[#[trigger] s[j] as int],
                        rm == repl@,
                        rm.wf(),
                        rn == rm.n_nodes(),
                        g < rn,
                        g != OUTPUT,
                        rm.node_wf(g as int),
                        np == rm.outs[g as int].len(),
                        map@.len() == rn,
                        rm.n_qubits == width,
                        ext_src@.len() == width,
                        ext_dst@.len() == width,
                        p <= np,
                    decreases np - p,
                {
                    if let Some(d) = repl.linked_out(g, p) {
                        proof {
                            assert(rm.out_link_ok(g as int, p as int));
                            assert(rm.node_wf(d.node as int));
                            assert(rm.node_wf(OUTPUT as int));
                        }
                        let src = if g == INPUT {
                            ext_src[p]
                        } else {
                            Some(PortRef { node: map[g], port: p })
                        };
                        let dst = if d.node == OUTPUT {
                            ext_dst[d.port]
                        } else {
                            Some(PortRef { node: map[d.node], port: d.port })
                        };
                        if let (Some(a), Some(b)) = (src, dst) {
                            if work.connect(a.node, a.port, b.node, b.port).is_err() {
                                linked_all = false;
                            }
                        }
                    }
                    p = p + 1;
                }
            }
            g = g + 1;
        }
        work.add_phase(self.phase);
        if linked_all {
            *circ = work;
            Ok(())
        } else {
            Err(InvalidSubgraph::BoundaryNotLinked)
        }
    }
}

} // verus!
