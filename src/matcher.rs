//! Pattern matching: patterns are small circuits; a match maps each of a
//! pattern's operations to an operation of the target circuit with the same
//! kind, so that every wire between pattern operations is a wire between
//! their images, and the image is a convex subcircuit.
use vstd::prelude::*;

use crate::circuit::{
    all_ordered, is_topological, lemma_distinct_below_len, lemma_maximal_complete, Circuit, CircuitModel, Direction, PortRef, OUTPUT,
};
use crate::ops::Op;
use crate::rewrite::{is_convex, valid_nodes, CircuitRewrite, InvalidSubgraph, Subcircuit};

verus! {

/// A port offset with its direction.
#[derive(Clone, Copy, Debug, PartialEq, Eq, Structural)]
pub struct Port {
    pub dir: Direction,
    pub index: usize,
}

/// An edge constraint of a pattern, read from the node it starts at.
#[derive(Clone, Copy, Debug, PartialEq, Eq, Structural)]
pub enum PEdge {
    /// The port `src` is linked to port `dst` of another pattern node.
    InternalEdge { src: Port, dst: Port },
    /// The port `src` is linked to the pattern's boundary.
    InputEdge { src: Port },
}

impl PEdge {
    /// The port the edge starts at.
    pub fn offset_id(&self) -> (r: Port)
        ensures
            r == pedge_src(*self),
    {
        match self {
            PEdge::InternalEdge { src, .. } => *src,
            PEdge::InputEdge { src } => *src,
        }
    }
}

/// The port an edge constraint starts at.
pub open spec fn pedge_src(e: PEdge) -> Port {
    match e {
        PEdge::InternalEdge { src, .. } => src,
        PEdge::InputEdge { src } => src,
    }
}

/// Two edge constraints can follow each other on a line: the first ends at
/// a port of some node, and the second starts at the port on the other
/// side of that node with the same offset.
pub open spec fn offsets_compatible(e1: PEdge, e2: PEdge) -> bool {
    match e1 {
        PEdge::InternalEdge { dst, .. } => dst.dir != pedge_src(e2).dir && dst.index == pedge_src(e2).index,
        PEdge::InputEdge { .. } => false,
    }
}

/// Whether `e2` can follow `e1` on a line of edge constraints.
pub fn compatible_offsets(e1: &PEdge, e2: &PEdge) -> (r: bool)
    ensures
        r == offsets_compatible(*e1, *e2),
{
    let dst1 = match e1 {
        PEdge::InternalEdge { dst, .. } => *dst,
        PEdge::InputEdge { .. } => return false,
    };
    let src2 = e2.offset_id();
    dst1.dir != src2.dir && dst1.index == src2.index
}

/// One edge check of a line pattern: from the node matched at position
/// `from`, follow `edge` and require operation `op` at the node reached,
/// which is matched next.
#[derive(Clone, Copy, Debug, PartialEq, Eq, Structural)]
pub struct LineStep {
    pub from: usize,
    pub edge: PEdge,
    pub op: Op,
}

/// `map` sends each operation node of pattern `p` to an operation node of
/// `c` with the same operation, distinct nodes to distinct nodes, and each
/// wire between operation nodes of `p` to a wire of `c` between their images
/// at the same ports.
pub open spec fn is_match(p: CircuitModel, c: CircuitModel, map: Seq<usize>) -> bool {
    &&& map.len() == p.n_nodes()
    &&& forall|g: int|
        #[trigger] p.is_gate_node(g) ==> {
            &&& c.is_gate_node(map[g] as int)
            &&& c.ops[map[g] as int] == p.ops[g]
            &&& c.qubits[map[g] as int].len() == p.qubits[g].len()
        }
    &&& forall|g: int, h: int|
        p.is_gate_node(g) && p.is_gate_node(h) && g != h ==> #[trigger] map[g] != #[trigger] map[h]
    &&& forall|g: int, q: int|
        p.is_gate_node(g) && 0 <= q < p.outs[g].len() ==> (#[trigger] p.outs[g][q] matches Some(r)
            ==> (p.is_gate_node(r.node as int) ==> c.outs[map[g] as int][q] == Some(
            PortRef { node: map[r.node as int], port: r.port },
        )))
    &&& forall|g: int, q: int|
        p.is_gate_node(g) && 0 <= q < p.ins[g].len() && #[trigger] p.ins[g][q] is Some && !p.is_gate_node(
            p.ins[g][q].unwrap().node as int,
        ) ==> outside_image(p, map, c.ins[map[g] as int][q])
    &&& forall|g: int, q: int|
        p.is_gate_node(g) && 0 <= q < p.outs[g].len() && #[trigger] p.outs[g][q] is Some && !p.is_gate_node(
            p.outs[g][q].unwrap().node as int,
        ) ==> outside_image(p, map, c.outs[map[g] as int][q])
}

/// The port `r`, if any, is not on the image of an operation of `p`: the
/// pattern's boundary wires are boundary wires of the match.
pub open spec fn outside_image(p: CircuitModel, map: Seq<usize>, r: Option<PortRef>) -> bool {
    r matches Some(x) ==> forall|h: int| #[trigger] p.is_gate_node(h) ==> map[h] != x.node
}

/// Whether the port `r`, if any, avoids the images of the pattern's
/// operations.
fn check_outside(p: &Circuit, map: &Vec<usize>, r: Option<PortRef>) -> (b: bool)
    requires
        p@.wf(),
        map@.len() == p@.n_nodes(),
    ensures
        b == outside_image(p@, map@, r),
{
    if let Some(x) = r {
        let pn = p.node_count();
        let mut h: usize = 0;
        while h < pn
            invariant
                p@.wf(),
                pn == p@.n_nodes(),
                map@.len() == pn,
                h <= pn,
                r == Some(x),
                forall|y: int| 0 <= y < h && #[trigger] p@.is_gate_node(y) ==> map@[y] != x.node,
            decreases pn - h,
        {
            if h >= 2 && p.contains_node(h) && map[h] == x.node {
                proof {
                    assert(p@.is_gate_node(h as int));
                    assert(map@[h as int] == x.node);
                    assert(r == Some(x));
                    assert(!(forall|y: int| #[trigger] p@.is_gate_node(y) ==> map@[y] != x.node));
                }
                return false;
            }
            h = h + 1;
        }
    }
    true
}

/// The circuit has an operation node.
pub open spec fn has_operation(m: CircuitModel) -> bool {
    exists|g: int| #[trigger] m.is_gate_node(g)
}

/// Whether `v` holds `x`.
fn vec_contains(v: &Vec<usize>, x: usize) -> (r: bool)
    ensures
        r == v@.contains(x),
{
    let mut i: usize = 0;
    while i < v.len()
        invariant
            i <= v@.len(),
            forall|j: int| 0 <= j < i ==> v@[j] != x,
        decreases v@.len() - i,
    {
        if v[i] == x {
            proof {
                assert(v@[i as int] == x);
            }
            return true;
        }
        i = i + 1;
    }
    false
}

/// Whether `v` holds every operation node of `circ`.
fn all_gates_in(circ: &Circuit, v: &Vec<usize>) -> (r: bool)
    requires
        circ@.wf(),
    ensures
        r == forall|g: int| #[trigger] circ@.is_gate_node(g) ==> v@.contains(g as usize),
{
    let n = circ.node_count();
    let mut g: usize = 2;
    while g < n
        invariant
            circ@.wf(),
            n == circ@.n_nodes(),
            2 <= g <= n,
            forall|x: int| 0 <= x < g && #[trigger] circ@.is_gate_node(x) ==> v@.contains(x as usize),
        decreases n - g,
    {
        if circ.contains_node(g) && !vec_contains(v, g) {
            proof {
                assert(circ@.is_gate_node(g as int));
            }
            return false;
        }
        g = g + 1;
    }
    true
}

/// A pattern: a circuit with its operation nodes in topological order; the
/// first is the root.
pub struct CircuitPattern {
    circuit: Circuit,
    nodes: Vec<usize>,
    /// The operation nodes in the order the line visits them, root first.
    order: Vec<usize>,
    /// The edge checks that reach them from the root, one per node after it.
    line: Vec<LineStep>,
}

/// Errors from building a pattern.
#[derive(Clone, Copy, Debug, PartialEq, Eq, Structural)]
pub enum InvalidPattern {
    /// The circuit has no operation.
    EmptyPattern,
    /// The circuit's operations cannot all be ordered.
    NotOrdered,
    /// Some operation is not linked to the root through operations.
    NotConnected,
}

impl CircuitPattern {
    pub closed spec fn model(&self) -> CircuitModel {
        self.circuit@
    }

    pub closed spec fn node_seq(&self) -> Seq<usize> {
        self.nodes@
    }

    /// The pattern is a well-formed circuit whose operation nodes are
    /// exactly `node_seq`, in topological order.
    pub closed spec fn valid(&self) -> bool {
        &&& self.circuit@.wf()
        &&& self.nodes@.len() > 0
        &&& is_topological(self.circuit@, self.nodes@)
        &&& forall|g: int| #[trigger] self.circuit@.is_gate_node(g) ==> self.nodes@.contains(g as usize)
        &&& is_line(self.circuit@, self.order@, self.line@)
        &&& self.order@[0] == self.nodes@[0]
        &&& forall|g: int| #[trigger] self.circuit@.is_gate_node(g) ==> self.order@.contains(g as usize)
    }

    /// The pattern of a circuit, rooted at its first operation.
    ///
    /// Fails with `EmptyPattern` or `NotOrdered` exactly when the circuit
    /// has no operation or no topological order lists all its operations;
    /// `EmptyPattern` always when it has no operation. Otherwise it fails
    /// only with `NotConnected`, when the walk along wires between
    /// operations from the root misses an operation, which happens only
    /// when the operations are not all connected by wires.
    pub fn try_from_circuit(circ: Circuit) -> (r: Result<CircuitPattern, InvalidPattern>)
        requires
            circ@.wf(),
        ensures
            r matches Ok(p) ==> p.valid() && p.model() == circ@,
            (r is Ok || r == Err::<CircuitPattern, InvalidPattern>(InvalidPattern::NotConnected)) <==> (
            has_operation(circ@) && all_ordered(circ@)),
            !has_operation(circ@) ==> r == Err::<CircuitPattern, InvalidPattern>(InvalidPattern::EmptyPattern),
            r == Err::<CircuitPattern, InvalidPattern>(InvalidPattern::NotConnected) ==> !connected_ops(circ@),
            has_operation(circ@) && all_ordered(circ@) && connected_ops(circ@) ==> r is Ok,
    {
        let nodes = circ.commands();
        proof {
            if has_operation(circ@) && all_ordered(circ@) {
                let t = choose|t: Seq<usize>|
                    #[trigger] is_topological(circ@, t) && forall|g: int|
                        #[trigger] circ@.is_gate_node(g) ==> t.contains(g as usize);
                lemma_maximal_complete(circ@, nodes@, t);
                let g = choose|g: int| circ@.is_gate_node(g);
                assert(nodes@.contains(g as usize));
            }
        }
        if nodes.len() == 0 {
            proof {
                if has_operation(circ@) {
                    let g = choose|g: int| circ@.is_gate_node(g);
                    assert(!nodes@.contains(g as usize));
                }
            }
            return Err(InvalidPattern::EmptyPattern);
        }
        if !all_gates_in(&circ, &nodes) {
            return Err(InvalidPattern::NotOrdered);
        }
        proof {
            assert(circ@.is_gate_node(nodes@[0] as int));
            assert(has_operation(circ@));
            assert(all_ordered(circ@));
        }
        let root = nodes[0];
        proof {
            assert(circ@.is_gate_node(nodes@[0] as int));
        }
        let (order, line) = line_pattern(&circ, root);
        proof {
            assert forall|j: int| 0 <= j < order@.len() implies circ@.is_gate_node(order@[j] as int) by {
                assert(is_line(circ@, order@, line@));
            }
            if connected_ops(circ@) {
                assert(closed_under_wires(circ@, order@));
                assert(order@.len() > 0);
            }
        }
        if !all_gates_in(&circ, &order) {
            return Err(InvalidPattern::NotConnected);
        }
        Ok(CircuitPattern { circuit: circ, nodes, order, line })
    }

    /// The root's operation and the edge checks of the line pattern.
    pub fn line(&self) -> (r: Option<(Op, &Vec<LineStep>)>)
        ensures
            self.valid() ==> r is Some,
    {
        proof {
            if self.valid() {
                assert(self.circuit@.is_gate_node(self.nodes@[0] as int));
            }
        }
        if self.nodes.len() == 0 || self.nodes[0] >= self.circuit.node_count() {
            return None;
        }
        Some((self.circuit.op(self.nodes[0]), &self.line))
    }

    /// The circuit of the pattern.
    pub fn circuit(&self) -> (r: &Circuit)
        ensures
            r@ == self.model(),
    {
        &self.circuit
    }

    /// The root of the pattern.
    pub fn root(&self) -> (r: usize)
        requires
            self.valid(),
        ensures
            r == self.node_seq()[0],
    {
        self.nodes[0]
    }

    /// The number of operations of the pattern.
    pub fn n_nodes(&self) -> (r: usize)
        ensures
            r == self.node_seq().len(),
    {
        self.nodes.len()
    }
}

/// Whether `map` is a match of pattern `p` in `circ`.
fn check_match(p: &Circuit, circ: &Circuit, map: &Vec<usize>) -> (r: bool)
    requires
        p@.wf(),
        circ@.wf(),
    ensures
        r == is_match(p@, circ@, map@),
{
    let pn = p.node_count();
    if map.len() != pn {
        return false;
    }
    let mut g: usize = 0;
    while g < pn
        invariant
            p@.wf(),
            circ@.wf(),
            pn == p@.n_nodes(),
            map@.len() == pn,
            g <= pn,
            forall|x: int|
                0 <= x < g && #[trigger] p@.is_gate_node(x) ==> {
                    &&& circ@.is_gate_node(map@[x] as int)
                    &&& circ@.ops[map@[x] as int] == p@.ops[x]
                    &&& circ@.qubits[map@[x] as int].len() == p@.qubits[x].len()
                },
        decreases pn - g,
    {
        if g >= 2 && p.contains_node(g) {
            let x = map[g];
            proof {
                assert(p@.is_gate_node(g as int));
            }
            if x < 2 || !circ.contains_node(x) {
                return false;
            }
            if circ.op(x) != p.op(g) {
                return false;
            }
            if circ.node_qubits(x).len() != p.node_qubits(g).len() {
                return false;
            }
        }
        g = g + 1;
    }
    let mut g: usize = 0;
    while g < pn
        invariant
            p@.wf(),
            circ@.wf(),
            pn == p@.n_nodes(),
            map@.len() == pn,
            g <= pn,
            forall|x: int|
                #[trigger] p@.is_gate_node(x) ==> {
                    &&& circ@.is_gate_node(map@[x] as int)
                    &&& circ@.ops[map@[x] as int] == p@.ops[x]
                    &&& circ@.qubits[map@[x] as int].len() == p@.qubits[x].len()
                },
            forall|x: int, y: int|
                0 <= x < g && p@.is_gate_node(x) && p@.is_gate_node(y) && x != y ==> #[trigger] map@[x]
                    != #[trigger] map@[y],
            forall|x: int, q: int|
                0 <= x < g && p@.is_gate_node(x) && 0 <= q < p@.outs[x].len() ==> (#[trigger] p@.outs[x][q] matches Some(r)
                    ==> (p@.is_gate_node(r.node as int) ==> circ@.outs[map@[x] as int][q] == Some(
                    PortRef { node: map@[r.node as int], port: r.port },
                ))),
            forall|x: int, q: int|
                0 <= x < g && p@.is_gate_node(x) && 0 <= q < p@.ins[x].len() && #[trigger] p@.ins[x][q] is Some
                    && !p@.is_gate_node(p@.ins[x][q].unwrap().node as int) ==> outside_image(
                    p@,
                    map@,
                    circ@.ins[map@[x] as int][q],
                ),
            forall|x: int, q: int|
                0 <= x < g && p@.is_gate_node(x) && 0 <= q < p@.outs[x].len() && #[trigger] p@.outs[x][q] is Some
                    && !p@.is_gate_node(p@.outs[x][q].unwrap().node as int) ==> outside_image(
                    p@,
                    map@,
                    circ@.outs[map@[x] as int][q],
                ),
        decreases pn - g,
    {
        if g >= 2 && p.contains_node(g) {
            let mut h: usize = 0;
            while h < pn
                invariant
                    p@.wf(),
                    pn == p@.n_nodes(),
                    map@.len() == pn,
                    g < pn,
                    p@.is_gate_node(g as int),
                    h <= pn,
                    forall|y: int| 0 <= y < h && p@.is_gate_node(y) && y != g ==> map@[g as int] != map@[y],
                decreases pn - h,
            {
                if h >= 2 && h != g && p.contains_node(h) && map[h] == map[g] {
                    proof {
                        assert(p@.is_gate_node(h as int) && p@.is_gate_node(g as int));
                        assert(map@[g as int] == map@[h as int]);
                    }
                    return false;
                }
                h = h + 1;
            }
            proof {
                assert(p@.is_gate_node(g as int));
                assert(p@.node_wf(g as int));
                assert(circ@.node_wf(map@[g as int] as int));
            }
            let np = p.node_qubits(g).len();
            let mut q: usize = 0;
            while q < np
                invariant
                    p@.wf(),
                    circ@.wf(),
                    pn == p@.n_nodes(),
                    map@.len() == pn,
                    g < pn,
                    p@.is_gate_node(g as int),
                    p@.node_wf(g as int),
                    circ@.is_gate_node(map@[g as int] as int),
                    circ@.node_wf(map@[g as int] as int),
                    circ@.qubits[map@[g as int] as int].len() == np,
                    np == p@.outs[g as int].len(),
                    q <= np,
                    forall|y: int|
                        0 <= y < q ==> (#[trigger] p@.outs[g as int][y] matches Some(r) ==> (p@.is_gate_node(
                            r.node as int,
                        ) ==> circ@.outs[map@[g as int] as int][y] == Some(
                            PortRef { node: map@[r.node as int], port: r.port },
                        ))),
                    forall|y: int|
                        0 <= y < q && #[trigger] p@.ins[g as int][y] is Some && !p@.is_gate_node(
                            p@.ins[g as int][y].unwrap().node as int,
                        ) ==> outside_image(p@, map@, circ@.ins[map@[g as int] as int][y]),
                    forall|y: int|
                        0 <= y < q && #[trigger] p@.outs[g as int][y] is Some && !p@.is_gate_node(
                            p@.outs[g as int][y].unwrap().node as int,
                        ) ==> outside_image(p@, map@, circ@.outs[map@[g as int] as int][y]),
                decreases np - q,
            {
                if let Some(r) = p.linked_out(g, q) {
                    proof {
                        assert(p@.out_link_ok(g as int, q as int));
                    }
                    if r.node >= 2 && p.contains_node(r.node) {
                        let want = PortRef { node: map[r.node], port: r.port };
                        if circ.linked_out(map[g], q) != Some(want) {
                            proof {
                                assert(p@.outs[g as int][q as int] == Some(r));
                            }
                            return false;
                        }
                    } else if !check_outside(p, map, circ.linked_out(map[g], q)) {
                        proof {
                            assert(p@.outs[g as int][q as int] == Some(r));
                        }
                        return false;
                    }
                }
                if let Some(r) = p.linked_in(g, q) {
                    proof {
                        assert(p@.in_link_ok(g as int, q as int));
                    }
                    if !(r.node >= 2 && p.contains_node(r.node)) {
                        if !check_outside(p, map, circ.linked_in(map[g], q)) {
                            proof {
                                assert(p@.ins[g as int][q as int] == Some(r));
                            }
                            return false;
                        }
                    }
                }
                q = q + 1;
            }
        }
        g = g + 1;
    }
    true
}

/// Every wire between an operation node listed in `s` and another
/// operation node leads to a node listed in `s`.
pub open spec fn closed_under_wires(m: CircuitModel, s: Seq<usize>) -> bool {
    &&& forall|j: int, p: int|
        0 <= j < s.len() && 0 <= p < m.outs[s[j] as int].len() && (#[trigger] m.outs[s[j] as int][p] matches Some(r)
            && m.is_gate_node(r.node as int)) ==> s.contains(m.outs[s[j] as int][p].unwrap().node)
    &&& forall|j: int, p: int|
        0 <= j < s.len() && 0 <= p < m.ins[s[j] as int].len() && (#[trigger] m.ins[s[j] as int][p] matches Some(r)
            && m.is_gate_node(r.node as int)) ==> s.contains(m.ins[s[j] as int][p].unwrap().node)
}

/// The operation nodes are connected by wires: a list of operation nodes
/// that holds one of them and is closed under wires holds them all.
pub open spec fn connected_ops(m: CircuitModel) -> bool {
    forall|s: Seq<usize>|
        #[trigger] closed_under_wires(m, s) && (forall|j: int| 0 <= j < s.len() ==> m.is_gate_node(s[j] as int))
            && s.len() > 0 ==> forall|g: int| #[trigger] m.is_gate_node(g) ==> s.contains(g as usize)
}

/// `order` and `line` are a line pattern of `m`: distinct operation nodes,
/// and for each node after the first an edge check, from a node listed
/// before it, that reaches it in `m`.
pub open spec fn is_line(m: CircuitModel, order: Seq<usize>, line: Seq<LineStep>) -> bool {
    &&& order.len() == line.len() + 1
    &&& order.no_duplicates()
    &&& forall|j: int| 0 <= j < order.len() ==> m.is_gate_node(#[trigger] order[j] as int)
    &&& forall|i: int|
        0 <= i < line.len() ==> {
            &&& (#[trigger] line[i]).from <= i
            &&& line[i].op == m.ops[order[i + 1] as int]
            &&& edge_target(m, order[line[i].from as int], line[i].edge) == Some(order[i + 1])
        }
}

/// Adding a node reached by an edge check from a listed node extends a
/// line pattern.
pub proof fn lemma_line_push(m: CircuitModel, order: Seq<usize>, line: Seq<LineStep>, step: LineStep, y: usize)
    requires
        is_line(m, order, line),
        !order.contains(y),
        m.is_gate_node(y as int),
        step.from < order.len(),
        step.op == m.ops[y as int],
        edge_target(m, order[step.from as int], step.edge) == Some(y),
    ensures
        is_line(m, order.push(y), line.push(step)),
{
    let o2 = order.push(y);
    let l2 = line.push(step);
    assert forall|i: int, j: int| 0 <= i < o2.len() && 0 <= j < o2.len() && i != j implies o2[i] != o2[j] by {
        if i < order.len() && j < order.len() {
        } else if i < order.len() {
            assert(order.contains(order[i]));
        } else if j < order.len() {
            assert(order.contains(order[j]));
        }
    }
    assert forall|j: int| 0 <= j < o2.len() implies m.is_gate_node(#[trigger] o2[j] as int) by {
        if j < order.len() {
            assert(o2[j] == order[j]);
        }
    }
    assert forall|i: int| 0 <= i < l2.len() implies {
        &&& (#[trigger] l2[i]).from <= i
        &&& l2[i].op == m.ops[o2[i + 1] as int]
        &&& edge_target(m, o2[l2[i].from as int], l2[i].edge) == Some(o2[i + 1])
    } by {
        if i < line.len() {
            assert(l2[i] == line[i]);
            assert(o2[line[i].from as int] == order[line[i].from as int]);
            assert(o2[i + 1] == order[i + 1]);
        }
    }
}

/// A match follows every edge check that holds in the pattern.
pub proof fn lemma_match_follows(p: CircuitModel, c: CircuitModel, map: Seq<usize>, a: usize, b: usize, e: PEdge)
    requires
        p.wf(),
        c.wf(),
        is_match(p, c, map),
        p.is_gate_node(a as int),
        p.is_gate_node(b as int),
        edge_target(p, a, e) == Some(b),
    ensures
        edge_target(c, map[a as int], e) == Some(map[b as int]),
        c.is_gate_node(map[b as int] as int),
        c.ops[map[b as int] as int] == p.ops[b as int],
{
    assert(c.is_gate_node(map[a as int] as int));
    assert(c.is_gate_node(map[b as int] as int));
    assert(p.node_wf(a as int));
    assert(p.node_wf(b as int));
    if let PEdge::InternalEdge { src, dst } = e {
        let ma = map[a as int];
        let mb = map[b as int];
        assert(c.node_wf(ma as int));
        assert(src.index < p.qubits[a as int].len());
        assert(src.index < c.qubits[ma as int].len());
        match src.dir {
            Direction::Outgoing => {
                let r = p.outs[a as int][src.index as int].unwrap();
                assert(p.outs[a as int][src.index as int] matches Some(r));
                assert(c.outs[ma as int][src.index as int] == Some(PortRef { node: mb, port: r.port }));
            },
            Direction::Incoming => {
                let r = p.ins[a as int][src.index as int].unwrap();
                assert(p.in_link_ok(a as int, src.index as int));
                assert(p.node_wf(b as int));
                assert(p.outs[b as int][r.port as int] matches Some(x));
                assert(c.outs[mb as int][r.port as int] == Some(PortRef { node: ma, port: src.index }));
                assert(c.node_wf(mb as int));
                assert(c.out_link_ok(mb as int, r.port as int));
            },
        }
    }
}

/// Agreeing on the operation nodes of `p`, two maps are matches alike.
pub proof fn lemma_match_agree(p: CircuitModel, c: CircuitModel, m1: Seq<usize>, m2: Seq<usize>)
    requires
        p.wf(),
        is_match(p, c, m1),
        m2.len() == m1.len(),
        forall|g: int| #[trigger] p.is_gate_node(g) ==> m2[g] == m1[g],
    ensures
        is_match(p, c, m2),
{
    assert forall|g: int, h: int|
        p.is_gate_node(g) && p.is_gate_node(h) && g != h implies #[trigger] m2[g] != #[trigger] m2[h] by {
        assert(m1[g] != m1[h]);
    }
    assert forall|g: int, q: int|
        p.is_gate_node(g) && 0 <= q < p.outs[g].len() implies (#[trigger] p.outs[g][q] matches Some(r)
            ==> (p.is_gate_node(r.node as int) ==> c.outs[m2[g] as int][q] == Some(
            PortRef { node: m2[r.node as int], port: r.port },
        ))) by {}
    assert forall|g: int, q: int|
        p.is_gate_node(g) && 0 <= q < p.ins[g].len() && #[trigger] p.ins[g][q] is Some && !p.is_gate_node(
            p.ins[g][q].unwrap().node as int,
        ) implies outside_image(p, m2, c.ins[m2[g] as int][q]) by {
        assert(outside_image(p, m1, c.ins[m1[g] as int][q]));
    }
    assert forall|g: int, q: int|
        p.is_gate_node(g) && 0 <= q < p.outs[g].len() && #[trigger] p.outs[g][q] is Some && !p.is_gate_node(
            p.outs[g][q].unwrap().node as int,
        ) implies outside_image(p, m2, c.outs[m2[g] as int][q]) by {
        assert(outside_image(p, m1, c.outs[m1[g] as int][q]));
    }
}

/// The line pattern of a circuit from `root`: its operation nodes in the
/// order a breadth-first walk along wires between operations reaches them,
/// and for each node after the root the edge check that reaches it.
fn line_pattern(circ: &Circuit, root: usize) -> (r: (Vec<usize>, Vec<LineStep>))
    requires
        circ@.wf(),
        circ@.is_gate_node(root as int),
    ensures
        is_line(circ@, r.0@, r.1@),
        r.0@[0] == root,
        closed_under_wires(circ@, r.0@),
{
    let n = circ.node_count();
    let mut seen: Vec<bool> = Vec::new();
    let mut k: usize = 0;
    while k < n
        invariant
            k <= n,
            seen@.len() == k,
            forall|x: int| 0 <= x < k ==> !seen@[x],
        decreases n - k,
    {
        seen.push(false);
        k = k + 1;
    }
    seen.set(root, true);
    let mut order: Vec<usize> = vec![root];
    let mut line: Vec<LineStep> = Vec::new();
    proof {
        assert(order@.no_duplicates());
        assert forall|x: int| 0 <= x < n implies (seen@[x] <==> order@.contains(x as usize)) by {
            if order@.contains(x as usize) {
                assert(order@[0] == root);
            }
            if x == root as int {
                assert(order@[0] == root);
            }
        }
    }
    let mut i: usize = 0;
    while i < order.len() && i < n
        invariant
            circ@.wf(),
            n == circ@.n_nodes(),
            seen@.len() == n,
            is_line(circ@, order@, line@),
            order@[0] == root,
            forall|x: int| 0 <= x < n ==> (seen@[x] <==> order@.contains(x as usize)),
            i <= order@.len(),
            closed_upto(circ@, order@, i as int),
        decreases n - i,
    {
        let a = order[i];
        proof {
            assert(circ@.is_gate_node(order@[i as int] as int));
            assert(circ@.node_wf(a as int));
        }
        let np = circ.node_qubits(a).len();
        let mut q: usize = 0;
        while q < np
            invariant
                circ@.wf(),
                n == circ@.n_nodes(),
                seen@.len() == n,
                i < order@.len(),
                a == order@[i as int],
                a < n,
                circ@.node_wf(a as int),
                np == circ@.qubits[a as int].len(),
                is_line(circ@, order@, line@),
                order@[0] == root,
                forall|x: int| 0 <= x < n ==> (seen@[x] <==> order@.contains(x as usize)),
                closed_upto(circ@, order@, i as int),
                forall|p: int| 0 <= p < q ==> #[trigger] port_closed(circ@, order@, a, p),
            decreases np - q,
        {
            if let Some(d) = circ.linked_out(a, q) {
                proof {
                    assert(circ@.out_link_ok(a as int, q as int));
                }
                if d.node >= 2 && circ.contains_node(d.node) && !seen[d.node] {
                    let step = LineStep {
                        from: i,
                        edge: PEdge::InternalEdge {
                            src: Port { dir: Direction::Outgoing, index: q },
                            dst: Port { dir: Direction::Incoming, index: d.port },
                        },
                        op: circ.op(d.node),
                    };
                    let ghost o0 = order@;
                    proof {
                        lemma_line_push(circ@, order@, line@, step, d.node);
                    }
                    seen.set(d.node, true);
                    order.push(d.node);
                    line.push(step);
                    proof {
                        lemma_contains_push(o0, d.node, n as nat);
                        lemma_closed_push(circ@, o0, d.node, i as int, a, q as int);
                    }
                }
            }
            if let Some(s) = circ.linked_in(a, q) {
                proof {
                    assert(circ@.in_link_ok(a as int, q as int));
                }
                if s.node >= 2 && circ.contains_node(s.node) && !seen[s.node] {
                    let step = LineStep {
                        from: i,
                        edge: PEdge::InternalEdge {
                            src: Port { dir: Direction::Incoming, index: q },
                            dst: Port { dir: Direction::Outgoing, index: s.port },
                        },
                        op: circ.op(s.node),
                    };
                    let ghost o0 = order@;
                    proof {
                        lemma_line_push(circ@, order@, line@, step, s.node);
                    }
                    seen.set(s.node, true);
                    order.push(s.node);
                    line.push(step);
                    proof {
                        lemma_contains_push(o0, s.node, n as nat);
                        lemma_closed_push(circ@, o0, s.node, i as int, a, q as int);
                    }
                }
            }
            proof {
                assert(port_closed(circ@, order@, a, q as int)) by {
                    assert(circ@.out_link_ok(a as int, q as int));
                    assert(circ@.in_link_ok(a as int, q as int));
                    if let Some(d) = circ@.outs[a as int][q as int] {
                        if circ@.is_gate_node(d.node as int) {
                            assert(seen@[d.node as int]);
                        }
                    }
                    if let Some(sr) = circ@.ins[a as int][q as int] {
                        if circ@.is_gate_node(sr.node as int) {
                            assert(seen@[sr.node as int]);
                        }
                    }
                };
            }
            q = q + 1;
        }
        proof {
            assert forall|j: int| 0 <= j < i + 1 implies #[trigger] node_closed(circ@, order@, order@[j]) by {
                if j == i as int {
                    assert forall|p: int| 0 <= p < circ@.qubits[a as int].len() implies #[trigger] port_closed(circ@, order@, a, p) by {}
                }
            }
        }
        i = i + 1;
    }
    proof {
        assert forall|j: int| 0 <= j < order@.len() ==> order@[j] < n by {}
        lemma_distinct_below_len(order@, n as nat);
        assert(i == order@.len());
        assert forall|j: int, p: int|
            0 <= j < order@.len() && 0 <= p < circ@.outs[order@[j] as int].len() && (#[trigger] circ@.outs[order@[j] as int][p] matches Some(r)
                && circ@.is_gate_node(r.node as int)) implies order@.contains(circ@.outs[order@[j] as int][p].unwrap().node) by {
            assert(node_closed(circ@, order@, order@[j]));
            assert(circ@.node_wf(order@[j] as int));
            assert(port_closed(circ@, order@, order@[j], p));
        }
        assert forall|j: int, p: int|
            0 <= j < order@.len() && 0 <= p < circ@.ins[order@[j] as int].len() && (#[trigger] circ@.ins[order@[j] as int][p] matches Some(r)
                && circ@.is_gate_node(r.node as int)) implies order@.contains(circ@.ins[order@[j] as int][p].unwrap().node) by {
            assert(node_closed(circ@, order@, order@[j]));
            assert(circ@.node_wf(order@[j] as int));
            assert(port_closed(circ@, order@, order@[j], p));
        }
    }
    (order, line)
}

/// The wires at port `p` of node `a` to operation nodes lead into `s`.
pub open spec fn port_closed(m: CircuitModel, s: Seq<usize>, a: usize, p: int) -> bool {
    &&& (m.outs[a as int][p] matches Some(r) ==> (m.is_gate_node(r.node as int) ==> s.contains(r.node)))
    &&& (m.ins[a as int][p] matches Some(r) ==> (m.is_gate_node(r.node as int) ==> s.contains(r.node)))
}

/// Every port of node `a` is closed in `s`.
pub open spec fn node_closed(m: CircuitModel, s: Seq<usize>, a: usize) -> bool {
    forall|p: int| 0 <= p < m.qubits[a as int].len() ==> #[trigger] port_closed(m, s, a, p)
}

/// The first `i` nodes of `s` are closed in `s`.
pub open spec fn closed_upto(m: CircuitModel, s: Seq<usize>, i: int) -> bool {
    forall|j: int| 0 <= j < i ==> #[trigger] node_closed(m, s, s[j])
}

/// Appending a node keeps closure facts: a larger list holds more.
pub proof fn lemma_closed_push(m: CircuitModel, s: Seq<usize>, y: usize, i: int, a: usize, q: int)
    requires
        0 <= i <= s.len(),
        closed_upto(m, s, i),
        forall|p: int| 0 <= p < q ==> #[trigger] port_closed(m, s, a, p),
    ensures
        closed_upto(m, s.push(y), i),
        forall|p: int| 0 <= p < q ==> #[trigger] port_closed(m, s.push(y), a, p),
{
    let t = s.push(y);
    assert forall|x: usize| s.contains(x) implies t.contains(x) by {
        let k = choose|k: int| 0 <= k < s.len() && s[k] == x;
        assert(t[k] == x);
    }
    assert forall|j: int| 0 <= j < i implies #[trigger] node_closed(m, t, t[j]) by {
        assert(t[j] == s[j]);
        assert(node_closed(m, s, s[j]));
        assert forall|p: int| 0 <= p < m.qubits[t[j] as int].len() implies #[trigger] port_closed(m, t, t[j], p) by {
            assert(port_closed(m, s, s[j], p));
        }
    }
    assert forall|p: int| 0 <= p < q implies #[trigger] port_closed(m, t, a, p) by {
        assert(port_closed(m, s, a, p));
    }
}

/// Membership after appending one element.
pub proof fn lemma_contains_push(s: Seq<usize>, y: usize, n: nat)
    requires
        n <= usize::MAX,
    ensures
        forall|x: int| 0 <= x < n ==> (#[trigger] s.push(y).contains(x as usize) <==> (s.contains(x as usize) || x == y as int)),
{
    assert forall|x: int| 0 <= x < n implies (#[trigger] s.push(y).contains(x as usize) <==> (s.contains(x as usize) || x == y as int)) by {
        let t = s.push(y);
        if t.contains(x as usize) {
            let j = choose|j: int| 0 <= j < t.len() && t[j] == x as usize;
            if j < s.len() {
                assert(s[j] == x as usize);
            }
        }
        if s.contains(x as usize) {
            let j = choose|j: int| 0 <= j < s.len() && s[j] == x as usize;
            assert(t[j] == x as usize);
        }
        if x == y as int {
            assert(t[s.len() as int] == y);
        }
    }
}

/// The node reached from node `x` by the edge check `e`: for an internal
/// edge, the node at the other end of the wire at port `src`, when that wire
/// ends at port `dst`; nothing for a boundary edge, a missing wire or
/// another port.
pub open spec fn edge_target(m: CircuitModel, x: usize, e: PEdge) -> Option<usize> {
    match e {
        PEdge::InternalEdge { src, dst } => if x < m.n_nodes() && src.index < m.qubits[x as int].len() {
            match m.link(x as int, src.dir, src.index as int) {
                Some(r) => if r.port == dst.index {
                    Some(r.node)
                } else {
                    None
                },
                None => None,
            }
        } else {
            None
        },
        PEdge::InputEdge { .. } => None,
    }
}

/// The node reached from node `x` of `circ` by the edge check `e`, when the
/// wire is there and ends at the expected port.
fn follow_edge(circ: &Circuit, x: usize, e: PEdge) -> (r: Option<usize>)
    requires
        circ@.wf(),
    ensures
        r == edge_target(circ@, x, e),
        r matches Some(y) ==> y < circ@.n_nodes(),
{
    if x >= circ.node_count() {
        return None;
    }
    proof {
        assert(circ@.node_wf(x as int));
    }
    let (src, dst) = match e {
        PEdge::InternalEdge { src, dst } => (src, dst),
        PEdge::InputEdge { .. } => return None,
    };
    if src.index >= circ.node_qubits(x).len() {
        return None;
    }
    let link = match src.dir {
        Direction::Outgoing => circ.linked_out(x, src.index),
        Direction::Incoming => circ.linked_in(x, src.index),
    };
    match link {
        Some(r) => {
            proof {
                assert(circ@.out_link_ok(x as int, src.index as int));
                assert(circ@.in_link_ok(x as int, src.index as int));
            }
            if r.port == dst.index {
                Some(r.node)
            } else {
                None
            }
        },
        None => None,
    }
}

/// `map` is a match of `p` in `c` that sends the root of `p` to `target`.
pub open spec fn rooted_match(p: CircuitPattern, c: CircuitModel, map: Seq<usize>, target: usize) -> bool {
    is_match(p.model(), c, map) && map[p.node_seq()[0] as int] == target
}

/// Walk the line of pattern `p` in `circ` from `target`: the nodes reached
/// by its edge checks, as a map from the pattern's nodes (`usize::MAX`
/// where the walk stopped short). Any match of `p` that sends its root to
/// `target` agrees with this map on every operation node of `p`.
fn follow_line(p: &CircuitPattern, circ: &Circuit, target: usize) -> (r: Vec<usize>)
    requires
        p.valid(),
        circ@.wf(),
    ensures
        r@.len() == p.model().n_nodes(),
        forall|map: Seq<usize>|
            #[trigger] rooted_match(*p, circ@, map, target) ==> forall|g: int|
                #[trigger] p.model().is_gate_node(g) ==> r@[g] == map[g],
{
    let ghost pm = p.circuit@;
    let ghost order = p.order@;
    let pn = p.circuit.node_count();
    let mut matched: Vec<usize> = vec![target];
    let mut i: usize = 0;
    while i < p.line.len()
        invariant
            p.valid(),
            circ@.wf(),
            pm == p.model(),
            order == p.order@,
            i <= p.line@.len(),
            matched@.len() == i + 1,
            forall|map: Seq<usize>|
                #[trigger] rooted_match(*p, circ@, map, target) ==> forall|j: int|
                    0 <= j <= i ==> matched@[j] == map[order[j] as int],
        ensures
            matched@.len() == i + 1,
            forall|map: Seq<usize>|
                #[trigger] rooted_match(*p, circ@, map, target) ==> forall|j: int|
                    0 <= j <= i ==> matched@[j] == map[order[j] as int],
            (exists|map: Seq<usize>| #[trigger] rooted_match(*p, circ@, map, target)) ==> i == p.line@.len(),
        decreases p.line@.len() - i,
    {
        let step = p.line[i];
        proof {
            assert(is_line(pm, order, p.line@));
            assert(p.line@[i as int].from <= i);
        }
        let yo = follow_edge(circ, matched[step.from], step.edge);
        let ok = match yo {
            Some(y) => y >= 2 && circ.contains_node(y) && circ.op(y) == step.op,
            None => false,
        };
        proof {
            if exists|map: Seq<usize>| #[trigger] rooted_match(*p, circ@, map, target) {
                let map = choose|map: Seq<usize>| #[trigger] rooted_match(*p, circ@, map, target);
                let a = order[step.from as int];
                let b = order[i + 1];
                assert(pm.is_gate_node(a as int));
                assert(pm.is_gate_node(b as int));
                lemma_match_follows(pm, circ@, map, a, b, step.edge);
                assert(matched@[step.from as int] == map[a as int]);
                assert(ok);
            }
        }
        if !ok {
            break;
        }
        let y = yo.unwrap();
        let ghost before = matched@;
        matched.push(y);
        proof {
            assert forall|map: Seq<usize>| #[trigger] rooted_match(*p, circ@, map, target) implies forall|j: int|
                0 <= j <= i + 1 ==> matched@[j] == map[order[j] as int] by {
                let a = order[step.from as int];
                let b = order[i + 1];
                assert(pm.is_gate_node(a as int));
                assert(pm.is_gate_node(b as int));
                lemma_match_follows(pm, circ@, map, a, b, step.edge);
                assert(before[step.from as int] == map[a as int]);
                assert forall|j: int| 0 <= j <= i + 1 implies matched@[j] == map[order[j] as int] by {
                    if j <= i {
                        assert(matched@[j] == before[j]);
                    }
                }
            }
        }
        i = i + 1;
    }
    let mut map: Vec<usize> = Vec::new();
    let mut k: usize = 0;
    while k < pn
        invariant
            k <= pn,
            map@.len() == k,
        decreases pn - k,
    {
        map.push(usize::MAX);
        k = k + 1;
    }
    let mut j: usize = 0;
    while j < matched.len() && j < p.order.len()
        invariant
            p.valid(),
            pm == p.model(),
            order == p.order@,
            pn == pm.n_nodes(),
            map@.len() == pn,
            j <= order.len(),
            forall|t: int| 0 <= t < j ==> map@[#[trigger] order[t] as int] == matched@[t],
        decreases matched@.len() - j,
    {
        let g = p.order[j];
        proof {
            assert(is_line(pm, order, p.line@));
            assert(pm.is_gate_node(order[j as int] as int));
        }
        let ghost before = map@;
        map.set(g, matched[j]);
        proof {
            assert forall|t: int| 0 <= t < j + 1 implies map@[#[trigger] order[t] as int] == matched@[t] by {
                if t < j {
                    assert(order[t] != order[j as int]);
                    assert(map@[order[t] as int] == before[order[t] as int]);
                }
            }
        }
        j = j + 1;
    }
    proof {
        assert forall|mp: Seq<usize>| #[trigger] rooted_match(*p, circ@, mp, target) implies forall|g: int|
            #[trigger] pm.is_gate_node(g) ==> map@[g] == mp[g] by {
            assert forall|g: int| #[trigger] pm.is_gate_node(g) implies map@[g] == mp[g] by {
                assert(order.contains(g as usize));
                let t = choose|t: int| 0 <= t < order.len() && order[t] == g as usize;
                assert(is_line(pm, order, p.line@));
                assert(map@[order[t] as int] == matched@[t]);
            }
        }
    }
    map
}

/// Match `a` comes before match `b`: a smaller root, or the same root and
/// a smaller pattern. Listed this way, no match appears twice.
pub open spec fn match_before(a: PatternMatch, b: PatternMatch) -> bool {
    a.root_spec() < b.root_spec() || (a.root_spec() == b.root_spec() && a.pattern_spec() < b.pattern_spec())
}

/// The image of a pattern's operation nodes under a match is a list of
/// distinct operation nodes.
pub proof fn lemma_image_valid(p: CircuitPattern, c: CircuitModel, map: Seq<usize>)
    requires
        p.valid(),
        is_match(p.model(), c, map),
    ensures
        valid_nodes(c, image(p.node_seq(), map)),
        image(p.node_seq(), map).len() == p.node_seq().len(),
        image(p.node_seq(), map).len() > 0,
{
    let nodes = p.node_seq();
    let im = image(nodes, map);
    assert forall|k: int| 0 <= k < im.len() implies c.is_gate_node(#[trigger] im[k] as int) by {
        assert(p.model().is_gate_node(nodes[k] as int));
    }
    assert forall|a: int, b: int| 0 <= a < im.len() && 0 <= b < im.len() && a != b implies im[a] != im[b] by {
        assert(p.model().is_gate_node(nodes[a] as int));
        assert(p.model().is_gate_node(nodes[b] as int));
        assert(nodes[a] != nodes[b]);
        assert(map[nodes[a] as int] != map[nodes[b] as int]);
    }
}

/// A convex match of a pattern in a circuit.
pub struct PatternMatch {
    position: Subcircuit,
    pattern: usize,
    root: usize,
}

/// Errors from building a match.
#[derive(Clone, Copy, Debug, PartialEq, Eq, Structural)]
pub enum InvalidPatternMatch {
    /// The match is not convex.
    NotConvex,
    /// The pattern does not match at the root.
    MatchNotFound,
    /// The matched nodes are not a valid subcircuit.
    InvalidSubcircuit,
    /// The match is empty.
    EmptyMatch,
}

/// The images of the pattern's operation nodes.
pub open spec fn image(nodes: Seq<usize>, map: Seq<usize>) -> Seq<usize> {
    nodes.map_values(|g: usize| map[g as int])
}

impl PatternMatch {
    pub closed spec fn pattern_spec(&self) -> usize {
        self.pattern
    }

    pub closed spec fn root_spec(&self) -> usize {
        self.root
    }

    pub closed spec fn node_seq(&self) -> Seq<usize> {
        self.position.node_seq()
    }

    /// The matched pattern.
    pub fn pattern_id(&self) -> (r: usize)
        ensures
            r == self.pattern_spec(),
    {
        self.pattern
    }

    /// The node of the circuit the pattern's root is matched to.
    pub fn root(&self) -> (r: usize)
        ensures
            r == self.root_spec(),
    {
        self.root
    }

    /// The matched subcircuit.
    pub fn subcircuit(&self) -> (r: &Subcircuit)
        ensures
            r.node_seq() == self.node_seq(),
    {
        &self.position
    }

    /// The matched nodes of the circuit.
    pub fn nodes(&self) -> (r: &Vec<usize>)
        ensures
            r@ == self.node_seq(),
    {
        self.position.nodes()
    }

    /// The match of pattern `pattern` whose root is sent to `root`, when
    /// there is one and its image is a convex subcircuit.
    pub fn try_from_root_match(
        root: usize,
        pattern: usize,
        circ: &Circuit,
        matcher: &PatternMatcher,
    ) -> (r: Result<PatternMatch, InvalidPatternMatch>)
        requires
            circ@.wf(),
            matcher.valid(),
        ensures
            pattern >= matcher.patterns_spec().len() ==> r == Err::<PatternMatch, InvalidPatternMatch>(
                InvalidPatternMatch::MatchNotFound,
            ),
            pattern < matcher.patterns_spec().len() ==> {
                let pat = matcher.patterns_spec()[pattern as int];
                &&& (r is Ok <==> exists|map: Seq<usize>|
                    #[trigger] rooted_match(pat, circ@, map, root) && is_convex(
                        circ@,
                        image(pat.node_seq(), map),
                    ))
                &&& (r == Err::<PatternMatch, InvalidPatternMatch>(InvalidPatternMatch::NotConvex) <==> exists|
                    map: Seq<usize>,
                |
                    #[trigger] rooted_match(pat, circ@, map, root) && !is_convex(
                        circ@,
                        image(pat.node_seq(), map),
                    ))
                &&& (r == Err::<PatternMatch, InvalidPatternMatch>(InvalidPatternMatch::MatchNotFound) <==> !exists|
                    map: Seq<usize>,
                | #[trigger] rooted_match(pat, circ@, map, root))
            },
            r matches Ok(pm) ==> {
                &&& pattern < matcher.patterns_spec().len()
                &&& pm.pattern_spec() == pattern
                &&& pm.root_spec() == root
                &&& exists|map: Seq<usize>|
                    #[trigger] rooted_match(matcher.patterns_spec()[pattern as int], circ@, map, root)
                        && pm.node_seq() == image(matcher.patterns_spec()[pattern as int].node_seq(), map)
                &&& is_convex(circ@, pm.node_seq())
                &&& valid_nodes(circ@, pm.node_seq())
            },
    {
        if pattern >= matcher.patterns.len() {
            return Err(InvalidPatternMatch::MatchNotFound);
        }
        let p = &matcher.patterns[pattern];
        let ghost pat = matcher.patterns_spec()[pattern as int];
        proof {
            assert(pat.valid());
            assert(*p == pat);
        }
        let map = follow_line(p, circ, root);
        let root_node = p.nodes[0];
        proof {
            assert(p.model().is_gate_node(p.node_seq()[0] as int));
            if exists|m: Seq<usize>| #[trigger] rooted_match(pat, circ@, m, root) {
                let m = choose|m: Seq<usize>| #[trigger] rooted_match(pat, circ@, m, root);
                lemma_match_agree(pat.model(), circ@, m, map@);
            }
        }
        if !check_match(&p.circuit, circ, &map) || map[root_node] != root {
            proof {
                if exists|m: Seq<usize>| #[trigger] rooted_match(pat, circ@, m, root) {
                    let m = choose|m: Seq<usize>| #[trigger] rooted_match(pat, circ@, m, root);
                    assert(map@[root_node as int] == m[root_node as int]);
                }
            }
            return Err(InvalidPatternMatch::MatchNotFound);
        }
        proof {
            assert(rooted_match(pat, circ@, map@, root));
        }
        let mut nodes: Vec<usize> = Vec::new();
        let mut i: usize = 0;
        while i < p.nodes.len()
            invariant
                p.valid(),
                map@.len() == p.model().n_nodes(),
                i <= p.node_seq().len(),
                nodes@ == image(p.node_seq().take(i as int), map@),
            decreases p.node_seq().len() - i,
        {
            proof {
                assert(p.model().is_gate_node(p.node_seq()[i as int] as int));
                assert(image(p.node_seq().take(i + 1), map@) =~= image(p.node_seq().take(i as int), map@).push(
                    map@[p.node_seq()[i as int] as int],
                ));
            }
            nodes.push(map[p.nodes[i]]);
            i = i + 1;
        }
        proof {
            assert(p.node_seq().take(p.node_seq().len() as int) =~= p.node_seq());
            lemma_image_valid(pat, circ@, map@);
            // Every rooted match has the same image.
            assert forall|m: Seq<usize>| #[trigger] rooted_match(pat, circ@, m, root) implies image(
                pat.node_seq(),
                m,
            ) == nodes@ by {
                assert forall|k: int| 0 <= k < nodes@.len() implies image(pat.node_seq(), m)[k] == nodes@[k] by {
                    assert(pat.model().is_gate_node(pat.node_seq()[k] as int));
                }
                assert(image(pat.node_seq(), m) =~= nodes@);
            }
        }
        match Subcircuit::try_new(circ, nodes) {
            Ok(position) => Ok(PatternMatch { position, pattern, root }),
            Err(InvalidSubgraph::NotConvex) => Err(InvalidPatternMatch::NotConvex),
            Err(InvalidSubgraph::EmptySubgraph) => Err(InvalidPatternMatch::EmptyMatch),
            Err(_) => Err(InvalidPatternMatch::InvalidSubcircuit),
        }
    }

    /// A rewrite replacing the match by `replacement`, adding `phase`.
    pub fn to_rewrite(self, replacement: Circuit, phase: i64) -> (r: CircuitRewrite)
        ensures
            r.nodes() == self.node_seq(),
            r.replacement() == replacement@,
            r.phase_delta() == phase,
    {
        CircuitRewrite::new(self.position, replacement, phase)
    }
}

/// A set of patterns, each compiled to a line pattern, matched together
/// against circuits.
pub struct PatternMatcher {
    patterns: Vec<CircuitPattern>,
}

impl PatternMatcher {
    pub closed spec fn patterns_spec(&self) -> Seq<CircuitPattern> {
        self.patterns@
    }

    /// Every pattern is valid.
    pub open spec fn valid(&self) -> bool {
        forall|i: int| 0 <= i < self.patterns_spec().len() ==> #[trigger] self.patterns_spec()[i].valid()
    }

    /// A matcher for a set of patterns.
    pub fn from_patterns(patterns: Vec<CircuitPattern>) -> (r: PatternMatcher)
        ensures
            r.patterns_spec() == patterns@,
    {
        PatternMatcher { patterns }
    }

    /// The pattern with identifier `id`.
    pub fn get_pattern(&self, id: usize) -> (r: Option<&CircuitPattern>)
        ensures
            id < self.patterns_spec().len() ==> r == Some(&self.patterns_spec()[id as int]),
            id >= self.patterns_spec().len() ==> r is None,
    {
        if id < self.patterns.len() {
            Some(&self.patterns[id])
        } else {
            None
        }
    }

    /// The number of patterns.
    pub fn n_patterns(&self) -> (r: usize)
        ensures
            r == self.patterns_spec().len(),
    {
        self.patterns.len()
    }

    /// The convex matches of all patterns rooted at `root`, in pattern
    /// order: one for each pattern that has a match sending its root to
    /// `root` whose image is convex. A pattern matched only by non-convex
    /// images is left out; no other failure can occur.
    pub fn find_rooted_matches(&self, circ: &Circuit, root: usize) -> (r: Vec<PatternMatch>)
        requires
            circ@.wf(),
            self.valid(),
        ensures
            forall|k: int| 0 <= k < r@.len() ==> #[trigger] self.realised_at(circ@, r@[k], root),
            forall|k1: int, k2: int| 0 <= k1 < k2 < r@.len() ==> r@[k1].pattern_spec() < r@[k2].pattern_spec(),
            forall|id: int|
                0 <= id < self.patterns_spec().len() && #[trigger] self.has_convex_match(circ@, id, root) ==> exists|k: int| 0 <= k < r@.len() && #[trigger] r@[k].pattern_spec() == id,
    {
        let mut out: Vec<PatternMatch> = Vec::new();
        let mut id: usize = 0;
        while id < self.patterns.len()
            invariant
                circ@.wf(),
                self.valid(),
                id <= self.patterns_spec().len(),
                forall|k: int| 0 <= k < out@.len() ==> #[trigger] self.realised_at(circ@, out@[k], root),
                forall|k: int| 0 <= k < out@.len() ==> #[trigger] out@[k].pattern_spec() < id,
                forall|k1: int, k2: int| 0 <= k1 < k2 < out@.len() ==> out@[k1].pattern_spec() < out@[k2].pattern_spec(),
                forall|i: int|
                    0 <= i < id && #[trigger] self.has_convex_match(circ@, i, root) ==> exists|k: int| 0 <= k < out@.len() && #[trigger] out@[k].pattern_spec() == i,
            decreases self.patterns_spec().len() - id,
        {
            let res = PatternMatch::try_from_root_match(root, id, circ, self);
            let ghost before = out@;
            if let Ok(m) = res {
                out.push(m);
                proof {
                    assert(out@[before.len() as int].pattern_spec() == id);
                    assert forall|i: int|
                        0 <= i < id + 1 && #[trigger] self.has_convex_match(circ@, i, root) implies exists|k: int| 0 <= k < out@.len() && #[trigger] out@[k].pattern_spec() == i by {
                        if i < id {
                            let k = choose|k: int| 0 <= k < before.len() && #[trigger] before[k].pattern_spec() == i;
                            assert(out@[k] == before[k]);
                        } else {
                            assert(out@[before.len() as int].pattern_spec() == i);
                        }
                    }
                    assert forall|k: int| 0 <= k < out@.len() implies #[trigger] self.realised_at(circ@, out@[k], root) by {
                        if k < before.len() {
                            assert(out@[k] == before[k]);
                        }
                    }
                }
            }
            id = id + 1;
        }
        out
    }

    /// Pattern `id` has a match in `c` sending its root to `root` whose
    /// image is convex.
    pub open spec fn has_convex_match(&self, c: CircuitModel, id: int, root: usize) -> bool {
        exists|map: Seq<usize>|
            #[trigger] rooted_match(self.patterns_spec()[id], c, map, root) && is_convex(
                c,
                image(self.patterns_spec()[id].node_seq(), map),
            )
    }

    /// `m` is a convex match of one of the patterns in `c`, rooted at `root`.
    pub open spec fn realised_at(&self, c: CircuitModel, m: PatternMatch, root: usize) -> bool {
        self.realised(c, m) && m.root_spec() == root
    }

    /// `m` is a convex match of one of the patterns in `c`, rooted at an
    /// operation node.
    pub open spec fn realised_in(&self, c: CircuitModel, m: PatternMatch) -> bool {
        self.realised(c, m) && c.is_gate_node(m.root_spec() as int)
    }

    /// `m` is a convex match of one of the patterns in `c`.
    pub open spec fn realised(&self, c: CircuitModel, m: PatternMatch) -> bool {
        &&& m.pattern_spec() < self.patterns_spec().len()
        &&& exists|map: Seq<usize>|
            #[trigger] rooted_match(self.patterns_spec()[m.pattern_spec() as int], c, map, m.root_spec())
                && m.node_seq() == image(self.patterns_spec()[m.pattern_spec() as int].node_seq(), map)
        &&& is_convex(c, m.node_seq())
        &&& valid_nodes(c, m.node_seq())
    }

    /// The convex matches of all patterns at every operation node of the
    /// circuit: for each node, in increasing order, the matches rooted
    /// there.
    pub fn find_matches(&self, circ: &Circuit) -> (r: Vec<PatternMatch>)
        requires
            circ@.wf(),
            self.valid(),
        ensures
            forall|k: int|
                0 <= k < r@.len() ==> #[trigger] self.realised_in(circ@, r@[k]),
            forall|root: usize, id: int|
                circ@.is_gate_node(root as int) && 0 <= id < self.patterns_spec().len() && #[trigger] self.has_convex_match(circ@, id, root) ==> exists|k: int|
                    0 <= k < r@.len() && #[trigger] r@[k].pattern_spec() == id && r@[k].root_spec() == root,
            forall|k1: int, k2: int|
                0 <= k1 < k2 < r@.len() ==> match_before(r@[k1], r@[k2]),
    {
        let n = circ.node_count();
        let mut out: Vec<PatternMatch> = Vec::new();
        let mut x: usize = 0;
        while x < n
            invariant
                circ@.wf(),
                self.valid(),
                n == circ@.n_nodes(),
                x <= n,
                forall|k: int|
                    0 <= k < out@.len() ==> #[trigger] self.realised_in(circ@, out@[k]),
                forall|root: usize, id: int|
                    root < x && circ@.is_gate_node(root as int) && 0 <= id < self.patterns_spec().len() && #[trigger] self.has_convex_match(circ@, id, root) ==> exists|k: int|
                        0 <= k < out@.len() && #[trigger] out@[k].pattern_spec() == id && out@[k].root_spec() == root,
                forall|k1: int, k2: int|
                    0 <= k1 < k2 < out@.len() ==> match_before(out@[k1], out@[k2]),
                forall|k: int| 0 <= k < out@.len() ==> (#[trigger] out@[k]).root_spec() < x,
            decreases n - x,
        {
            if x >= 2 && circ.contains_node(x) {
                let mut found = self.find_rooted_matches(circ, x);
                let ghost before = out@;
                let ghost fs = found@;
                out.append(&mut found);
                proof {
                    assert(out@ == before + fs);
                    assert forall|k1: int, k2: int| 0 <= k1 < k2 < out@.len() implies match_before(out@[k1], out@[k2]) by {
                        if k2 < before.len() {
                            assert(out@[k1] == before[k1] && out@[k2] == before[k2]);
                        } else if k1 < before.len() {
                            assert(out@[k1] == before[k1]);
                            assert(out@[k2] == fs[k2 - before.len()]);
                            assert(self.realised_at(circ@, fs[k2 - before.len()], x));
                            assert(before[k1].root_spec() < x);
                        } else {
                            assert(out@[k1] == fs[k1 - before.len()]);
                            assert(out@[k2] == fs[k2 - before.len()]);
                            assert(self.realised_at(circ@, fs[k1 - before.len()], x));
                            assert(self.realised_at(circ@, fs[k2 - before.len()], x));
                        }
                    }
                    assert forall|k: int| 0 <= k < out@.len() implies (#[trigger] out@[k]).root_spec() < x + 1 by {
                        if k < before.len() {
                            assert(out@[k] == before[k]);
                        } else {
                            assert(out@[k] == fs[k - before.len()]);
                            assert(self.realised_at(circ@, fs[k - before.len()], x));
                        }
                    }
                    assert forall|k: int| 0 <= k < out@.len() implies #[trigger] self.realised_in(circ@, out@[k]) by {
                        if k < before.len() {
                            assert(out@[k] == before[k]);
                        } else {
                            assert(out@[k] == fs[k - before.len()]);
                            assert(self.realised_at(circ@, fs[k - before.len()], x));
                        }
                    }
                    assert forall|root: usize, id: int|
                        root < x + 1 && circ@.is_gate_node(root as int) && 0 <= id < self.patterns_spec().len() && #[trigger] self.has_convex_match(circ@, id, root) implies exists|k: int|
                            0 <= k < out@.len() && #[trigger] out@[k].pattern_spec() == id && out@[k].root_spec() == root by {
                        if root == x {
                            assert(self.has_convex_match(circ@, id, x));
                            let k = choose|k: int| 0 <= k < fs.len() && #[trigger] fs[k].pattern_spec() == id;
                            assert(out@[before.len() + k] == fs[k]);
                            assert(self.realised_at(circ@, fs[k], x));
                        } else {
                            let k = choose|k: int|
                                0 <= k < before.len() && #[trigger] before[k].pattern_spec() == id && before[k].root_spec()
                                    == root;
                            assert(out@[k] == before[k]);
                        }
                    }
                }
            }
            x = x + 1;
        }
        out
    }
}

/// The identity map on the nodes of a circuit.
pub open spec fn identity_map(n: nat) -> Seq<usize> {
    Seq::new(n, |i: int| i as usize)
}

/// A circuit matches itself: the identity map is a match of the circuit as
/// a pattern in the circuit.
pub proof fn lemma_identity_is_match(c: CircuitModel)
    requires
        c.wf(),
    ensures
        is_match(c, c, identity_map(c.n_nodes())),
{
    let map = identity_map(c.n_nodes());
    assert forall|g: int, q: int|
        c.is_gate_node(g) && 0 <= q < c.outs[g].len() implies (#[trigger] c.outs[g][q] matches Some(r) ==> (
        c.is_gate_node(r.node as int) ==> c.outs[map[g] as int][q] == Some(
            PortRef { node: map[r.node as int], port: r.port },
        ))) by {
        assert(c.out_link_ok(g, q));
    }
    assert forall|g: int, q: int|
        c.is_gate_node(g) && 0 <= q < c.ins[g].len() && #[trigger] c.ins[g][q] is Some && !c.is_gate_node(
            c.ins[g][q].unwrap().node as int,
        ) implies outside_image(c, map, c.ins[map[g] as int][q]) by {
        assert(c.in_link_ok(g, q));
        let x = c.ins[g][q].unwrap();
        assert forall|h: int| #[trigger] c.is_gate_node(h) implies map[h] != x.node by {
            if map[h] == x.node {
                assert(c.node_wf(x.node as int));
            }
        }
    }
    assert forall|g: int, q: int|
        c.is_gate_node(g) && 0 <= q < c.outs[g].len() && #[trigger] c.outs[g][q] is Some && !c.is_gate_node(
            c.outs[g][q].unwrap().node as int,
        ) implies outside_image(c, map, c.outs[map[g] as int][q]) by {
        assert(c.out_link_ok(g, q));
        let x = c.outs[g][q].unwrap();
        assert forall|h: int| #[trigger] c.is_gate_node(h) implies map[h] != x.node by {
            if map[h] == x.node {
                assert(c.node_wf(x.node as int));
            }
        }
    }
}

/// The set of all operation nodes of a circuit is convex: a path that
/// leaves it reaches Output, and nothing leaves Output.
pub proof fn lemma_all_operations_convex(c: CircuitModel, s: Seq<usize>)
    requires
        c.wf(),
        forall|g: int| #[trigger] c.is_gate_node(g) ==> s.contains(g as usize),
        forall|k: int| 0 <= k < s.len() ==> c.is_gate_node(#[trigger] s[k] as int),
    ensures
        is_convex(c, s),
{
    assert forall|path: Seq<usize>| !#[trigger] crate::rewrite::reenters(c, s, path) by {
        if crate::rewrite::reenters(c, s, path) {
            let pre = path.drop_last();
            assert(crate::rewrite::leaves(c, s, pre));
            assert(crate::rewrite::linked(c, pre[0int], pre[0int + 1]));
            let a = pre[0];
            let b = pre[1];
            let k = choose|k: int| 0 <= k < s.len() && s[k] == a;
            assert(c.is_gate_node(s[k] as int));
            let p = choose|p: int|
                0 <= p < c.outs[a as int].len() && (#[trigger] c.outs[a as int][p] matches Some(r) && r.node == b);
            assert(c.out_link_ok(a as int, p));
            assert(c.node_wf(b as int));
            assert(!s.contains(b));
            let r = c.outs[a as int][p].unwrap();
            assert(c.ins[b as int][r.port as int] is Some);
            assert(c.live[b as int]);
            assert(b != 0);
            if b != OUTPUT {
                assert(c.is_gate_node(b as int));
            }
            assert(b == OUTPUT);
            assert(crate::rewrite::linked(c, path[1], path[2])) by {
                if path.len() > 3 {
                    assert(crate::rewrite::linked(c, pre[1int], pre[1int + 1]));
                }
            }
            let p2 = choose|p2: int|
                0 <= p2 < c.outs[b as int].len() && (#[trigger] c.outs[b as int][p2] matches Some(r) && r.node
                    == path[2]);
        }
    }
}

/// A circuit's own pattern matches it with every operation in the image,
/// and that image is a convex set of distinct operation nodes.
pub proof fn lemma_whole_circuit_pattern(p: CircuitPattern, c: CircuitModel)
    requires
        p.valid(),
        p.model() == c,
    ensures
        is_match(p.model(), c, identity_map(c.n_nodes())),
        image(p.node_seq(), identity_map(c.n_nodes())) == p.node_seq(),
        is_convex(c, p.node_seq()),
        valid_nodes(c, p.node_seq()),
        forall|g: int| #[trigger] c.is_gate_node(g) ==> p.node_seq().contains(g as usize),
{
    lemma_identity_is_match(c);
    let nodes = p.node_seq();
    assert forall|k: int| 0 <= k < nodes.len() implies c.is_gate_node(#[trigger] nodes[k] as int) by {}
    assert(image(nodes, identity_map(c.n_nodes())) =~= nodes);
    lemma_all_operations_convex(c, nodes);
}

} // verus!
