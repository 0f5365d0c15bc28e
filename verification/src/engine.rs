//! The computation graph and reverse-mode differentiation over it.
//!
//! Nodes live in one arena, the `Graph`; a `Value` is a handle to a node.
//! A node is made from nodes that already exist, so every operand has a
//! smaller index than the node that uses it, and the graph cannot hold a
//! cycle.

use vstd::prelude::*;
use crate::scalar::Scalar;

verus! {

/// The operation that produced an internal node.
#[derive(Clone, Copy, Debug, PartialEq, Eq, Structural)]
pub enum OpType {
    Add,
    Sub,
    Mul,
    Div,
    Relu,
}

/// A handle to a node of a `Graph`: the node's index in the arena.
#[derive(Clone, Copy, Debug, PartialEq, Eq, Structural)]
pub struct Value {
    pub id: usize,
}

/// What the arena stores for one node.
#[derive(Clone, Debug)]
pub struct ValueData {
    pub data: Scalar,
    pub grad: Scalar,
    pub src: Vec<Value>,
    pub op: Option<OpType>,
    pub param: bool,
}

/// The mathematical content of a node.
pub struct Node {
    pub data: Scalar,
    pub grad: Scalar,
    pub src: Seq<Value>,
    pub op: Option<OpType>,
    pub param: bool,
}

impl View for ValueData {
    type V = Node;

    open spec fn view(&self) -> Node {
        Node { data: self.data, grad: self.grad, src: self.src@, op: self.op, param: self.param }
    }
}

/// The arena that owns every node.
pub struct Graph {
    nodes: Vec<ValueData>,
}

impl View for Graph {
    type V = Seq<Node>;

    closed spec fn view(&self) -> Seq<Node> {
        Seq::new(self.nodes@.len(), |i: int| self.nodes@[i]@)
    }
}

impl OpType {
    /// How many operands a node of this operation has.
    pub open spec fn spec_arity(self) -> nat {
        match self {
            OpType::Relu => 1,
            _ => 2,
        }
    }

    /// How many operands a node of this operation has.
    pub fn arity(self) -> (n: usize)
        ensures
            n == self.spec_arity(),
    {
        match self {
            OpType::Relu => 1,
            _ => 2,
        }
    }
}

/// A node may stand at index `at`: it has as many operands as its operation
/// takes, each operand stands before it, and a parameter is a leaf.
pub open spec fn node_fits(n: Node, at: int) -> bool {
    &&& match n.op {
        None => n.src.len() == 0,
        Some(op) => n.src.len() == op.spec_arity(),
    }
    &&& forall|k: int| 0 <= k < n.src.len() ==> (#[trigger] n.src[k]).id < at
    &&& n.param ==> n.op is None
}

/// Every node of `g` may stand where it stands.
pub open spec fn well_formed(g: Seq<Node>) -> bool {
    forall|i: int| 0 <= i < g.len() ==> node_fits(#[trigger] g[i], i)
}

/// Two graphs that differ at most in gradients.
pub open spec fn same_shape(g: Seq<Node>, h: Seq<Node>) -> bool {
    &&& g.len() == h.len()
    &&& forall|i: int|
        0 <= i < g.len() ==> (#[trigger] h[i]).data == g[i].data && h[i].src == g[i].src && h[i].op
            == g[i].op && h[i].param == g[i].param
}

/// A leaf with gradient zero.
pub open spec fn leaf_node(data: Scalar, param: bool) -> Node {
    Node { data, grad: Scalar::spec_zero(), src: Seq::empty(), op: None, param }
}

/// The value that the rectifier passes on: zero for a number below zero,
/// the number itself otherwise (a NaN and a negative zero pass unchanged).
pub open spec fn rectified(a: Scalar) -> Scalar {
    if a.below_zero() {
        Scalar::spec_zero()
    } else {
        a
    }
}

/// The forward value of an operation on the operand values `a` and `b`
/// (`b` is not read by the rectifier).
pub open spec fn forward_value(op: OpType, a: Scalar, b: Scalar) -> Scalar {
    match op {
        OpType::Add => a.spec_add(b),
        OpType::Sub => a.spec_sub(b),
        OpType::Mul => a.spec_mul(b),
        OpType::Div => a.spec_div(b),
        OpType::Relu => rectified(a),
    }
}

/// The node that a binary operator makes from the nodes `a` and `b` of `g`.
pub open spec fn binary_node(g: Seq<Node>, op: OpType, a: Value, b: Value) -> Node {
    Node {
        data: forward_value(op, g[a.id as int].data, g[b.id as int].data),
        grad: Scalar::spec_zero(),
        src: seq![a, b],
        op: Some(op),
        param: false,
    }
}

/// The node that the rectifier makes from the node `a` of `g`.
pub open spec fn relu_node(g: Seq<Node>, a: Value) -> Node {
    Node {
        data: rectified(g[a.id as int].data),
        grad: Scalar::spec_zero(),
        src: seq![a],
        op: Some(OpType::Relu),
        param: false,
    }
}

/// Depth-first post-order from `v`, appended to `order`.
///
/// A node already in `order` is skipped; otherwise its operands are visited
/// first to last, and the node is appended after them.
pub open spec fn visit(g: Seq<Node>, v: Value, order: Seq<Value>) -> Seq<Value>
    decreases v.id, 1int, 0int,
{
    if v.id >= g.len() || order.contains(v) {
        order
    } else {
        visit_operands(g, v, 0, order).push(v)
    }
}

/// Visits the operands of `v` from the `k`-th on.
pub open spec fn visit_operands(g: Seq<Node>, v: Value, k: int, order: Seq<Value>) -> Seq<Value>
    decreases v.id, 0int, g[v.id as int].src.len() - k,
{
    let src = g[v.id as int].src;
    if 0 <= k < src.len() {
        let next = if src[k].id < v.id {
            visit(g, src[k], order)
        } else {
            order
        };
        visit_operands(g, v, k + 1, next)
    } else {
        order
    }
}

/// The order in which the nodes that `root` depends on are first finished:
/// leaves first, `root` last.
pub open spec fn topological_order(g: Seq<Node>, root: Value) -> Seq<Value> {
    visit(g, root, Seq::empty())
}

/// `g` with `delta` added to the gradient of node `target`.
pub open spec fn accumulate(g: Seq<Node>, target: int, delta: Scalar) -> Seq<Node> {
    g.update(target, Node { grad: g[target].grad.spec_add(delta), ..g[target] })
}

/// `g` with `delta` subtracted from the gradient of node `target`.
pub open spec fn deduct(g: Seq<Node>, target: int, delta: Scalar) -> Seq<Node> {
    g.update(target, Node { grad: g[target].grad.spec_sub(delta), ..g[target] })
}

/// One step of the backward pass: node `v` hands its gradient `d` on to its
/// operands, first operand first.
///
/// | operation | first operand | second operand |
/// |---|---|---|
/// | `Add` | `+= d` | `+= d` |
/// | `Sub` | `+= d` | `-= d` |
/// | `Mul` | `+= d * b` | `+= d * a` |
/// | `Div` | `+= d / b` | `-= d * a / (b * b)` |
/// | `Relu` | `+= d` if the node's own value is above zero, else `+= 0` | |
///
/// Each contribution is added to what the operand already holds, so a node
/// used twice receives both.
pub open spec fn propagate(g: Seq<Node>, v: int) -> Seq<Node> {
    let n = g[v];
    let d = n.grad;
    let a = n.src[0].id as int;
    let b = n.src[1].id as int;
    match n.op {
        None => g,
        Some(OpType::Add) => accumulate(accumulate(g, a, d), b, d),
        Some(OpType::Sub) => deduct(accumulate(g, a, d), b, d),
        Some(OpType::Mul) => accumulate(
            accumulate(g, a, d.spec_mul(g[b].data)),
            b,
            d.spec_mul(g[a].data),
        ),
        Some(OpType::Div) => deduct(
            accumulate(g, a, d.spec_div(g[b].data)),
            b,
            d.spec_mul(g[a].data).spec_div(g[b].data.spec_mul(g[b].data)),
        ),
        Some(OpType::Relu) => accumulate(
            g,
            a,
            if n.data.above_zero() {
                d
            } else {
                Scalar::spec_zero()
            },
        ),
    }
}

/// Propagates from `order[k - 1]` down to `order[0]`, in that order.
pub open spec fn sweep(g: Seq<Node>, order: Seq<Value>, k: int) -> Seq<Node>
    decreases k,
{
    if k <= 0 {
        g
    } else {
        sweep(propagate(g, order[k - 1].id as int), order, k - 1)
    }
}

/// The graph after a backward pass from `root`: the gradient of `root` is
/// set to one, then every node that `root` depends on propagates, in reverse
/// topological order.
pub open spec fn backward_pass(g: Seq<Node>, root: Value) -> Seq<Node> {
    let seeded = g.update(
        root.id as int,
        Node { grad: Scalar::spec_one(), ..g[root.id as int] },
    );
    let order = topological_order(g, root);
    sweep(seeded, order, order.len() as int)
}

/// For `i` up to `upto`, `visited[i]` says whether node `i` is in `order`.
pub open spec fn marks_agree(visited: Seq<bool>, order: Seq<Value>, upto: int) -> bool {
    forall|x: Value| x.id <= upto && x.id < visited.len() ==> visited[x.id as int] == #[trigger] order.contains(x)
}

/// After a push a sequence holds what it held, and what was pushed.
pub proof fn lemma_push_contains<A>(s: Seq<A>, v: A, x: A)
    ensures
        s.push(v).contains(x) <==> s.contains(x) || x == v,
{
    if s.contains(x) {
        let i = choose|i: int| 0 <= i < s.len() && s[i] == x;
        assert(s.push(v)[i] == x);
    }
    if x == v {
        assert(s.push(v)[s.len() as int] == x);
    }
}

/// A visit keeps what was in the order and adds only nodes up to `v`.
pub proof fn lemma_visit_extends(g: Seq<Node>, v: Value, order: Seq<Value>)
    ensures
        forall|x: Value| order.contains(x) ==> #[trigger] visit(g, v, order).contains(x),
        forall|x: Value| #[trigger] visit(g, v, order).contains(x) && !order.contains(x) ==> x.id <= v.id,
        order.len() <= visit(g, v, order).len(),
    decreases v.id, 1int, 0int,
{
    if v.id >= g.len() || order.contains(v) {
    } else {
        lemma_visit_operands_extends(g, v, 0, order);
        let mid = visit_operands(g, v, 0, order);
        assert(visit(g, v, order) == mid.push(v));
        assert forall|x: Value| order.contains(x) implies #[trigger] visit(g, v, order).contains(x) by {
            assert(mid.contains(x));
            lemma_push_contains(mid, v, x);
        }
        assert forall|x: Value| #[trigger] visit(g, v, order).contains(x) && !order.contains(x) implies x.id
            <= v.id by {
            lemma_push_contains(mid, v, x);
            if x != v {
                assert(mid.contains(x));
            }
        }
    }
}

/// Visiting operands keeps what was in the order and adds only nodes
/// below `v`.
pub proof fn lemma_visit_operands_extends(g: Seq<Node>, v: Value, k: int, order: Seq<Value>)
    ensures
        forall|x: Value| order.contains(x) ==> #[trigger] visit_operands(g, v, k, order).contains(x),
        forall|x: Value| #[trigger]
            visit_operands(g, v, k, order).contains(x) && !order.contains(x) ==> x.id < v.id,
        order.len() <= visit_operands(g, v, k, order).len(),
    decreases v.id, 0int, g[v.id as int].src.len() - k,
{
    let src = g[v.id as int].src;
    if 0 <= k < src.len() {
        let next = if src[k].id < v.id {
            visit(g, src[k], order)
        } else {
            order
        };
        if src[k].id < v.id {
            lemma_visit_extends(g, src[k], order);
        }
        lemma_visit_operands_extends(g, v, k + 1, next);
    }
}

/// Nodes keep their place when only gradients change.
pub proof fn lemma_same_shape_well_formed(g: Seq<Node>, h: Seq<Node>)
    requires
        well_formed(g),
        same_shape(g, h),
    ensures
        well_formed(h),
{
    assert forall|i: int| 0 <= i < h.len() implies node_fits(#[trigger] h[i], i) by {
        assert(node_fits(g[i], i));
    }
}

impl Graph {
    /// Every node has the operands its operation takes, and each operand
    /// stands before the node that uses it.
    pub open spec fn wf(&self) -> bool {
        well_formed(self@)
    }

    /// `v` names a node of this graph.
    pub open spec fn has(&self, v: Value) -> bool {
        v.id < self@.len()
    }

    /// A graph without nodes.
    pub fn new() -> (g: Graph)
        ensures
            g@ == Seq::<Node>::empty(),
            g.wf(),
    {
        let g = Graph { nodes: Vec::new() };
        assert(g@ =~= Seq::<Node>::empty());
        g
    }

    /// How many nodes the graph holds.
    pub fn len(&self) -> (n: usize)
        ensures
            n == self@.len(),
    {
        self.nodes.len()
    }

    /// Whether `v` names a node of this graph.
    pub fn contains(&self, v: Value) -> (b: bool)
        ensures
            b == self.has(v),
    {
        v.id < self.nodes.len()
    }

    /// What the graph stores for `v`.
    pub fn get(&self, v: Value) -> (node: &ValueData)
        requires
            self.has(v),
        ensures
            node@ == self@[v.id as int],
    {
        &self.nodes[v.id]
    }

    /// The value of `v`.
    pub fn data(&self, v: Value) -> (x: Scalar)
        requires
            self.has(v),
        ensures
            x == self@[v.id as int].data,
    {
        self.nodes[v.id].data
    }

    /// The gradient accumulated on `v`.
    pub fn grad(&self, v: Value) -> (x: Scalar)
        requires
            self.has(v),
        ensures
            x == self@[v.id as int].grad,
    {
        self.nodes[v.id].grad
    }

    /// Drops every node from index `len` on. What is kept never refers to
    /// what is dropped, since operands stand before their users.
    pub fn truncate(&mut self, len: usize)
        requires
            old(self).wf(),
        ensures
            final(self).wf(),
            len <= old(self)@.len() ==> final(self)@ == old(self)@.take(len as int),
            len > old(self)@.len() ==> final(self)@ == old(self)@,
    {
        self.nodes.truncate(len);
        proof {
            if len <= old(self)@.len() {
                assert(self@ =~= old(self)@.take(len as int));
            } else {
                assert(self@ =~= old(self)@);
            }
        }
    }

    /// Appends a node; its handle is the old length.
    fn push_node(&mut self, node: ValueData) -> (v: Value)
        requires
            old(self).wf(),
            node_fits(node@, old(self)@.len() as int),
        ensures
            final(self).wf(),
            final(self)@ == old(self)@.push(node@),
            v.id == old(self)@.len(),
    {
        let id = self.nodes.len();
        self.nodes.push(node);
        proof {
            assert(self@ =~= old(self)@.push(node@));
        }
        Value { id }
    }

    /// Overwrites the gradient of `v`.
    pub(crate) fn set_grad(&mut self, v: Value, grad: Scalar)
        requires
            old(self).wf(),
            old(self).has(v),
        ensures
            final(self).wf(),
            final(self)@ == old(self)@.update(
                v.id as int,
                Node { grad, ..old(self)@[v.id as int] },
            ),
    {
        self.nodes[v.id].grad = grad;
        proof {
            let h = old(self)@.update(v.id as int, Node { grad, ..old(self)@[v.id as int] });
            assert(self@ =~= h);
            lemma_same_shape_well_formed(old(self)@, h);
        }
    }

    /// Overwrites the value of `v`.
    pub(crate) fn set_data(&mut self, v: Value, data: Scalar)
        requires
            old(self).wf(),
            old(self).has(v),
        ensures
            final(self).wf(),
            final(self)@ == old(self)@.update(
                v.id as int,
                Node { data, ..old(self)@[v.id as int] },
            ),
    {
        self.nodes[v.id].data = data;
        proof {
            let h = old(self)@.update(v.id as int, Node { data, ..old(self)@[v.id as int] });
            assert(self@ =~= h);
            assert forall|i: int| 0 <= i < h.len() implies node_fits(#[trigger] h[i], i) by {
                assert(node_fits(old(self)@[i], i));
            }
        }
    }

    /// Adds `delta` to the gradient of `v`.
    fn add_to_grad(&mut self, v: Value, delta: Scalar)
        requires
            old(self).wf(),
            old(self).has(v),
        ensures
            final(self).wf(),
            final(self)@ == accumulate(old(self)@, v.id as int, delta),
            same_shape(old(self)@, final(self)@),
    {
        let sum = self.nodes[v.id].grad.add(delta);
        self.set_grad(v, sum);
    }

    /// Subtracts `delta` from the gradient of `v`.
    fn sub_from_grad(&mut self, v: Value, delta: Scalar)
        requires
            old(self).wf(),
            old(self).has(v),
        ensures
            final(self).wf(),
            final(self)@ == deduct(old(self)@, v.id as int, delta),
            same_shape(old(self)@, final(self)@),
    {
        let difference = self.nodes[v.id].grad.sub(delta);
        self.set_grad(v, difference);
    }

    /// The operation that made `v`, if any.
    pub fn op(&self, v: Value) -> (op: Option<OpType>)
        requires
            self.has(v),
        ensures
            op == self@[v.id as int].op,
    {
        self.nodes[v.id].op
    }

    /// The `k`-th operand of `v`.
    pub fn operand(&self, v: Value, k: usize) -> (x: Value)
        requires
            self.has(v),
            k < self@[v.id as int].src.len(),
        ensures
            x == self@[v.id as int].src[k as int],
    {
        self.nodes[v.id].src[k]
    }

    /// How many operands `v` has.
    pub fn operand_count(&self, v: Value) -> (n: usize)
        requires
            self.has(v),
        ensures
            n == self@[v.id as int].src.len(),
    {
        self.nodes[v.id].src.len()
    }

    /// Whether `v` is a trainable leaf.
    pub fn is_param(&self, v: Value) -> (b: bool)
        requires
            self.has(v),
        ensures
            b == self@[v.id as int].param,
    {
        self.nodes[v.id].param
    }

    /// Node `v` hands its gradient on to its operands.
    fn propagate_from(&mut self, v: Value)
        requires
            old(self).wf(),
            old(self).has(v),
        ensures
            final(self).wf(),
            final(self)@ == propagate(old(self)@, v.id as int),
            same_shape(old(self)@, final(self)@),
    {
        assert(node_fits(self@[v.id as int], v.id as int));
        let d = self.grad(v);
        match self.op(v) {
            None => {},
            Some(OpType::Add) => {
                let a = self.operand(v, 0);
                let b = self.operand(v, 1);
                self.add_to_grad(a, d);
                self.add_to_grad(b, d);
            },
            Some(OpType::Sub) => {
                let a = self.operand(v, 0);
                let b = self.operand(v, 1);
                self.add_to_grad(a, d);
                self.sub_from_grad(b, d);
            },
            Some(OpType::Mul) => {
                let a = self.operand(v, 0);
                let b = self.operand(v, 1);
                let to_a = d.mul(self.data(b));
                let to_b = d.mul(self.data(a));
                self.add_to_grad(a, to_a);
                self.add_to_grad(b, to_b);
            },
            Some(OpType::Div) => {
                let a = self.operand(v, 0);
                let b = self.operand(v, 1);
                let divisor = self.data(b);
                let to_a = d.div(divisor);
                let from_b = d.mul(self.data(a)).div(divisor.mul(divisor));
                self.add_to_grad(a, to_a);
                self.sub_from_grad(b, from_b);
            },
            Some(OpType::Relu) => {
                let a = self.operand(v, 0);
                let passed = if self.data(v).gt_zero() {
                    d
                } else {
                    Scalar::zero()
                };
                self.add_to_grad(a, passed);
            },
        }
    }
}

/// Appends to `topo`, in post-order, the nodes below `node` that are not in
/// it yet. `visited` marks the nodes that `topo` holds.
fn build_topo(graph: &Graph, node: Value, visited: &mut Vec<bool>, topo: &mut Vec<Value>)
    requires
        graph.wf(),
        graph.has(node),
        old(visited)@.len() == graph@.len(),
        marks_agree(old(visited)@, old(topo)@, node.id as int),
    ensures
        final(topo)@ == visit(graph@, node, old(topo)@),
        final(visited)@.len() == graph@.len(),
        marks_agree(final(visited)@, final(topo)@, node.id as int),
        forall|i: int| node.id < i < graph@.len() ==> final(visited)@[i] == old(visited)@[i],
    decreases node.id,
{
    assert(old(topo)@.contains(node) == old(visited)@[node.id as int]);
    if visited[node.id] {
        return ;
    }
    visited[node.id] = true;
    assert(node_fits(graph@[node.id as int], node.id as int));
    let n = graph.operand_count(node);
    let mut k: usize = 0;
    while k < n
        invariant
            graph.wf(),
            graph.has(node),
            n == graph@[node.id as int].src.len(),
            0 <= k <= n,
            visited@.len() == graph@.len(),
            marks_agree(visited@, topo@, node.id as int - 1),
            visited@[node.id as int],
            !topo@.contains(node),
            !old(topo)@.contains(node),
            forall|i: int| node.id < i < graph@.len() ==> visited@[i] == old(visited)@[i],
            visit_operands(graph@, node, k as int, topo@) == visit_operands(
                graph@,
                node,
                0,
                old(topo)@,
            ),
        decreases n - k,
    {
        let child = graph.operand(node, k);
        assert(child.id < node.id);
        let ghost before = topo@;
        let ghost marks = visited@;
        build_topo(graph, child, visited, topo);
        proof {
            lemma_visit_extends(graph@, child, before);
            assert forall|x: Value| x.id <= node.id - 1 && x.id < visited@.len() implies visited@[x.id as int]
                == #[trigger] topo@.contains(x) by {
                if x.id > child.id {
                    assert(visited@[x.id as int] == marks[x.id as int]);
                    assert(marks[x.id as int] == before.contains(x));
                }
            }
        }
        k = k + 1;
    }
    topo.push(node);
    proof {
        let mid = visit_operands(graph@, node, 0, old(topo)@);
        assert forall|x: Value| x.id <= node.id && x.id < visited@.len() implies visited@[x.id as int]
            == #[trigger] topo@.contains(x) by {
            lemma_push_contains(mid, node, x);
        }
    }
}

impl Value {
    /// Makes a node of the given contents, not a parameter.
    fn new(data: Scalar, grad: Scalar, src: Vec<Value>, op: Option<OpType>, graph: &mut Graph) -> (v:
        Value)
        requires
            old(graph).wf(),
            node_fits(Node { data, grad, src: src@, op, param: false }, old(graph)@.len() as int),
        ensures
            final(graph).wf(),
            final(graph)@ == old(graph)@.push(Node { data, grad, src: src@, op, param: false }),
            v.id == old(graph)@.len(),
    {
        graph.push_node(ValueData { data, grad, src, op, param: false })
    }

    /// A new leaf that holds `data`, with gradient zero.
    pub fn from_scalar(data: Scalar, graph: &mut Graph) -> (v: Value)
        requires
            old(graph).wf(),
        ensures
            final(graph).wf(),
            final(graph)@ == old(graph)@.push(leaf_node(data, false)),
            v.id == old(graph)@.len(),
    {
        let src: Vec<Value> = Vec::new();
        assert(src@ =~= Seq::<Value>::empty());
        Value::new(data, Scalar::zero(), src, None, graph)
    }

    /// A new trainable leaf that holds `data`, with gradient zero.
    pub fn parameter(data: Scalar, graph: &mut Graph) -> (v: Value)
        requires
            old(graph).wf(),
        ensures
            final(graph).wf(),
            final(graph)@ == old(graph)@.push(leaf_node(data, true)),
            v.id == old(graph)@.len(),
    {
        let src: Vec<Value> = Vec::new();
        assert(src@ =~= Seq::<Value>::empty());
        graph.push_node(ValueData { data, grad: Scalar::zero(), src, op: None, param: true })
    }

    /// A new node for an operation on `self` and `rhs`, holding `data`.
    fn binary(&self, rhs: &Value, op: OpType, data: Scalar, graph: &mut Graph) -> (v: Value)
        requires
            old(graph).wf(),
            old(graph).has(*self),
            old(graph).has(*rhs),
            op != OpType::Relu,
            data == forward_value(
                op,
                old(graph)@[self.id as int].data,
                old(graph)@[rhs.id as int].data,
            ),
        ensures
            final(graph).wf(),
            final(graph)@ == old(graph)@.push(binary_node(old(graph)@, op, *self, *rhs)),
            v.id == old(graph)@.len(),
    {
        let mut src: Vec<Value> = Vec::new();
        src.push(*self);
        src.push(*rhs);
        assert(src@ =~= seq![*self, *rhs]);
        Value::new(data, Scalar::zero(), src, Some(op), graph)
    }

    /// A new node whose value is the sum of the two operands' values.
    pub fn add(&self, rhs: &Value, graph: &mut Graph) -> (v: Value)
        requires
            old(graph).wf(),
            old(graph).has(*self),
            old(graph).has(*rhs),
        ensures
            final(graph).wf(),
            final(graph)@ == old(graph)@.push(binary_node(old(graph)@, OpType::Add, *self, *rhs)),
            v.id == old(graph)@.len(),
    {
        let data = graph.data(*self).add(graph.data(*rhs));
        self.binary(rhs, OpType::Add, data, graph)
    }

    /// A new node whose value is that of `self` less that of `rhs`.
    pub fn sub(&self, rhs: &Value, graph: &mut Graph) -> (v: Value)
        requires
            old(graph).wf(),
            old(graph).has(*self),
            old(graph).has(*rhs),
        ensures
            final(graph).wf(),
            final(graph)@ == old(graph)@.push(binary_node(old(graph)@, OpType::Sub, *self, *rhs)),
            v.id == old(graph)@.len(),
    {
        let data = graph.data(*self).sub(graph.data(*rhs));
        self.binary(rhs, OpType::Sub, data, graph)
    }

    /// A new node whose value is the product of the two operands' values.
    pub fn mul(&self, rhs: &Value, graph: &mut Graph) -> (v: Value)
        requires
            old(graph).wf(),
            old(graph).has(*self),
            old(graph).has(*rhs),
        ensures
            final(graph).wf(),
            final(graph)@ == old(graph)@.push(binary_node(old(graph)@, OpType::Mul, *self, *rhs)),
            v.id == old(graph)@.len(),
    {
        let data = graph.data(*self).mul(graph.data(*rhs));
        self.binary(rhs, OpType::Mul, data, graph)
    }

    /// A new node whose value is that of `self` divided by that of `rhs`.
    /// A zero divisor is not an error: the value is then infinite or NaN.
    pub fn div(&self, rhs: &Value, graph: &mut Graph) -> (v: Value)
        requires
            old(graph).wf(),
            old(graph).has(*self),
            old(graph).has(*rhs),
        ensures
            final(graph).wf(),
            final(graph)@ == old(graph)@.push(binary_node(old(graph)@, OpType::Div, *self, *rhs)),
            v.id == old(graph)@.len(),
    {
        let data = graph.data(*self).div(graph.data(*rhs));
        self.binary(rhs, OpType::Div, data, graph)
    }

    /// A new node whose value is that of `self` where it is not below zero,
    /// and zero where it is.
    pub fn relu(&self, graph: &mut Graph) -> (v: Value)
        requires
            old(graph).wf(),
            old(graph).has(*self),
        ensures
            final(graph).wf(),
            final(graph)@ == old(graph)@.push(relu_node(old(graph)@, *self)),
            v.id == old(graph)@.len(),
    {
        let mut data = graph.data(*self);
        if data.lt_zero() {
            data = Scalar::zero();
        }
        let mut src: Vec<Value> = Vec::new();
        src.push(*self);
        assert(src@ =~= seq![*self]);
        Value::new(data, Scalar::zero(), src, Some(OpType::Relu), graph)
    }

    /// The nodes that `self` depends on, itself included and last, each once
    /// and after its operands.
    pub fn topological_order(&self, graph: &Graph) -> (topo: Vec<Value>)
        requires
            graph.wf(),
            graph.has(*self),
        ensures
            topo@ == topological_order(graph@, *self),
    {
        let n = graph.len();
        let mut visited: Vec<bool> = Vec::new();
        let mut i: usize = 0;
        while i < n
            invariant
                i <= n,
                visited@.len() == i,
                forall|j: int| 0 <= j < i ==> !visited@[j],
            decreases n - i,
        {
            visited.push(false);
            i = i + 1;
        }
        let mut topo: Vec<Value> = Vec::new();
        build_topo(graph, *self, &mut visited, &mut topo);
        topo
    }

    /// Computes the gradient of `self` with respect to every node it depends
    /// on, and adds each to what that node's gradient held; the gradient of
    /// `self` itself is first set to one. Values, operations and operands
    /// stay as they are.
    pub fn backward(&self, graph: &mut Graph)
        requires
            old(graph).wf(),
            old(graph).has(*self),
        ensures
            final(graph).wf(),
            final(graph)@ == backward_pass(old(graph)@, *self),
            same_shape(old(graph)@, final(graph)@),
    {
        let topo = self.topological_order(graph);
        proof {
            lemma_visit_extends(graph@, *self, Seq::empty());
        }
        graph.set_grad(*self, Scalar::one());
        let mut k = topo.len();
        while k > 0
            invariant
                graph.wf(),
                k <= topo@.len(),
                same_shape(old(graph)@, graph@),
                forall|x: Value| #[trigger] topo@.contains(x) ==> x.id <= self.id,
                self.id < graph@.len(),
                sweep(graph@, topo@, k as int) == backward_pass(old(graph)@, *self),
            decreases k,
        {
            k = k - 1;
            let v = topo[k];
            assert(topo@.contains(v));
            graph.propagate_from(v);
        }
    }
}

} // verus!
