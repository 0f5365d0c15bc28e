//! What a backward pass leaves on the operands of a single operation.

use vstd::prelude::*;
use crate::engine::{
    accumulate,
    backward_pass,
    binary_node,
    deduct,
    propagate,
    relu_node,
    sweep,
    topological_order,
    visit,
    visit_operands,
    well_formed,
    Node,
    OpType,
    Value,
};
use crate::identities::{lemma_add_zero, lemma_mul_one};
use crate::scalar::Scalar;

verus! {

/// `a` is a leaf of `g` whose gradient is zero.
pub open spec fn fresh_leaf(g: Seq<Node>, a: Value) -> bool {
    &&& well_formed(g)
    &&& g.len() < usize::MAX
    &&& a.id < g.len()
    &&& g[a.id as int].op is None
    &&& g[a.id as int].grad == Scalar::spec_zero()
}

/// `a` and `b` are two different leaves of `g` whose gradients are zero.
pub open spec fn fresh_leaves(g: Seq<Node>, a: Value, b: Value) -> bool {
    &&& well_formed(g)
    &&& g.len() < usize::MAX
    &&& a.id < g.len()
    &&& b.id < g.len()
    &&& a != b
    &&& g[a.id as int].op is None
    &&& g[b.id as int].op is None
    &&& g[a.id as int].grad == Scalar::spec_zero()
    &&& g[b.id as int].grad == Scalar::spec_zero()
}

/// `g` with one more node: `op` applied to `a` and `b`.
pub open spec fn applied(g: Seq<Node>, op: OpType, a: Value, b: Value) -> Seq<Node> {
    g.push(binary_node(g, op, a, b))
}

/// The handle of the node that `applied` adds.
pub open spec fn result_of(g: Seq<Node>) -> Value {
    Value { id: g.len() as usize }
}

/// `h` with the gradient of `v` set to one.
pub open spec fn seeded(h: Seq<Node>, v: Value) -> Seq<Node> {
    h.update(v.id as int, Node { grad: Scalar::spec_one(), ..h[v.id as int] })
}

/// The backward pass from an operation on two leaves is the one step that
/// the operation's own rule describes, with a gradient of one.
pub proof fn lemma_backward_of_one_operation(g: Seq<Node>, op: OpType, a: Value, b: Value)
    requires
        fresh_leaves(g, a, b),
        op != OpType::Relu,
    ensures
        topological_order(applied(g, op, a, b), result_of(g)) == seq![a, b, result_of(g)],
        backward_pass(applied(g, op, a, b), result_of(g)) == propagate(
            seeded(applied(g, op, a, b), result_of(g)),
            result_of(g).id as int,
        ),
{
    let h = applied(g, op, a, b);
    let y = result_of(g);
    let none = Seq::<Value>::empty();
    assert(h[y.id as int].src == seq![a, b]);
    assert(h[a.id as int] == g[a.id as int]);
    assert(h[b.id as int] == g[b.id as int]);
    assert(crate::engine::node_fits(g[a.id as int], a.id as int));
    assert(crate::engine::node_fits(g[b.id as int], b.id as int));

    assert(visit_operands(h, a, 0, none) == none);
    assert(visit(h, a, none) == none.push(a));
    let first = none.push(a);
    assert(!first.contains(b));
    assert(visit_operands(h, b, 0, first) == first);
    assert(visit(h, b, first) == first.push(b));
    let second = first.push(b);
    assert(visit_operands(h, y, 2, second) == second);
    assert(visit_operands(h, y, 1, first) == second);
    assert(visit_operands(h, y, 0, none) == second);
    assert(!none.contains(y));
    let order = topological_order(h, y);
    assert(order == second.push(y));
    assert(order =~= seq![a, b, y]);

    let s = seeded(h, y);
    let after = propagate(s, y.id as int);
    assert(after.len() == h.len());
    assert(after[a.id as int].op is None);
    assert(after[b.id as int].op is None);
    assert(propagate(after, b.id as int) == after);
    assert(propagate(after, a.id as int) == after);
    assert(sweep(after, order, 0) == after);
    assert(sweep(after, order, 1) == after);
    assert(sweep(after, order, 2) == after);
    assert(sweep(s, order, 3) == after);
}

/// Backward from the sum of two leaves leaves a gradient of one on each.
pub proof fn lemma_backward_add(g: Seq<Node>, a: Value, b: Value)
    requires
        fresh_leaves(g, a, b),
    ensures
        backward_pass(applied(g, OpType::Add, a, b), result_of(g))[a.id as int].grad
            == Scalar::spec_one(),
        backward_pass(applied(g, OpType::Add, a, b), result_of(g))[b.id as int].grad
            == Scalar::spec_one(),
{
    lemma_backward_of_one_operation(g, OpType::Add, a, b);
    lemma_add_zero(Scalar::spec_one());
    let h = applied(g, OpType::Add, a, b);
    let y = result_of(g);
    let s = seeded(h, y);
    assert(s[y.id as int].src == seq![a, b]);
    let one = Scalar::spec_one();
    let mid = accumulate(s, a.id as int, one);
    assert(propagate(s, y.id as int) == accumulate(mid, b.id as int, one));
}

/// Backward from the product of two leaves leaves on each the value of
/// the other, where that value is neither a NaN nor the negative zero.
pub proof fn lemma_backward_mul(g: Seq<Node>, a: Value, b: Value)
    requires
        fresh_leaves(g, a, b),
    ensures
        !g[b.id as int].data.nan() && g[b.id as int].data.bits != 0x8000_0000 ==> backward_pass(
            applied(g, OpType::Mul, a, b),
            result_of(g),
        )[a.id as int].grad == g[b.id as int].data,
        !g[a.id as int].data.nan() && g[a.id as int].data.bits != 0x8000_0000 ==> backward_pass(
            applied(g, OpType::Mul, a, b),
            result_of(g),
        )[b.id as int].grad == g[a.id as int].data,
{
    lemma_backward_of_one_operation(g, OpType::Mul, a, b);
    let h = applied(g, OpType::Mul, a, b);
    let y = result_of(g);
    let s = seeded(h, y);
    assert(s[y.id as int].src == seq![a, b]);
    let one = Scalar::spec_one();
    let da = g[a.id as int].data;
    let db = g[b.id as int].data;
    let mid = accumulate(s, a.id as int, one.spec_mul(db));
    assert(propagate(s, y.id as int) == accumulate(mid, b.id as int, one.spec_mul(da)));
    if !db.nan() && db.bits != 0x8000_0000 {
        lemma_mul_one(db);
        lemma_add_zero(db);
    }
    if !da.nan() && da.bits != 0x8000_0000 {
        lemma_mul_one(da);
        lemma_add_zero(da);
    }
}

/// Backward from the difference of two leaves leaves a gradient of one on
/// the first and of minus one on the second.
pub proof fn lemma_backward_sub(g: Seq<Node>, a: Value, b: Value)
    requires
        fresh_leaves(g, a, b),
    ensures
        backward_pass(applied(g, OpType::Sub, a, b), result_of(g))[a.id as int].grad
            == Scalar::spec_one(),
        backward_pass(applied(g, OpType::Sub, a, b), result_of(g))[b.id as int].grad
            == Scalar::spec_one().spec_neg(),
{
    lemma_backward_of_one_operation(g, OpType::Sub, a, b);
    lemma_add_zero(Scalar::spec_one());
    lemma_add_zero(Scalar::spec_one().spec_neg());
    let h = applied(g, OpType::Sub, a, b);
    let y = result_of(g);
    let s = seeded(h, y);
    assert(s[y.id as int].src == seq![a, b]);
    let one = Scalar::spec_one();
    let mid = accumulate(s, a.id as int, one);
    assert(propagate(s, y.id as int) == deduct(mid, b.id as int, one));
    assert(Scalar::spec_zero().spec_sub(one) == Scalar::spec_zero().spec_add(one.spec_neg()));
}

/// Backward from the product of a leaf with itself adds both
/// contributions: the leaf is left with its value plus its value.
pub proof fn lemma_backward_square(g: Seq<Node>, x: Value)
    requires
        fresh_leaf(g, x),
        !g[x.id as int].data.nan(),
        g[x.id as int].data.bits != 0x8000_0000,
    ensures
        backward_pass(applied(g, OpType::Mul, x, x), result_of(g))[x.id as int].grad == g[x.id as int].data.spec_add(
            g[x.id as int].data,
        ),
{
    let h = applied(g, OpType::Mul, x, x);
    let y = result_of(g);
    let none = Seq::<Value>::empty();
    assert(h[y.id as int].src == seq![x, x]);
    assert(h[x.id as int] == g[x.id as int]);
    assert(crate::engine::node_fits(g[x.id as int], x.id as int));
    assert(visit_operands(h, x, 0, none) == none);
    assert(visit(h, x, none) == none.push(x));
    let first = none.push(x);
    assert(first[0] == x);
    assert(first.contains(x));
    assert(visit(h, x, first) == first);
    assert(visit_operands(h, y, 2, first) == first);
    assert(visit_operands(h, y, 1, first) == first);
    assert(visit_operands(h, y, 0, none) == first);
    assert(!none.contains(y));
    let order = topological_order(h, y);
    assert(order == first.push(y));

    let s = seeded(h, y);
    let after = propagate(s, y.id as int);
    assert(after.len() == h.len());
    assert(after[x.id as int].op is None);
    assert(propagate(after, x.id as int) == after);
    assert(sweep(after, order, 0) == after);
    assert(sweep(after, order, 1) == after);
    assert(sweep(s, order, 2) == after);

    let one = Scalar::spec_one();
    let d = g[x.id as int].data;
    lemma_mul_one(d);
    lemma_add_zero(d);
    let mid = accumulate(s, x.id as int, one.spec_mul(d));
    assert(after == accumulate(mid, x.id as int, one.spec_mul(d)));
}

/// Backward from the rectifier of a leaf leaves a gradient of one where
/// the leaf's value is above zero, and of zero where it is zero or below.
pub proof fn lemma_backward_relu(g: Seq<Node>, a: Value)
    requires
        fresh_leaf(g, a),
    ensures
        backward_pass(g.push(relu_node(g, a)), result_of(g))[a.id as int].grad == if g[a.id as int].data.above_zero() {
            Scalar::spec_one()
        } else {
            Scalar::spec_zero()
        },
{
    let h = g.push(relu_node(g, a));
    let y = result_of(g);
    let none = Seq::<Value>::empty();
    assert(h[y.id as int].src == seq![a]);
    assert(h[a.id as int] == g[a.id as int]);
    assert(crate::engine::node_fits(g[a.id as int], a.id as int));
    assert(visit_operands(h, a, 0, none) == none);
    assert(visit(h, a, none) == none.push(a));
    let first = none.push(a);
    assert(visit_operands(h, y, 1, first) == first);
    assert(visit_operands(h, y, 0, none) == first);
    assert(!none.contains(y));
    let order = topological_order(h, y);
    assert(order == first.push(y));

    let s = seeded(h, y);
    let after = propagate(s, y.id as int);
    assert(after.len() == h.len());
    assert(after[a.id as int].op is None);
    assert(propagate(after, a.id as int) == after);
    assert(sweep(after, order, 0) == after);
    assert(sweep(after, order, 1) == after);
    assert(sweep(s, order, 2) == after);

    lemma_add_zero(Scalar::spec_one());
    lemma_add_zero(Scalar::spec_zero());
}

/// Backward from the quotient of two leaves leaves on the dividend one
/// over the divisor, and takes from the divisor the dividend over the
/// divisor's square.
pub proof fn lemma_backward_div(g: Seq<Node>, a: Value, b: Value)
    requires
        fresh_leaves(g, a, b),
    ensures
        backward_pass(applied(g, OpType::Div, a, b), result_of(g))[a.id as int].grad
            == Scalar::spec_zero().spec_add(Scalar::spec_one().spec_div(g[b.id as int].data)),
        backward_pass(applied(g, OpType::Div, a, b), result_of(g))[b.id as int].grad
            == Scalar::spec_zero().spec_sub(
            Scalar::spec_one().spec_mul(g[a.id as int].data).spec_div(
                g[b.id as int].data.spec_mul(g[b.id as int].data),
            ),
        ),
{
    lemma_backward_of_one_operation(g, OpType::Div, a, b);
    let h = applied(g, OpType::Div, a, b);
    let y = result_of(g);
    let s = seeded(h, y);
    assert(s[y.id as int].src == seq![a, b]);
    let one = Scalar::spec_one();
    let da = g[a.id as int].data;
    let db = g[b.id as int].data;
    let mid = accumulate(s, a.id as int, one.spec_div(db));
    assert(propagate(s, y.id as int) == deduct(
        mid,
        b.id as int,
        one.spec_mul(da).spec_div(db.spec_mul(db)),
    ));
}

} // verus!
