//! What the topological order of a well-formed graph guarantees.

use vstd::prelude::*;
use crate::engine::{
    lemma_push_contains,
    lemma_visit_operands_extends,
    topological_order,
    visit,
    visit_operands,
    well_formed,
    node_fits,
    Node,
    Value,
};

verus! {

/// The `k`-th operand of node `v`.
pub open spec fn operand_of(g: Seq<Node>, v: Value, k: int) -> Value {
    g[v.id as int].src[k]
}

/// `x` stands in `order` before place `p`.
pub open spec fn earlier(order: Seq<Value>, p: int, x: Value) -> bool {
    exists|e: int| 0 <= e < p && order[e] == x
}

/// Every node of `order` stands after each of its operands.
pub open spec fn operands_first(g: Seq<Node>, order: Seq<Value>) -> bool {
    forall|p: int, k: int|
        0 <= p < order.len() && 0 <= k < g[order[p].id as int].src.len() ==> #[trigger] earlier(
            order,
            p,
            operand_of(g, order[p], k),
        )
}

/// `order` lists nodes of `g`, each once and after its operands.
pub open spec fn sorted(g: Seq<Node>, order: Seq<Value>) -> bool {
    &&& order.no_duplicates()
    &&& forall|p: int| 0 <= p < order.len() ==> (#[trigger] order[p]).id < g.len()
    &&& operands_first(g, order)
}

/// `a` is the beginning of `b`.
pub open spec fn begins(a: Seq<Value>, b: Seq<Value>) -> bool {
    a.len() <= b.len() && forall|i: int| 0 <= i < a.len() ==> a[i] == b[i]
}

/// `v` depends on `x`: `x` is `v` itself, or an operand of `v` depends on
/// it.
pub open spec fn depends_on(g: Seq<Node>, v: Value, x: Value) -> bool
    decreases v.id,
{
    x == v || (v.id < g.len() && exists|k: int|
        0 <= k < g[v.id as int].src.len() && (#[trigger] operand_of(g, v, k)).id < v.id && depends_on(
            g,
            operand_of(g, v, k),
            x,
        ))
}

proof fn lemma_begins_contains(a: Seq<Value>, b: Seq<Value>, x: Value)
    requires
        begins(a, b),
        a.contains(x),
    ensures
        b.contains(x),
{
    let i = choose|i: int| 0 <= i < a.len() && a[i] == x;
    assert(b[i] == x);
}

/// Appending a node that is new and whose operands are all present keeps
/// the order sorted.
proof fn lemma_push_sorted(g: Seq<Node>, order: Seq<Value>, v: Value)
    requires
        sorted(g, order),
        v.id < g.len(),
        !order.contains(v),
        forall|k: int| 0 <= k < g[v.id as int].src.len() ==> order.contains(#[trigger] operand_of(g, v, k)),
    ensures
        sorted(g, order.push(v)),
        begins(order, order.push(v)),
{
    let next = order.push(v);
    assert forall|i: int, j: int| 0 <= i < next.len() && 0 <= j < next.len() && i != j implies next[i]
        != next[j] by {
        if i == order.len() {
            assert(order[j] != v);
        } else if j == order.len() {
            assert(order[i] != v);
        }
    }
    assert forall|p: int, k: int|
        0 <= p < next.len() && 0 <= k < g[next[p].id as int].src.len() implies #[trigger] earlier(
        next,
        p,
        operand_of(g, next[p], k),
    ) by {
        if p < order.len() {
            assert(earlier(order, p, operand_of(g, order[p], k)));
            let e = choose|e: int| 0 <= e < p && order[e] == operand_of(g, order[p], k);
            assert(next[e] == operand_of(g, next[p], k));
        } else {
            let x = operand_of(g, v, k);
            assert(order.contains(x));
            let e = choose|e: int| 0 <= e < order.len() && order[e] == x;
            assert(next[e] == x);
        }
    }
}

/// A visit of `v` keeps a sorted order sorted, only appends to it, and
/// leaves `v` in it.
pub proof fn lemma_visit_sorted(g: Seq<Node>, v: Value, order: Seq<Value>)
    requires
        well_formed(g),
        v.id < g.len(),
        sorted(g, order),
    ensures
        sorted(g, visit(g, v, order)),
        begins(order, visit(g, v, order)),
        visit(g, v, order).contains(v),
    decreases v.id, 1int, 0int,
{
    if order.contains(v) {
    } else {
        lemma_visit_operands_sorted(g, v, 0, order);
        lemma_visit_operands_extends(g, v, 0, order);
        let mid = visit_operands(g, v, 0, order);
        assert(!mid.contains(v));
        assert forall|k: int| 0 <= k < g[v.id as int].src.len() implies mid.contains(
            #[trigger] operand_of(g, v, k),
        ) by {
            assert(mid.contains(g[v.id as int].src[k]));
        }
        lemma_push_sorted(g, mid, v);
        lemma_push_contains(mid, v, v);
    }
}

/// Visiting the operands of `v` from the `k`-th on keeps a sorted order
/// sorted, only appends to it, and leaves those operands in it.
pub proof fn lemma_visit_operands_sorted(g: Seq<Node>, v: Value, k: int, order: Seq<Value>)
    requires
        well_formed(g),
        v.id < g.len(),
        0 <= k,
        sorted(g, order),
    ensures
        sorted(g, visit_operands(g, v, k, order)),
        begins(order, visit_operands(g, v, k, order)),
        forall|j: int|
            k <= j < g[v.id as int].src.len() ==> visit_operands(g, v, k, order).contains(
                #[trigger] g[v.id as int].src[j],
            ),
    decreases v.id, 0int, g[v.id as int].src.len() - k,
{
    let src = g[v.id as int].src;
    if k < src.len() {
        assert(node_fits(g[v.id as int], v.id as int));
        assert(src[k].id < v.id);
        let next = visit(g, src[k], order);
        lemma_visit_sorted(g, src[k], order);
        lemma_visit_operands_sorted(g, v, k + 1, next);
        let last = visit_operands(g, v, k + 1, next);
        lemma_begins_contains(next, last, src[k]);
    }
}

/// In a sorted order, whatever a member depends on is a member too.
pub proof fn lemma_sorted_holds_dependencies(g: Seq<Node>, order: Seq<Value>, v: Value, x: Value)
    requires
        sorted(g, order),
        order.contains(v),
        depends_on(g, v, x),
    ensures
        order.contains(x),
    decreases v.id,
{
    if x != v {
        let k = choose|k: int|
            0 <= k < g[v.id as int].src.len() && (#[trigger] operand_of(g, v, k)).id < v.id && depends_on(
                g,
                operand_of(g, v, k),
                x,
            );
        let p = choose|p: int| 0 <= p < order.len() && order[p] == v;
        assert(earlier(order, p, operand_of(g, order[p], k)));
        let e = choose|e: int| 0 <= e < p && order[e] == operand_of(g, order[p], k);
        assert(order.contains(operand_of(g, v, k)));
        lemma_sorted_holds_dependencies(g, order, operand_of(g, v, k), x);
    }
}

/// A visit of `v` adds only what `v` depends on.
pub proof fn lemma_visit_adds_dependencies(g: Seq<Node>, v: Value, order: Seq<Value>, x: Value)
    requires
        visit(g, v, order).contains(x),
        !order.contains(x),
    ensures
        depends_on(g, v, x),
    decreases v.id, 1int, 0int,
{
    if v.id >= g.len() || order.contains(v) {
    } else {
        let mid = visit_operands(g, v, 0, order);
        lemma_push_contains(mid, v, x);
        if x != v {
            lemma_visit_operands_adds_dependencies(g, v, 0, order, x);
        }
    }
}

/// Visiting the operands of `v` adds only what some operand depends on.
pub proof fn lemma_visit_operands_adds_dependencies(
    g: Seq<Node>,
    v: Value,
    k: int,
    order: Seq<Value>,
    x: Value,
)
    requires
        v.id < g.len(),
        0 <= k,
        visit_operands(g, v, k, order).contains(x),
        !order.contains(x),
    ensures
        depends_on(g, v, x),
    decreases v.id, 0int, g[v.id as int].src.len() - k,
{
    let src = g[v.id as int].src;
    if k < src.len() {
        let next = if src[k].id < v.id {
            visit(g, src[k], order)
        } else {
            order
        };
        if next.contains(x) {
            lemma_visit_adds_dependencies(g, src[k], order, x);
            assert(depends_on(g, operand_of(g, v, k), x));
        } else {
            lemma_visit_operands_adds_dependencies(g, v, k + 1, next, x);
        }
    }
}

/// The topological order from `root` lists exactly the nodes that `root`
/// depends on, each once, every node after all of its operands, and `root`
/// last.
pub proof fn lemma_topological_order(g: Seq<Node>, root: Value)
    requires
        well_formed(g),
        root.id < g.len(),
    ensures
        topological_order(g, root).no_duplicates(),
        operands_first(g, topological_order(g, root)),
        topological_order(g, root).len() > 0,
        topological_order(g, root).last() == root,
        forall|x: Value| #[trigger] topological_order(g, root).contains(x) <==> depends_on(g, root, x),
{
    let empty = Seq::<Value>::empty();
    let order = topological_order(g, root);
    assert(sorted(g, empty));
    lemma_visit_sorted(g, root, empty);
    assert(order == visit_operands(g, root, 0, empty).push(root));
    assert forall|x: Value| #[trigger] order.contains(x) <==> depends_on(g, root, x) by {
        if order.contains(x) {
            lemma_visit_adds_dependencies(g, root, empty, x);
        }
        if depends_on(g, root, x) {
            lemma_sorted_holds_dependencies(g, order, root, x);
        }
    }
}

} // verus!
