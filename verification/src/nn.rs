//! Trainable functions built from graph nodes: a unit, a layer of units, and
//! a stack of layers.
//!
//! A module owns handles to its parameters, which are leaves of a `Graph`.
//! Its forward pass adds nodes to that graph; `zero_grad` and `step` write
//! the gradients and values of its parameters.

use vstd::prelude::*;
use vstd::slice::slice_to_vec;
use crate::engine::{
    binary_node,
    leaf_node,
    relu_node,
    Graph,
    Node,
    OpType,
    Value,
};
use crate::scalar::Scalar;

verus! {

/// Initial parameters are drawn as integers from `-DRAW_LIMIT` to
/// `DRAW_LIMIT` and divided by `DRAW_LIMIT`.
pub const DRAW_LIMIT: i32 = 0x80_0000;

/// The number `k / DRAW_LIMIT`.
pub open spec fn unit_scalar(k: i32) -> Scalar {
    Scalar::spec_from_i32(k).spec_div(Scalar::spec_from_i32(DRAW_LIMIT))
}

/// The trainable leaves that a run of draws gives, one per draw.
pub open spec fn parameter_leaves(draws: Seq<i32>) -> Seq<Node> {
    Seq::new(draws.len(), |i: int| leaf_node(unit_scalar(draws[i]), true))
}

/// A trainable leaf with gradient zero whose value is some draw of the
/// range divided by `DRAW_LIMIT`, so a number from -1 to 1.
pub open spec fn drawn_leaf(n: Node) -> bool {
    exists|k: i32| -DRAW_LIMIT <= k <= DRAW_LIMIT && n == leaf_node(unit_scalar(k), true)
}

/// `h` is `g` followed by `count` drawn leaves.
pub open spec fn grown_by_drawn_leaves(g: Seq<Node>, h: Seq<Node>, count: int) -> bool {
    &&& h.len() == g.len() + count
    &&& h.take(g.len() as int) == g
    &&& forall|i: int| g.len() <= i < h.len() ==> drawn_leaf(#[trigger] h[i])
}

/// A size as a count: a negative size counts as none.
pub open spec fn count_of(n: isize) -> nat {
    if n > 0 {
        n as nat
    } else {
        0
    }
}

/// The handles are `base`, `base + 1`, and so on.
pub open spec fn consecutive_from(s: Seq<Value>, base: int) -> bool {
    forall|i: int| 0 <= i < s.len() ==> (#[trigger] s[i]).id == base + i
}

/// Every handle names a node of `g`.
pub open spec fn all_within(s: Seq<Value>, g: Seq<Node>) -> bool {
    forall|i: int| 0 <= i < s.len() ==> (#[trigger] s[i]).id < g.len()
}

/// `g` after the gradients of the first `k` parameters were set to zero.
pub open spec fn zeroed(g: Seq<Node>, params: Seq<Value>, k: int) -> Seq<Node>
    decreases k,
{
    if k <= 0 {
        g
    } else {
        let h = zeroed(g, params, k - 1);
        let p = params[k - 1].id as int;
        h.update(p, Node { grad: Scalar::spec_zero(), ..h[p] })
    }
}

/// `g` after the first `k` parameters each took one descent step:
/// `data -= lr * grad`.
pub open spec fn stepped(g: Seq<Node>, params: Seq<Value>, lr: Scalar, k: int) -> Seq<Node>
    decreases k,
{
    if k <= 0 {
        g
    } else {
        let h = stepped(g, params, lr, k - 1);
        let p = params[k - 1].id as int;
        h.update(p, Node { data: h[p].data.spec_sub(lr.spec_mul(h[p].grad)), ..h[p] })
    }
}

/// The graph and the running sum after the first `k` inputs of a unit:
/// starting from `start`, each input adds a product node and a sum node.
pub open spec fn weighted_sum(g: Seq<Node>, w: Seq<Value>, x: Seq<Value>, start: Value, k: int) -> (
    Seq<Node>,
    Value,
)
    decreases k,
{
    if k <= 0 {
        (g, start)
    } else {
        let (h, sum) = weighted_sum(g, w, x, start, k - 1);
        let product = Value { id: h.len() as usize };
        let h1 = h.push(binary_node(h, OpType::Mul, w[k - 1], x[k - 1]));
        (h1.push(binary_node(h1, OpType::Add, sum, product)), Value { id: h1.len() as usize })
    }
}

/// The graph and the outputs after the first `k` units of a layer.
pub open spec fn layer_output(g: Seq<Node>, units: Seq<Neuron>, x: Seq<Value>, k: int) -> (
    Seq<Node>,
    Seq<Value>,
)
    decreases k,
{
    if k <= 0 {
        (g, Seq::empty())
    } else {
        let (h, outs) = layer_output(g, units, x, k - 1);
        let (h1, y) = units[k - 1].output(h, x);
        (h1, outs.push(y))
    }
}

/// The graph and the values after the first `k` layers of a stack.
pub open spec fn stack_output(g: Seq<Node>, layers: Seq<Layer>, x: Seq<Value>, k: int) -> (
    Seq<Node>,
    Seq<Value>,
)
    decreases k,
{
    if k <= 0 {
        (g, x)
    } else {
        let (h, mid) = stack_output(g, layers, x, k - 1);
        layers[k - 1].output(h, mid)
    }
}

/// The parameters of the first `k` units, unit by unit.
pub open spec fn unit_parameters(units: Seq<Neuron>, k: int) -> Seq<Value>
    decreases k,
{
    if k <= 0 {
        Seq::empty()
    } else {
        unit_parameters(units, k - 1) + units[k - 1].params_spec()
    }
}

/// The parameters of the first `k` layers, layer by layer.
pub open spec fn layer_parameters(layers: Seq<Layer>, k: int) -> Seq<Value>
    decreases k,
{
    if k <= 0 {
        Seq::empty()
    } else {
        layer_parameters(layers, k - 1) + layers[k - 1].params_spec()
    }
}

/// How many parameters a layer of the given `(inputs, outputs)` has.
pub open spec fn parameters_of(size: (isize, isize)) -> nat {
    count_of(size.1) * (count_of(size.0) + 1)
}

/// How many parameters the first `l` layers of the given sizes have.
pub open spec fn parameters_before(sizes: Seq<(isize, isize)>, l: int) -> nat
    decreases l,
{
    if l <= 0 {
        0
    } else {
        parameters_before(sizes, l - 1) + parameters_of(sizes[l - 1])
    }
}

/// Zeroing touches gradients of parameters only, and leaves each at zero.
pub proof fn lemma_zeroed(g: Seq<Node>, params: Seq<Value>, k: int)
    requires
        0 <= k <= params.len(),
        all_within(params, g),
    ensures
        zeroed(g, params, k).len() == g.len(),
        forall|i: int|
            0 <= i < g.len() ==> (#[trigger] zeroed(g, params, k)[i]).data == g[i].data && zeroed(
                g,
                params,
                k,
            )[i].src == g[i].src && zeroed(g, params, k)[i].op == g[i].op && zeroed(
                g,
                params,
                k,
            )[i].param == g[i].param,
        forall|j: int|
            0 <= j < k ==> zeroed(g, params, k)[(#[trigger] params[j]).id as int].grad
                == Scalar::spec_zero(),
        forall|i: int|
            0 <= i < g.len() && (forall|j: int| 0 <= j < k ==> (#[trigger] params[j]).id != i)
                ==> #[trigger] zeroed(g, params, k)[i] == g[i],
    decreases k,
{
    if k > 0 {
        lemma_zeroed(g, params, k - 1);
        let h = zeroed(g, params, k - 1);
        let p = params[k - 1].id as int;
        assert(zeroed(g, params, k) == h.update(p, Node { grad: Scalar::spec_zero(), ..h[p] }));
        assert forall|i: int|
            0 <= i < g.len() && (forall|j: int| 0 <= j < k ==> (#[trigger] params[j]).id != i) implies #[trigger] zeroed(
            g,
            params,
            k,
        )[i] == g[i] by {
            assert(params[k - 1].id != i);
            assert(forall|j: int| 0 <= j < k - 1 ==> (#[trigger] params[j]).id != i);
        }
    }
}

/// A step leaves every gradient as it was and, where no parameter is listed
/// twice, moves each parameter by `lr` times its gradient; nothing else
/// changes.
pub proof fn lemma_stepped(g: Seq<Node>, params: Seq<Value>, lr: Scalar, k: int)
    requires
        0 <= k <= params.len(),
        all_within(params, g),
    ensures
        stepped(g, params, lr, k).len() == g.len(),
        forall|i: int|
            0 <= i < g.len() ==> (#[trigger] stepped(g, params, lr, k)[i]).grad == g[i].grad && stepped(
                g,
                params,
                lr,
                k,
            )[i].src == g[i].src && stepped(g, params, lr, k)[i].op == g[i].op && stepped(
                g,
                params,
                lr,
                k,
            )[i].param == g[i].param,
        forall|i: int|
            0 <= i < g.len() && (forall|j: int| 0 <= j < k ==> (#[trigger] params[j]).id != i)
                ==> #[trigger] stepped(g, params, lr, k)[i] == g[i],
        params.no_duplicates() ==> forall|j: int|
            0 <= j < k ==> stepped(g, params, lr, k)[(#[trigger] params[j]).id as int].data == g[params[j].id as int].data.spec_sub(
                lr.spec_mul(g[params[j].id as int].grad),
            ),
    decreases k,
{
    if k > 0 {
        lemma_stepped(g, params, lr, k - 1);
        let h = stepped(g, params, lr, k - 1);
        let p = params[k - 1].id as int;
        assert(stepped(g, params, lr, k) == h.update(
            p,
            Node { data: h[p].data.spec_sub(lr.spec_mul(h[p].grad)), ..h[p] },
        ));
        assert forall|i: int|
            0 <= i < g.len() && (forall|j: int| 0 <= j < k ==> (#[trigger] params[j]).id != i) implies #[trigger] stepped(
            g,
            params,
            lr,
            k,
        )[i] == g[i] by {
            assert(params[k - 1].id != i);
            assert(forall|j: int| 0 <= j < k - 1 ==> (#[trigger] params[j]).id != i);
        }
        if params.no_duplicates() {
            assert forall|j: int| 0 <= j < k implies stepped(g, params, lr, k)[(#[trigger] params[j]).id as int].data
                == g[params[j].id as int].data.spec_sub(lr.spec_mul(g[params[j].id as int].grad)) by {
                if j == k - 1 {
                    assert forall|i: int| 0 <= i < k - 1 implies (#[trigger] params[i]).id != p by {
                        assert(params[i] != params[k - 1]);
                    }
                    assert(h[p] == g[p]);
                } else {
                    assert(params[j] != params[k - 1]);
                }
            }
        }
    }
}

/// What a unit, a layer and a stack have in common.
pub trait Module {
    /// The handles of the parameters, in a fixed order.
    spec fn params_spec(&self) -> Seq<Value>;

    /// The handles of the parameters, in a fixed order.
    fn params(&self) -> (r: Vec<Value>)
        ensures
            r@ == self.params_spec(),
    ;

    /// Whether every parameter is a node of `graph`, so that `zero_grad`
    /// and `step` may be called on it.
    fn belongs_to(&self, graph: &Graph) -> (ok: bool)
        ensures
            ok == all_within(self.params_spec(), graph@),
    {
        let params = self.params();
        let mut i: usize = 0;
        while i < params.len()
            invariant
                i <= params@.len(),
                params@ == self.params_spec(),
                forall|j: int| 0 <= j < i ==> (#[trigger] params@[j]).id < graph@.len(),
            decreases params.len() - i,
        {
            if !graph.contains(params[i]) {
                assert(self.params_spec()[i as int].id >= graph@.len());
                return false;
            }
            i = i + 1;
        }
        true
    }

    /// Sets the gradient of every parameter to zero. Values stay as they
    /// are, and so does every node that is no parameter of this module.
    fn zero_grad(&self, graph: &mut Graph)
        requires
            old(graph).wf(),
            all_within(self.params_spec(), old(graph)@),
        ensures
            final(graph).wf(),
            final(graph)@ == zeroed(old(graph)@, self.params_spec(), self.params_spec().len() as int),
            final(graph)@.len() == old(graph)@.len(),
            forall|j: int|
                0 <= j < self.params_spec().len() ==> final(graph)@[(#[trigger] self.params_spec()[j]).id as int].grad
                    == Scalar::spec_zero(),
            forall|i: int|
                0 <= i < old(graph)@.len() ==> (#[trigger] final(graph)@[i]).data == old(graph)@[i].data,
    {
        let params = self.params();
        let mut i: usize = 0;
        while i < params.len()
            invariant
                i <= params@.len(),
                params@ == self.params_spec(),
                graph.wf(),
                graph@.len() == old(graph)@.len(),
                all_within(params@, old(graph)@),
                graph@ == zeroed(old(graph)@, params@, i as int),
            decreases params.len() - i,
        {
            graph.set_grad(params[i], Scalar::zero());
            i = i + 1;
        }
        proof {
            lemma_zeroed(old(graph)@, params@, params@.len() as int);
        }
    }

    /// One step of gradient descent: every parameter's value becomes
    /// `data - lr * grad`. Gradients stay as they are.
    fn step(&self, lr: Scalar, graph: &mut Graph)
        requires
            old(graph).wf(),
            all_within(self.params_spec(), old(graph)@),
        ensures
            final(graph).wf(),
            final(graph)@ == stepped(
                old(graph)@,
                self.params_spec(),
                lr,
                self.params_spec().len() as int,
            ),
            final(graph)@.len() == old(graph)@.len(),
            forall|i: int|
                0 <= i < old(graph)@.len() ==> (#[trigger] final(graph)@[i]).grad == old(graph)@[i].grad,
            self.params_spec().no_duplicates() ==> forall|j: int|
                0 <= j < self.params_spec().len() ==> final(graph)@[(#[trigger] self.params_spec()[j]).id as int].data
                    == old(graph)@[self.params_spec()[j].id as int].data.spec_sub(
                    lr.spec_mul(old(graph)@[self.params_spec()[j].id as int].grad),
                ),
    {
        let params = self.params();
        let mut i: usize = 0;
        while i < params.len()
            invariant
                i <= params@.len(),
                params@ == self.params_spec(),
                graph.wf(),
                graph@.len() == old(graph)@.len(),
                all_within(params@, old(graph)@),
                graph@ == stepped(old(graph)@, params@, lr, i as int),
            decreases params.len() - i,
        {
            let p = params[i];
            let moved = graph.data(p).sub(lr.mul(graph.grad(p)));
            graph.set_data(p, moved);
            i = i + 1;
        }
        proof {
            lemma_stepped(old(graph)@, params@, lr, params@.len() as int);
        }
    }
}

/// One unit: a weight for every input, and a bias.
pub struct Neuron {
    w: Vec<Value>,
    b: Value,
    nonlin: bool,
}

/// Units that all read the same inputs.
pub struct Layer {
    neurons: Vec<Neuron>,
}

/// Layers in a row, each reading what the one before it gives.
pub struct MLP {
    layers: Vec<Layer>,
}

/// `rand::random_range` on the inclusive range from `low` to `high`: some
/// integer of that range, from the thread-local generator. An empty range
/// would panic there, so it is left out.
#[verifier::external_body]
fn random_between(low: i32, high: i32) -> (k: i32)
    requires
        low <= high,
    ensures
        low <= k <= high,
{
    rand::random_range(low..=high)
}

/// `count` draws, each from `-DRAW_LIMIT` to `DRAW_LIMIT`.
fn draw_many(count: usize) -> (draws: Vec<i32>)
    ensures
        draws@.len() == count,
        forall|i: int| 0 <= i < count ==> -DRAW_LIMIT <= #[trigger] draws@[i] <= DRAW_LIMIT,
{
    let mut draws: Vec<i32> = Vec::new();
    let mut i: usize = 0;
    while i < count
        invariant
            i <= count,
            draws@.len() == i,
            forall|j: int| 0 <= j < i ==> -DRAW_LIMIT <= #[trigger] draws@[j] <= DRAW_LIMIT,
        decreases count - i,
    {
        draws.push(random_between(-DRAW_LIMIT, DRAW_LIMIT));
        i = i + 1;
    }
    draws
}

/// The initial value that a draw stands for.
pub fn unit_from_draw(k: i32) -> (r: Scalar)
    ensures
        r == unit_scalar(k),
{
    Scalar::from_i32(k).div(Scalar::from_i32(DRAW_LIMIT))
}

fn count_from(n: isize) -> (c: usize)
    ensures
        c == count_of(n),
{
    if n > 0 {
        n as usize
    } else {
        0
    }
}

impl Neuron {
    /// The handles of the weights, one per input.
    pub closed spec fn weights(&self) -> Seq<Value> {
        self.w@
    }

    /// The handle of the bias.
    pub closed spec fn bias(&self) -> Value {
        self.b
    }

    /// Whether the output is rectified.
    pub closed spec fn nonlinear(&self) -> bool {
        self.nonlin
    }

    /// The unit has `nin` weights at `base` and after, then its bias.
    pub open spec fn laid_out_at(&self, base: int, nin: int, nonlin: bool) -> bool {
        &&& self.weights().len() == nin
        &&& consecutive_from(self.weights(), base)
        &&& self.bias().id == base + nin
        &&& self.nonlinear() == nonlin
    }

    /// The unit's parameters are nodes of `g`.
    pub open spec fn within(&self, g: Seq<Node>) -> bool {
        all_within(self.weights(), g) && self.bias().id < g.len()
    }

    /// The unit can read `x` in `g`: one input per weight, everything a
    /// node of `g`.
    pub open spec fn reads(&self, g: Seq<Node>, x: Seq<Value>) -> bool {
        self.within(g) && x.len() == self.weights().len() && all_within(x, g)
    }

    /// The graph and the output after a forward pass: the bias plus every
    /// weight times its input, rectified if the unit is nonlinear.
    pub open spec fn output(&self, g: Seq<Node>, x: Seq<Value>) -> (Seq<Node>, Value) {
        let (h, sum) = weighted_sum(g, self.weights(), x, self.bias(), self.weights().len() as int);
        if self.nonlinear() {
            (h.push(relu_node(h, sum)), Value { id: h.len() as usize })
        } else {
            (h, sum)
        }
    }

    /// A unit whose `nin` weights and bias are, in this order, the draws
    /// from `draws[start]` on, each divided by `DRAW_LIMIT`.
    pub fn from_draws(nin: isize, nonlin: bool, draws: &Vec<i32>, start: usize, graph: &mut Graph) -> (unit:
        Neuron)
        requires
            old(graph).wf(),
            start + count_of(nin) + 1 <= draws@.len(),
        ensures
            final(graph).wf(),
            final(graph)@ == old(graph)@ + parameter_leaves(
                draws@.subrange(start as int, start + count_of(nin) + 1),
            ),
            unit.laid_out_at(old(graph)@.len() as int, count_of(nin) as int, nonlin),
    {
        let n = count_from(nin);
        let total = draws.len();
        let ghost base = graph@.len() as int;
        let mut w: Vec<Value> = Vec::new();
        let mut i: usize = 0;
        assert(graph@ =~= old(graph)@ + parameter_leaves(draws@.subrange(start as int, start as int)));
        while i < n
            invariant
                i <= n,
                graph.wf(),
                w@.len() == i,
                total == draws@.len(),
                start + n + 1 <= draws@.len(),
                base == old(graph)@.len(),
                graph@ == old(graph)@ + parameter_leaves(draws@.subrange(start as int, start + i)),
                consecutive_from(w@, base),
            decreases n - i,
        {
            let v = Value::parameter(unit_from_draw(draws[start + i]), graph);
            w.push(v);
            i = i + 1;
            assert(graph@ =~= old(graph)@ + parameter_leaves(draws@.subrange(start as int, start + i)));
        }
        let b = Value::parameter(unit_from_draw(draws[start + n]), graph);
        assert(graph@ =~= old(graph)@ + parameter_leaves(draws@.subrange(start as int, start + n + 1)));
        Neuron { w, b, nonlin }
    }

    /// A unit with `nin` weights and a bias, each drawn at random from -1
    /// to 1.
    pub fn new(nin: isize, nonlin: bool, graph: &mut Graph) -> (unit: Neuron)
        requires
            old(graph).wf(),
        ensures
            final(graph).wf(),
            grown_by_drawn_leaves(old(graph)@, final(graph)@, (count_of(nin) + 1) as int),
            unit.laid_out_at(old(graph)@.len() as int, count_of(nin) as int, nonlin),
    {
        let n = count_from(nin);
        let draws = draw_many(n + 1);
        let unit = Neuron::from_draws(nin, nonlin, &draws, 0, graph);
        proof {
            let tail = parameter_leaves(draws@.subrange(0, n + 1));
            assert(graph@.take(old(graph)@.len() as int) =~= old(graph)@);
            assert forall|i: int| old(graph)@.len() <= i < graph@.len() implies drawn_leaf(#[trigger] graph@[i]) by {
                let k = draws@[i - old(graph)@.len()];
                assert(graph@[i] == tail[i - old(graph)@.len()]);
                assert(graph@[i] == leaf_node(unit_scalar(k), true));
            }
        }
        unit
    }

    /// The forward pass on the inputs `x`, one per weight.
    pub fn call(&self, x: &[Value], graph: &mut Graph) -> (y: Value)
        requires
            old(graph).wf(),
            self.reads(old(graph)@, x@),
        ensures
            final(graph).wf(),
            (final(graph)@, y) == self.output(old(graph)@, x@),
            old(graph)@.len() <= final(graph)@.len(),
            final(graph).has(y),
    {
        let mut res = self.b;
        let mut i: usize = 0;
        while i < self.w.len()
            invariant
                i <= self.w@.len(),
                graph.wf(),
                self.reads(old(graph)@, x@),
                old(graph)@.len() <= graph@.len(),
                graph.has(res),
                (graph@, res) == weighted_sum(old(graph)@, self.w@, x@, self.b, i as int),
            decreases self.w.len() - i,
        {
            let weight = self.w[i];
            let input = x[i];
            assert(weight == self.weights()[i as int]);
            assert(input == x@[i as int]);
            let e = weight.mul(&input, graph);
            res = res.add(&e, graph);
            i = i + 1;
        }
        if self.nonlin {
            res = res.relu(graph);
        }
        res
    }

    /// How many inputs the unit reads.
    pub fn input_count(&self) -> (n: usize)
        ensures
            n == self.weights().len(),
    {
        self.w.len()
    }

    /// Whether the output is rectified.
    pub fn is_nonlinear(&self) -> (b: bool)
        ensures
            b == self.nonlinear(),
    {
        self.nonlin
    }

    /// Whether `call` may be made with `x`.
    pub fn accepts(&self, x: &[Value], graph: &Graph) -> (ok: bool)
        ensures
            ok == self.reads(graph@, x@),
    {
        if x.len() != self.w.len() || !graph.contains(self.b) {
            return false;
        }
        let mut i: usize = 0;
        while i < self.w.len()
            invariant
                i <= self.w@.len(),
                x@.len() == self.w@.len(),
                forall|j: int| 0 <= j < i ==> (#[trigger] self.w@[j]).id < graph@.len(),
                forall|j: int| 0 <= j < i ==> (#[trigger] x@[j]).id < graph@.len(),
            decreases self.w.len() - i,
        {
            if !graph.contains(self.w[i]) {
                assert(self.weights()[i as int].id >= graph@.len());
                return false;
            }
            if !graph.contains(x[i]) {
                assert(x@[i as int].id >= graph@.len());
                return false;
            }
            i = i + 1;
        }
        true
    }
}

impl Module for Neuron {
    open spec fn params_spec(&self) -> Seq<Value> {
        self.weights().push(self.bias())
    }

    /// The weights in order, then the bias.
    fn params(&self) -> (r: Vec<Value>) {
        let mut r: Vec<Value> = Vec::new();
        let mut i: usize = 0;
        while i < self.w.len()
            invariant
                i <= self.w@.len(),
                r@ == self.w@.take(i as int),
            decreases self.w.len() - i,
        {
            r.push(self.w[i]);
            i = i + 1;
            assert(r@ =~= self.w@.take(i as int));
        }
        r.push(self.b);
        assert(r@ =~= self.w@.push(self.b));
        r
    }
}

impl Layer {
    /// The units of the layer, in order.
    pub closed spec fn units(&self) -> Seq<Neuron> {
        self.neurons@
    }

    /// The layer has `nout` units of `nin` inputs each, laid out one after
    /// the other from `base` on.
    pub open spec fn laid_out_at(&self, base: int, nin: int, nout: int, nonlin: bool) -> bool {
        &&& self.units().len() == nout
        &&& forall|j: int|
            0 <= j < nout ==> (#[trigger] self.units()[j]).laid_out_at(base + j * (nin + 1), nin, nonlin)
    }

    /// Every unit can read `x` in `g`.
    pub open spec fn reads(&self, g: Seq<Node>, x: Seq<Value>) -> bool {
        forall|j: int| 0 <= j < self.units().len() ==> (#[trigger] self.units()[j]).reads(g, x)
    }

    /// The graph and the outputs after a forward pass: one output per
    /// unit, in order.
    pub open spec fn output(&self, g: Seq<Node>, x: Seq<Value>) -> (Seq<Node>, Seq<Value>) {
        layer_output(g, self.units(), x, self.units().len() as int)
    }

    /// A layer whose units take their parameters from `draws[start]` on,
    /// unit by unit.
    pub fn from_draws(nin: isize, nout: isize, nonlin: bool, draws: &Vec<i32>, start: usize, graph: &mut Graph) -> (layer:
        Layer)
        requires
            old(graph).wf(),
            start + parameters_of((nin, nout)) <= draws@.len(),
        ensures
            final(graph).wf(),
            final(graph)@ == old(graph)@ + parameter_leaves(
                draws@.subrange(start as int, start + parameters_of((nin, nout))),
            ),
            layer.laid_out_at(
                old(graph)@.len() as int,
                count_of(nin) as int,
                count_of(nout) as int,
                nonlin,
            ),
    {
        let n = count_from(nin);
        let m = count_from(nout);
        let total = draws.len();
        let ghost base = graph@.len() as int;
        let mut neurons: Vec<Neuron> = Vec::new();
        let mut j: usize = 0;
        let mut at: usize = start;
        assert(graph@ =~= old(graph)@ + parameter_leaves(draws@.subrange(start as int, start as int)));
        assert(0 * (n + 1) == 0);
        while j < m
            invariant
                j <= m,
                n == count_of(nin),
                m == count_of(nout),
                graph.wf(),
                base == old(graph)@.len(),
                at == start + j * (n + 1),
                at <= draws@.len(),
                total == draws@.len(),
                start + m * (n + 1) <= draws@.len(),
                neurons@.len() == j,
                graph@ == old(graph)@ + parameter_leaves(draws@.subrange(start as int, at as int)),
                forall|i: int|
                    0 <= i < j ==> (#[trigger] neurons@[i]).laid_out_at(base + i * (n + 1), n as int, nonlin),
            decreases m - j,
        {
            assert((j + 1) * (n + 1) <= m * (n + 1)) by (nonlinear_arith)
                requires
                    j < m,
            ;
            assert((j + 1) * (n + 1) == j * (n + 1) + n + 1) by (nonlinear_arith);
            let unit = Neuron::from_draws(nin, nonlin, draws, at, graph);
            neurons.push(unit);
            proof {
                assert(graph@ =~= old(graph)@ + parameter_leaves(
                    draws@.subrange(start as int, at + n + 1),
                ));
            }
            at = at + n + 1;
            j = j + 1;
        }
        Layer { neurons }
    }

    /// A layer of `nout` units with `nin` inputs each, every parameter
    /// drawn at random from -1 to 1.
    pub fn new(nin: isize, nout: isize, nonlin: bool, graph: &mut Graph) -> (layer: Layer)
        requires
            old(graph).wf(),
        ensures
            final(graph).wf(),
            grown_by_drawn_leaves(old(graph)@, final(graph)@, parameters_of((nin, nout)) as int),
            layer.laid_out_at(
                old(graph)@.len() as int,
                count_of(nin) as int,
                count_of(nout) as int,
                nonlin,
            ),
    {
        let ghost n = count_of(nin) as int;
        let m = count_from(nout);
        let ghost base = graph@.len() as int;
        let mut neurons: Vec<Neuron> = Vec::new();
        let mut j: usize = 0;
        assert(graph@.take(graph@.len() as int) =~= graph@);
        assert(0 * (n + 1) == 0);
        while j < m
            invariant
                j <= m,
                n == count_of(nin),
                m == count_of(nout),
                graph.wf(),
                base == old(graph)@.len(),
                neurons@.len() == j,
                grown_by_drawn_leaves(old(graph)@, graph@, j * (n + 1)),
                forall|i: int|
                    0 <= i < j ==> (#[trigger] neurons@[i]).laid_out_at(base + i * (n + 1), n, nonlin),
            decreases m - j,
        {
            assert((j + 1) * (n + 1) == j * (n + 1) + n + 1) by (nonlinear_arith);
            let ghost before = graph@;
            let unit = Neuron::new(nin, nonlin, graph);
            neurons.push(unit);
            proof {
                lemma_grown_twice(old(graph)@, before, graph@, j * (n + 1), n + 1);
            }
            j = j + 1;
        }
        Layer { neurons }
    }

    /// The forward pass: every unit reads the same inputs `x`.
    pub fn call(&self, x: &[Value], graph: &mut Graph) -> (y: Vec<Value>)
        requires
            old(graph).wf(),
            self.reads(old(graph)@, x@),
        ensures
            final(graph).wf(),
            (final(graph)@, y@) == self.output(old(graph)@, x@),
            old(graph)@.len() <= final(graph)@.len(),
            y@.len() == self.units().len(),
            all_within(y@, final(graph)@),
    {
        let mut y: Vec<Value> = Vec::new();
        let mut j: usize = 0;
        while j < self.neurons.len()
            invariant
                j <= self.neurons@.len(),
                graph.wf(),
                self.reads(old(graph)@, x@),
                old(graph)@.len() <= graph@.len(),
                y@.len() == j,
                all_within(y@, graph@),
                (graph@, y@) == layer_output(old(graph)@, self.neurons@, x@, j as int),
            decreases self.neurons.len() - j,
        {
            assert(self.units()[j as int].reads(old(graph)@, x@));
            let out = self.neurons[j].call(x, graph);
            y.push(out);
            j = j + 1;
        }
        y
    }

    /// How many units the layer has.
    pub fn unit_count(&self) -> (n: usize)
        ensures
            n == self.units().len(),
    {
        self.neurons.len()
    }

    /// The `j`-th unit.
    pub fn unit(&self, j: usize) -> (u: &Neuron)
        requires
            j < self.units().len(),
        ensures
            *u == self.units()[j as int],
    {
        &self.neurons[j]
    }

    /// Whether `call` may be made with `x`.
    pub fn accepts(&self, x: &[Value], graph: &Graph) -> (ok: bool)
        ensures
            ok == self.reads(graph@, x@),
    {
        let mut j: usize = 0;
        while j < self.neurons.len()
            invariant
                j <= self.neurons@.len(),
                forall|i: int| 0 <= i < j ==> (#[trigger] self.neurons@[i]).reads(graph@, x@),
            decreases self.neurons.len() - j,
        {
            if !self.neurons[j].accepts(x, graph) {
                assert(!self.units()[j as int].reads(graph@, x@));
                return false;
            }
            j = j + 1;
        }
        true
    }
}

impl Module for Layer {
    open spec fn params_spec(&self) -> Seq<Value> {
        unit_parameters(self.units(), self.units().len() as int)
    }

    /// The parameters of every unit, unit by unit.
    fn params(&self) -> (r: Vec<Value>) {
        let mut r: Vec<Value> = Vec::new();
        let mut j: usize = 0;
        while j < self.neurons.len()
            invariant
                j <= self.neurons@.len(),
                r@ == unit_parameters(self.neurons@, j as int),
            decreases self.neurons.len() - j,
        {
            let mut part = self.neurons[j].params();
            r.append(&mut part);
            j = j + 1;
        }
        r
    }
}

impl MLP {
    /// The layers, first to last.
    pub closed spec fn stack(&self) -> Seq<Layer> {
        self.layers@
    }

    /// The stack has one layer per size, laid out one after the other from
    /// `base` on; every layer but the last is nonlinear.
    pub open spec fn laid_out_at(&self, base: int, sizes: Seq<(isize, isize)>) -> bool {
        &&& self.stack().len() == sizes.len()
        &&& forall|l: int|
            0 <= l < sizes.len() ==> (#[trigger] self.stack()[l]).laid_out_at(
                base + parameters_before(sizes, l),
                count_of(sizes[l].0) as int,
                count_of(sizes[l].1) as int,
                l != sizes.len() - 1,
            )
    }

    /// The layers can be run in a row from `x` on `g`: what each layer
    /// reads has as many entries as its units have weights. Later layers
    /// read nodes that the pass itself makes, so only the parameters and
    /// `x` have to be in `g`.
    pub open spec fn reads(&self, g: Seq<Node>, x: Seq<Value>) -> bool {
        &&& all_within(x, g)
        &&& forall|l: int, j: int|
            0 <= l < self.stack().len() && 0 <= j < self.stack()[l].units().len() ==> {
                &&& (#[trigger] self.stack()[l].units()[j]).within(g)
                &&& self.stack()[l].units()[j].weights().len() == if l == 0 {
                    x.len()
                } else {
                    self.stack()[l - 1].units().len()
                }
            }
    }

    /// The graph and the outputs after a forward pass through every layer.
    pub open spec fn output(&self, g: Seq<Node>, x: Seq<Value>) -> (Seq<Node>, Seq<Value>) {
        stack_output(g, self.stack(), x, self.stack().len() as int)
    }

    /// A stack whose layers take their parameters from the front of
    /// `draws`, layer by layer.
    pub fn from_draws(size: Vec<(isize, isize)>, draws: &Vec<i32>, graph: &mut Graph) -> (net: MLP)
        requires
            old(graph).wf(),
            parameters_before(size@, size@.len() as int) <= draws@.len(),
        ensures
            final(graph).wf(),
            final(graph)@ == old(graph)@ + parameter_leaves(
                draws@.take(parameters_before(size@, size@.len() as int) as int),
            ),
            net.laid_out_at(old(graph)@.len() as int, size@),
    {
        let ghost base = graph@.len() as int;
        let total = draws.len();
        let mut layers: Vec<Layer> = Vec::new();
        let mut l: usize = 0;
        let mut at: usize = 0;
        assert(graph@ =~= old(graph)@ + parameter_leaves(draws@.take(0)));
        while l < size.len()
            invariant
                l <= size@.len(),
                total == draws@.len(),
                graph.wf(),
                base == old(graph)@.len(),
                at == parameters_before(size@, l as int),
                parameters_before(size@, size@.len() as int) <= draws@.len(),
                layers@.len() == l,
                graph@ == old(graph)@ + parameter_leaves(draws@.take(at as int)),
                forall|i: int|
                    0 <= i < l ==> (#[trigger] layers@[i]).laid_out_at(
                        base + parameters_before(size@, i),
                        count_of(size@[i].0) as int,
                        count_of(size@[i].1) as int,
                        i != size@.len() - 1,
                    ),
            decreases size.len() - l,
        {
            let (nin, nout) = size[l];
            let n = count_from(nin);
            let m = count_from(nout);
            proof {
                lemma_parameters_before_grows(size@, l + 1, size@.len() as int);
                assert(size@[l as int] == (nin, nout));
                assert(parameters_before(size@, l + 1) == at + m * (n + 1));
            }
            let layer = Layer::from_draws(nin, nout, l != size.len() - 1, draws, at, graph);
            layers.push(layer);
            proof {
                assert(graph@ =~= old(graph)@ + parameter_leaves(
                    draws@.take(at + parameters_of((nin, nout))),
                ));
            }
            at = at + m * (n + 1);
            l = l + 1;
        }
        MLP { layers }
    }

    /// A stack with one layer per `(inputs, outputs)` pair, every parameter
    /// drawn at random from -1 to 1. Every layer but the last is
    /// nonlinear.
    pub fn new(size: Vec<(isize, isize)>, graph: &mut Graph) -> (net: MLP)
        requires
            old(graph).wf(),
        ensures
            final(graph).wf(),
            grown_by_drawn_leaves(
                old(graph)@,
                final(graph)@,
                parameters_before(size@, size@.len() as int) as int,
            ),
            net.laid_out_at(old(graph)@.len() as int, size@),
    {
        let ghost base = graph@.len() as int;
        let mut layers: Vec<Layer> = Vec::new();
        let mut l: usize = 0;
        assert(graph@.take(graph@.len() as int) =~= graph@);
        while l < size.len()
            invariant
                l <= size@.len(),
                graph.wf(),
                base == old(graph)@.len(),
                layers@.len() == l,
                grown_by_drawn_leaves(old(graph)@, graph@, parameters_before(size@, l as int) as int),
                forall|i: int|
                    0 <= i < l ==> (#[trigger] layers@[i]).laid_out_at(
                        base + parameters_before(size@, i),
                        count_of(size@[i].0) as int,
                        count_of(size@[i].1) as int,
                        i != size@.len() - 1,
                    ),
            decreases size.len() - l,
        {
            let (nin, nout) = size[l];
            let ghost before = graph@;
            let layer = Layer::new(nin, nout, l != size.len() - 1, graph);
            layers.push(layer);
            proof {
                lemma_grown_twice(
                    old(graph)@,
                    before,
                    graph@,
                    parameters_before(size@, l as int) as int,
                    parameters_of((nin, nout)) as int,
                );
            }
            l = l + 1;
        }
        MLP { layers }
    }

    /// The forward pass: `x` goes through the layers in order.
    pub fn call(&self, x: &[Value], graph: &mut Graph) -> (y: Vec<Value>)
        requires
            old(graph).wf(),
            self.reads(old(graph)@, x@),
        ensures
            final(graph).wf(),
            (final(graph)@, y@) == self.output(old(graph)@, x@),
            old(graph)@.len() <= final(graph)@.len(),
            all_within(y@, final(graph)@),
            y@.len() == if self.stack().len() == 0 {
                x@.len()
            } else {
                self.stack().last().units().len()
            },
    {
        let mut res: Vec<Value> = slice_to_vec(x);
        let mut l: usize = 0;
        while l < self.layers.len()
            invariant
                l <= self.layers@.len(),
                graph.wf(),
                self.reads(old(graph)@, x@),
                old(graph)@.len() <= graph@.len(),
                all_within(res@, graph@),
                res@.len() == if l == 0 {
                    x@.len()
                } else {
                    self.layers@[l - 1].units().len()
                },
                (graph@, res@) == stack_output(old(graph)@, self.layers@, x@, l as int),
            decreases self.layers.len() - l,
        {
            assert forall|j: int| 0 <= j < self.layers@[l as int].units().len() implies (#[trigger] self.layers@[l as int].units()[j]).reads(
                graph@,
                res@,
            ) by {
                assert(self.stack()[l as int].units()[j].within(old(graph)@));
            }
            res = self.layers[l].call(res.as_slice(), graph);
            l = l + 1;
        }
        res
    }

    /// How many layers the stack has.
    pub fn layer_count(&self) -> (n: usize)
        ensures
            n == self.stack().len(),
    {
        self.layers.len()
    }

    /// The `l`-th layer.
    pub fn layer(&self, l: usize) -> (layer: &Layer)
        requires
            l < self.stack().len(),
        ensures
            *layer == self.stack()[l as int],
    {
        &self.layers[l]
    }

    /// Whether `call` may be made with `x`.
    pub fn accepts(&self, x: &[Value], graph: &Graph) -> (ok: bool)
        ensures
            ok == self.reads(graph@, x@),
    {
        let mut i: usize = 0;
        while i < x.len()
            invariant
                i <= x@.len(),
                forall|k: int| 0 <= k < i ==> (#[trigger] x@[k]).id < graph@.len(),
            decreases x.len() - i,
        {
            if !graph.contains(x[i]) {
                return false;
            }
            i = i + 1;
        }
        let mut width: usize = x.len();
        let mut l: usize = 0;
        while l < self.layers.len()
            invariant
                l <= self.layers@.len(),
                all_within(x@, graph@),
                width == if l == 0 {
                    x@.len()
                } else {
                    self.layers@[l - 1].units().len()
                },
                forall|a: int, j: int|
                    0 <= a < l && 0 <= j < self.layers@[a].units().len() ==> {
                        &&& (#[trigger] self.layers@[a].units()[j]).within(graph@)
                        &&& self.layers@[a].units()[j].weights().len() == if a == 0 {
                            x@.len()
                        } else {
                            self.layers@[a - 1].units().len()
                        }
                    },
            decreases self.layers.len() - l,
        {
            let layer = &self.layers[l];
            let mut j: usize = 0;
            while j < layer.neurons.len()
                invariant
                    j <= layer.neurons@.len(),
                    l < self.layers@.len(),
                    *layer == self.layers@[l as int],
                    width == if l == 0 {
                        x@.len()
                    } else {
                        self.layers@[l - 1].units().len()
                    },
                    forall|i: int|
                        0 <= i < j ==> (#[trigger] layer.neurons@[i]).within(graph@) && layer.neurons@[i].weights().len()
                            == width,
                decreases layer.neurons.len() - j,
            {
                let unit = &layer.neurons[j];
                assert(self.stack()[l as int].units()[j as int] == *unit);
                if unit.w.len() != width || !graph.contains(unit.b) {
                    return false;
                }
                let mut i: usize = 0;
                while i < unit.w.len()
                    invariant
                        i <= unit.w@.len(),
                        l < self.layers@.len(),
                        j < self.layers@[l as int].units().len(),
                        self.stack()[l as int].units()[j as int] == *unit,
                        forall|k: int| 0 <= k < i ==> (#[trigger] unit.w@[k]).id < graph@.len(),
                    decreases unit.w.len() - i,
                {
                    if !graph.contains(unit.w[i]) {
                        assert(unit.weights()[i as int].id >= graph@.len());
                        assert(!self.stack()[l as int].units()[j as int].within(graph@));
                        return false;
                    }
                    i = i + 1;
                }
                j = j + 1;
            }
            width = layer.neurons.len();
            l = l + 1;
        }
        true
    }
}

impl Module for MLP {
    open spec fn params_spec(&self) -> Seq<Value> {
        layer_parameters(self.stack(), self.stack().len() as int)
    }

    /// The parameters of every layer, layer by layer.
    fn params(&self) -> (r: Vec<Value>) {
        let mut r: Vec<Value> = Vec::new();
        let mut l: usize = 0;
        while l < self.layers.len()
            invariant
                l <= self.layers@.len(),
                r@ == layer_parameters(self.layers@, l as int),
            decreases self.layers.len() - l,
        {
            let mut part = self.layers[l].params();
            r.append(&mut part);
            l = l + 1;
        }
        r
    }
}

/// Growing by drawn leaves twice is growing by both counts at once.
pub proof fn lemma_grown_twice(g: Seq<Node>, h: Seq<Node>, k: Seq<Node>, first: int, second: int)
    requires
        first >= 0,
        second >= 0,
        grown_by_drawn_leaves(g, h, first),
        grown_by_drawn_leaves(h, k, second),
    ensures
        grown_by_drawn_leaves(g, k, first + second),
{
    assert(k.take(g.len() as int) =~= h.take(g.len() as int)) by {
        assert forall|i: int| 0 <= i < g.len() implies k.take(g.len() as int)[i] == h.take(g.len() as int)[i] by {
            assert(k.take(h.len() as int)[i] == h[i]);
        }
    }
    assert forall|i: int| g.len() <= i < k.len() implies drawn_leaf(#[trigger] k[i]) by {
        if i < h.len() {
            assert(k.take(h.len() as int)[i] == h[i]);
            assert(drawn_leaf(h[i]));
        }
    }
}

/// More layers have no fewer parameters.
pub proof fn lemma_parameters_before_grows(sizes: Seq<(isize, isize)>, a: int, b: int)
    requires
        a <= b,
    ensures
        parameters_before(sizes, a) <= parameters_before(sizes, b),
    decreases b - a,
{
    if a < b {
        lemma_parameters_before_grows(sizes, a, b - 1);
    }
}

/// Handles that count up from a base are all different.
pub proof fn lemma_consecutive_distinct(s: Seq<Value>, base: int)
    requires
        consecutive_from(s, base),
    ensures
        s.no_duplicates(),
{
    assert forall|i: int, j: int| 0 <= i < s.len() && 0 <= j < s.len() && i != j implies s[i] != s[j] by {
        assert(s[i].id == base + i);
        assert(s[j].id == base + j);
    }
}

/// The parameters of the first `k` units of a laid-out layer count up from
/// the layer's base.
pub proof fn lemma_layer_layout(layer: Layer, base: int, nin: int, nout: int, nonlin: bool, k: int)
    requires
        nin >= 0,
        0 <= k <= nout,
        layer.laid_out_at(base, nin, nout, nonlin),
    ensures
        unit_parameters(layer.units(), k).len() == k * (nin + 1),
        consecutive_from(unit_parameters(layer.units(), k), base),
    decreases k,
{
    if k > 0 {
        lemma_layer_layout(layer, base, nin, nout, nonlin, k - 1);
        let before = unit_parameters(layer.units(), k - 1);
        let unit = layer.units()[k - 1];
        assert(unit.laid_out_at(base + (k - 1) * (nin + 1), nin, nonlin));
        assert(k * (nin + 1) == (k - 1) * (nin + 1) + nin + 1) by (nonlinear_arith);
        let all = unit_parameters(layer.units(), k);
        assert(all == before + unit.params_spec());
        assert forall|i: int| 0 <= i < all.len() implies (#[trigger] all[i]).id == base + i by {
            if i < before.len() {
                assert(all[i] == before[i]);
            } else {
                let r = i - before.len();
                assert(all[i] == unit.params_spec()[r]);
                if r < nin {
                    assert(unit.params_spec()[r] == unit.weights()[r]);
                }
            }
        }
    }
}

/// The parameters of the first `l` layers of a laid-out stack count up
/// from the stack's base.
pub proof fn lemma_stack_layout(net: MLP, base: int, sizes: Seq<(isize, isize)>, l: int)
    requires
        0 <= l <= sizes.len(),
        net.laid_out_at(base, sizes),
    ensures
        layer_parameters(net.stack(), l).len() == parameters_before(sizes, l),
        consecutive_from(layer_parameters(net.stack(), l), base),
    decreases l,
{
    if l > 0 {
        lemma_stack_layout(net, base, sizes, l - 1);
        let before = layer_parameters(net.stack(), l - 1);
        let layer = net.stack()[l - 1];
        let nin = count_of(sizes[l - 1].0) as int;
        let nout = count_of(sizes[l - 1].1) as int;
        let start = base + parameters_before(sizes, l - 1);
        assert(layer.laid_out_at(start, nin, nout, l - 1 != sizes.len() - 1));
        lemma_layer_layout(layer, start, nin, nout, l - 1 != sizes.len() - 1, nout);
        assert(nout * (nin + 1) == parameters_of(sizes[l - 1]));
        let all = layer_parameters(net.stack(), l);
        assert(all == before + layer.params_spec());
        assert forall|i: int| 0 <= i < all.len() implies (#[trigger] all[i]).id == base + i by {
            if i < before.len() {
                assert(all[i] == before[i]);
            } else {
                assert(all[i] == layer.params_spec()[i - before.len()]);
            }
        }
    }
}

/// The parameters of a laid-out stack are all different, and are nodes of
/// any graph that reaches past the last of them: such a stack can be
/// zeroed and stepped.
pub proof fn lemma_stack_parameters(net: MLP, base: int, sizes: Seq<(isize, isize)>, g: Seq<Node>)
    requires
        base >= 0,
        net.laid_out_at(base, sizes),
        base + parameters_before(sizes, sizes.len() as int) <= g.len(),
    ensures
        net.params_spec().len() == parameters_before(sizes, sizes.len() as int),
        consecutive_from(net.params_spec(), base),
        net.params_spec().no_duplicates(),
        all_within(net.params_spec(), g),
{
    lemma_stack_layout(net, base, sizes, sizes.len() as int);
    lemma_consecutive_distinct(net.params_spec(), base);
}

/// Each layer reads as many values as the layer before it gives, and the
/// first reads `inputs` of them.
pub open spec fn chained(sizes: Seq<(isize, isize)>, inputs: int) -> bool {
    forall|l: int|
        0 <= l < sizes.len() ==> count_of((#[trigger] sizes[l]).0) == if l == 0 {
            inputs
        } else {
            count_of(sizes[l - 1].1) as int
        }
}

/// A laid-out stack of chained sizes can run on any inputs of the first
/// layer's width, in any graph that reaches past its parameters.
pub proof fn lemma_stack_reads(
    net: MLP,
    base: int,
    sizes: Seq<(isize, isize)>,
    g: Seq<Node>,
    x: Seq<Value>,
)
    requires
        base >= 0,
        net.laid_out_at(base, sizes),
        base + parameters_before(sizes, sizes.len() as int) <= g.len(),
        all_within(x, g),
        chained(sizes, x.len() as int),
    ensures
        net.reads(g, x),
{
    assert forall|l: int, j: int|
        0 <= l < net.stack().len() && 0 <= j < net.stack()[l].units().len() implies {
        &&& (#[trigger] net.stack()[l].units()[j]).within(g)
        &&& net.stack()[l].units()[j].weights().len() == if l == 0 {
            x.len()
        } else {
            net.stack()[l - 1].units().len()
        }
    } by {
        let layer = net.stack()[l];
        let unit = layer.units()[j];
        let nin = count_of(sizes[l].0) as int;
        let nout = count_of(sizes[l].1) as int;
        let start = base + parameters_before(sizes, l);
        assert(layer.laid_out_at(start, nin, nout, l != sizes.len() - 1));
        assert(unit.laid_out_at(start + j * (nin + 1), nin, l != sizes.len() - 1));
        lemma_parameters_before_grows(sizes, l + 1, sizes.len() as int);
        assert(parameters_before(sizes, l + 1) == parameters_before(sizes, l) + nout * (nin + 1));
        assert((j + 1) * (nin + 1) <= nout * (nin + 1)) by (nonlinear_arith)
            requires
                0 <= j < nout,
                nin >= 0,
        ;
        assert((j + 1) * (nin + 1) == j * (nin + 1) + nin + 1) by (nonlinear_arith);
        assert(sizes[l].0 == sizes[l].0);
        if l > 0 {
            let earlier = net.stack()[l - 1];
            assert(earlier.laid_out_at(
                base + parameters_before(sizes, l - 1),
                count_of(sizes[l - 1].0) as int,
                count_of(sizes[l - 1].1) as int,
                l - 1 != sizes.len() - 1,
            ));
        }
    }
}

} // verus!
