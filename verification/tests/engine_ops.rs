use gradrs::engine::{Graph, OpType, Value};
use gradrs::scalar::Scalar;

fn s(x: f32) -> Scalar {
    Scalar::from_bits(x.to_bits())
}

fn f(x: Scalar) -> f32 {
    f32::from_bits(x.to_bits())
}

fn leaf(x: f32, g: &mut Graph) -> Value {
    Value::from_scalar(s(x), g)
}

#[test]
fn leaf_holds_value_and_nothing_else() {
    let mut g = Graph::new();
    let v = leaf(2.5, &mut g);
    assert_eq!(g.len(), 1);
    assert!(g.contains(v));
    let node = g.get(v);
    assert_eq!(f(node.data), 2.5);
    assert_eq!(f(node.grad), 0.0);
    assert!(node.op.is_none());
    assert!(node.src.is_empty());
    assert!(!node.param);
    assert!(!g.is_param(v));
}

#[test]
fn parameter_is_a_trainable_leaf() {
    let mut g = Graph::new();
    let p = Value::parameter(s(-0.25), &mut g);
    assert_eq!(f(g.data(p)), -0.25);
    assert_eq!(f(g.grad(p)), 0.0);
    assert!(g.is_param(p));
    assert!(g.op(p).is_none());
    assert_eq!(g.operand_count(p), 0);
}

#[test]
fn operators_compute_forward_values() {
    let mut g = Graph::new();
    let a = leaf(6.0, &mut g);
    let b = leaf(2.0, &mut g);
    let sum = a.add(&b, &mut g);
    let difference = a.sub(&b, &mut g);
    let product = a.mul(&b, &mut g);
    let quotient = a.div(&b, &mut g);
    assert_eq!(f(g.data(sum)), 8.0);
    assert_eq!(f(g.data(difference)), 4.0);
    assert_eq!(f(g.data(product)), 12.0);
    assert_eq!(f(g.data(quotient)), 3.0);
    assert_eq!(f(g.data(a)), 6.0);
    assert_eq!(f(g.data(b)), 2.0);
}

#[test]
fn operators_record_operation_and_operands_in_call_order() {
    let mut g = Graph::new();
    let a = leaf(1.0, &mut g);
    let b = leaf(2.0, &mut g);
    let difference = b.sub(&a, &mut g);
    let quotient = a.div(&b, &mut g);
    let rectified = a.relu(&mut g);
    assert_eq!(g.op(difference), Some(OpType::Sub));
    assert_eq!(g.operand_count(difference), 2);
    assert_eq!(g.operand(difference, 0), b);
    assert_eq!(g.operand(difference, 1), a);
    assert_eq!(g.op(quotient), Some(OpType::Div));
    assert_eq!(g.operand(quotient, 0), a);
    assert_eq!(g.operand(quotient, 1), b);
    assert_eq!(g.op(rectified), Some(OpType::Relu));
    assert_eq!(g.operand_count(rectified), 1);
    assert_eq!(g.operand(rectified, 0), a);
    assert_eq!(f(g.grad(difference)), 0.0);
    assert!(!g.is_param(quotient));
    assert_eq!(OpType::Relu.arity(), 1);
    assert_eq!(OpType::Add.arity(), 2);
    assert_eq!(OpType::Mul.arity(), 2);
}

#[test]
fn both_slots_of_a_shared_operand_accumulate() {
    let mut g = Graph::new();
    let x = leaf(3.0, &mut g);
    let y = x.mul(&x, &mut g);
    y.backward(&mut g);
    assert_eq!(f(g.data(y)), 9.0);
    assert_eq!(f(g.grad(y)), 1.0);
    assert_eq!(f(g.grad(x)), 6.0);
}

#[test]
fn add_passes_the_gradient_to_both_operands() {
    let mut g = Graph::new();
    let a = leaf(4.0, &mut g);
    let b = leaf(-7.0, &mut g);
    let y = a.add(&b, &mut g);
    y.backward(&mut g);
    assert_eq!(f(g.grad(a)), 1.0);
    assert_eq!(f(g.grad(b)), 1.0);
}

#[test]
fn sub_negates_the_gradient_of_the_second_operand() {
    let mut g = Graph::new();
    let a = leaf(4.0, &mut g);
    let b = leaf(-7.0, &mut g);
    let y = a.sub(&b, &mut g);
    y.backward(&mut g);
    assert_eq!(f(g.data(y)), 11.0);
    assert_eq!(f(g.grad(a)), 1.0);
    assert_eq!(f(g.grad(b)), -1.0);
}

#[test]
fn mul_swaps_the_operand_values() {
    let mut g = Graph::new();
    let a = leaf(1.75, &mut g);
    let b = leaf(-3.5, &mut g);
    let y = a.mul(&b, &mut g);
    y.backward(&mut g);
    assert_eq!(f(g.grad(a)), f(g.data(b)));
    assert_eq!(f(g.grad(b)), f(g.data(a)));
    assert_eq!(f(g.grad(a)), -3.5);
    assert_eq!(f(g.grad(b)), 1.75);
}

#[test]
fn div_of_six_by_two() {
    let mut g = Graph::new();
    let a = leaf(6.0, &mut g);
    let b = leaf(2.0, &mut g);
    let y = a.div(&b, &mut g);
    assert_eq!(f(g.data(y)), 3.0);
    y.backward(&mut g);
    assert_eq!(f(g.grad(a)), 0.5);
    assert_eq!(f(g.grad(b)), -1.5);
}

#[test]
fn relu_is_closed_below_and_at_zero() {
    let mut g = Graph::new();
    let a = leaf(-2.0, &mut g);
    let y = a.relu(&mut g);
    assert_eq!(f(g.data(y)), 0.0);
    y.backward(&mut g);
    assert_eq!(f(g.grad(a)), 0.0);

    let mut g = Graph::new();
    let a = leaf(0.0, &mut g);
    let y = a.relu(&mut g);
    assert_eq!(f(g.data(y)), 0.0);
    y.backward(&mut g);
    assert_eq!(f(g.grad(a)), 0.0);
}

#[test]
fn relu_is_open_above_zero() {
    let mut g = Graph::new();
    let a = leaf(2.5, &mut g);
    let y = a.relu(&mut g);
    assert_eq!(f(g.data(y)), 2.5);
    y.backward(&mut g);
    assert_eq!(f(g.grad(a)), 1.0);
}

#[test]
fn backward_seeds_the_root_with_one() {
    let mut g = Graph::new();
    let a = leaf(5.0, &mut g);
    a.backward(&mut g);
    assert_eq!(f(g.grad(a)), 1.0);
    assert_eq!(f(g.data(a)), 5.0);
}

#[test]
fn a_second_backward_adds_to_the_first() {
    let mut g = Graph::new();
    let a = leaf(2.0, &mut g);
    let b = leaf(5.0, &mut g);
    let y = a.mul(&b, &mut g);
    y.backward(&mut g);
    assert_eq!(f(g.grad(a)), 5.0);
    assert_eq!(f(g.grad(b)), 2.0);
    y.backward(&mut g);
    assert_eq!(f(g.grad(y)), 1.0);
    assert_eq!(f(g.grad(a)), 10.0);
    assert_eq!(f(g.grad(b)), 4.0);
}

#[test]
fn backward_leaves_values_and_structure_alone() {
    let mut g = Graph::new();
    let a = leaf(2.0, &mut g);
    let b = leaf(5.0, &mut g);
    let y = a.mul(&b, &mut g);
    let z = y.add(&a, &mut g);
    z.backward(&mut g);
    assert_eq!(g.len(), 4);
    assert_eq!(f(g.data(a)), 2.0);
    assert_eq!(f(g.data(b)), 5.0);
    assert_eq!(f(g.data(y)), 10.0);
    assert_eq!(f(g.data(z)), 12.0);
    assert_eq!(g.op(z), Some(OpType::Add));
    assert_eq!(g.operand(z, 0), y);
    assert_eq!(g.operand(z, 1), a);
    assert_eq!(f(g.grad(a)), 6.0);
    assert_eq!(f(g.grad(b)), 2.0);
}

#[test]
fn nodes_outside_the_root_keep_their_gradient() {
    let mut g = Graph::new();
    let a = leaf(2.0, &mut g);
    let b = leaf(5.0, &mut g);
    let c = leaf(9.0, &mut g);
    let y = a.mul(&b, &mut g);
    let other = c.mul(&a, &mut g);
    y.backward(&mut g);
    assert_eq!(f(g.grad(c)), 0.0);
    assert_eq!(f(g.grad(other)), 0.0);
    assert_eq!(f(g.grad(a)), 5.0);
}

#[test]
fn topological_order_of_a_diamond() {
    let mut g = Graph::new();
    let a = leaf(1.0, &mut g);
    let b = leaf(2.0, &mut g);
    let left = a.add(&b, &mut g);
    let right = b.mul(&a, &mut g);
    let unused = a.sub(&b, &mut g);
    let root = left.div(&right, &mut g);
    let order = root.topological_order(&g);
    assert_eq!(order, vec![a, b, left, right, root]);
    assert!(!order.contains(&unused));
    let order = right.topological_order(&g);
    assert_eq!(order, vec![b, a, right]);
}

#[test]
fn topological_order_lists_each_node_once_after_its_operands() {
    let mut g = Graph::new();
    let x = leaf(1.5, &mut g);
    let mut top = x;
    let mut all = vec![x];
    for _ in 0..12 {
        let twice = top.add(&top, &mut g);
        let mixed = twice.mul(&x, &mut g);
        top = mixed.sub(&top, &mut g);
        all.push(twice);
        all.push(mixed);
        all.push(top);
    }
    let order = top.topological_order(&g);
    assert_eq!(order.len(), all.len());
    assert_eq!(*order.last().unwrap(), top);
    for (place, v) in order.iter().enumerate() {
        assert_eq!(order.iter().filter(|o| *o == v).count(), 1);
        for k in 0..g.operand_count(*v) {
            let operand = g.operand(*v, k);
            let seen = order.iter().position(|o| *o == operand).unwrap();
            assert!(seen < place);
        }
    }
}

#[test]
fn gradient_through_a_deep_chain_with_sharing() {
    let mut g = Graph::new();
    let x = leaf(2.0, &mut g);
    let square = x.mul(&x, &mut g);
    let cube = square.mul(&x, &mut g);
    let sum = cube.add(&square, &mut g);
    let y = sum.sub(&x, &mut g);
    y.backward(&mut g);
    assert_eq!(f(g.data(y)), 10.0);
    assert_eq!(f(g.grad(x)), 15.0);
}

fn sample(a: f32, b: f32, c: f32, g: &mut Graph) -> (Value, [Value; 3]) {
    let a = leaf(a, g);
    let b = leaf(b, g);
    let c = leaf(c, g);
    let ab = a.mul(&b, g);
    let shifted = ab.add(&c, g);
    let gate = shifted.relu(g);
    let spread = b.sub(&a, g);
    let ratio = gate.div(&spread, g);
    let mixed = ratio.mul(&c, g);
    let root = mixed.add(&ab, g);
    (root, [a, b, c])
}

#[test]
fn gradients_agree_with_central_differences() {
    let at = [1.25f32, 3.5, 0.75];
    let mut g = Graph::new();
    let (root, leaves) = sample(at[0], at[1], at[2], &mut g);
    root.backward(&mut g);
    let h = 1.0e-2f32;
    for i in 0..3 {
        let mut up = at;
        let mut down = at;
        up[i] += h;
        down[i] -= h;
        let mut gu = Graph::new();
        let (ru, _) = sample(up[0], up[1], up[2], &mut gu);
        let mut gd = Graph::new();
        let (rd, _) = sample(down[0], down[1], down[2], &mut gd);
        let estimate = (f(gu.data(ru)) - f(gd.data(rd))) / (2.0 * h);
        let got = f(g.grad(leaves[i]));
        assert!((got - estimate).abs() < 1.0e-3, "leaf {}: {} against {}", i, got, estimate);
    }
}

#[test]
fn a_zero_divisor_gives_infinity_or_nan() {
    let mut g = Graph::new();
    let a = leaf(6.0, &mut g);
    let zero = leaf(0.0, &mut g);
    let y = a.div(&zero, &mut g);
    assert_eq!(f(g.data(y)), f32::INFINITY);
    let undefined = zero.div(&zero, &mut g);
    assert!(f(g.data(undefined)).is_nan());
    y.backward(&mut g);
    assert_eq!(f(g.grad(a)), f32::INFINITY);
    assert_eq!(f(g.grad(zero)), f32::NEG_INFINITY);
}

#[test]
fn truncate_drops_the_tail_and_keeps_the_rest() {
    let mut g = Graph::new();
    let a = leaf(2.0, &mut g);
    let b = leaf(5.0, &mut g);
    let y = a.mul(&b, &mut g);
    y.backward(&mut g);
    g.truncate(2);
    assert_eq!(g.len(), 2);
    assert!(g.contains(a));
    assert!(g.contains(b));
    assert!(!g.contains(y));
    assert_eq!(f(g.grad(a)), 5.0);
    assert_eq!(f(g.data(b)), 5.0);
    g.truncate(7);
    assert_eq!(g.len(), 2);
    let again = a.add(&b, &mut g);
    assert_eq!(again, y);
    assert_eq!(f(g.data(again)), 7.0);
}

#[test]
fn equal_values_are_still_different_nodes() {
    let mut g = Graph::new();
    let a = leaf(2.0, &mut g);
    let b = leaf(2.0, &mut g);
    assert_ne!(a, b);
    let y = a.mul(&b, &mut g);
    let order = y.topological_order(&g);
    assert_eq!(order, vec![a, b, y]);
    y.backward(&mut g);
    assert_eq!(f(g.grad(a)), 2.0);
    assert_eq!(f(g.grad(b)), 2.0);
}

#[test]
fn div_takes_the_dividend_over_the_square_of_the_divisor() {
    let (a0, b0) = (1.1f32, 3.3f32);
    let mut g = Graph::new();
    let a = leaf(a0, &mut g);
    let b = leaf(b0, &mut g);
    let y = a.div(&b, &mut g);
    y.backward(&mut g);
    assert_eq!(f(g.data(y)), a0 / b0);
    assert_eq!(f(g.grad(a)), 0.0 + 1.0 / b0);
    assert_eq!(f(g.grad(b)), 0.0 - (1.0 * a0) / (b0 * b0));
}

#[test]
fn relu_keeps_a_negative_zero_and_adds_zero_behind_a_closed_gate() {
    let mut g = Graph::new();
    let a = leaf(-0.0, &mut g);
    let y = a.relu(&mut g);
    assert_eq!(g.data(y).to_bits(), 0x8000_0000);
    y.backward(&mut g);
    assert_eq!(g.grad(a).to_bits(), 0);
}
