use gradrs::engine::{Graph, Value};
use gradrs::nn::{unit_from_draw, Layer, Module, Neuron, DRAW_LIMIT, MLP};
use gradrs::scalar::Scalar;

fn s(x: f32) -> Scalar {
    Scalar::from_bits(x.to_bits())
}

fn f(x: Scalar) -> f32 {
    f32::from_bits(x.to_bits())
}

fn leaf(x: f32, g: &mut Graph) -> Value {
    Value::from_scalar(s(x), g)
}

fn draws(seed: u64, count: usize) -> Vec<i32> {
    let mut state = seed;
    let mut out = Vec::new();
    for _ in 0..count {
        state = state.wrapping_mul(6364136223846793005).wrapping_add(1442695040888963407);
        let wide = (state >> 33) as i64 % (2 * DRAW_LIMIT as i64 + 1);
        out.push((wide - DRAW_LIMIT as i64) as i32);
    }
    out
}

#[test]
fn a_draw_is_a_fraction_of_the_limit() {
    assert_eq!(DRAW_LIMIT, 8_388_608);
    assert_eq!(f(unit_from_draw(0)), 0.0);
    assert_eq!(f(unit_from_draw(DRAW_LIMIT)), 1.0);
    assert_eq!(f(unit_from_draw(-DRAW_LIMIT)), -1.0);
    assert_eq!(f(unit_from_draw(DRAW_LIMIT / 2)), 0.5);
    assert_eq!(f(unit_from_draw(-DRAW_LIMIT / 4)), -0.25);
    assert_eq!(f(unit_from_draw(1)), 1.0 / 8_388_608.0);
    for k in draws(7, 1000) {
        assert!(-DRAW_LIMIT <= k && k <= DRAW_LIMIT);
        assert_eq!(f(unit_from_draw(k)), k as f32 / 8_388_608.0);
    }
}

#[test]
fn unit_from_draws_takes_weights_then_bias() {
    let mut g = Graph::new();
    let _ = leaf(9.0, &mut g);
    let given = vec![1, DRAW_LIMIT / 2, -DRAW_LIMIT / 4, DRAW_LIMIT, 5];
    let unit = Neuron::from_draws(2, true, &given, 1, &mut g);
    assert_eq!(g.len(), 4);
    assert_eq!(unit.input_count(), 2);
    assert!(unit.is_nonlinear());
    let params = unit.params();
    assert_eq!(params, vec![Value { id: 1 }, Value { id: 2 }, Value { id: 3 }]);
    assert_eq!(f(g.data(params[0])), 0.5);
    assert_eq!(f(g.data(params[1])), -0.25);
    assert_eq!(f(g.data(params[2])), 1.0);
    for p in params {
        assert!(g.is_param(p));
        assert_eq!(f(g.grad(p)), 0.0);
        assert!(g.op(p).is_none());
    }
}

#[test]
fn a_random_unit_holds_numbers_from_minus_one_to_one() {
    let mut g = Graph::new();
    let unit = Neuron::new(40, false, &mut g);
    assert_eq!(unit.input_count(), 40);
    assert!(!unit.is_nonlinear());
    let params = unit.params();
    assert_eq!(params.len(), 41);
    assert_eq!(g.len(), 41);
    let mut distinct = 0;
    for (i, p) in params.iter().enumerate() {
        assert_eq!(p.id, i);
        let x = f(g.data(*p));
        assert!(-1.0 <= x && x <= 1.0);
        assert!(g.is_param(*p));
        assert_eq!(f(g.grad(*p)), 0.0);
        if x != f(g.data(params[0])) {
            distinct += 1;
        }
    }
    assert!(distinct > 0);
}

#[test]
fn a_unit_with_a_negative_size_has_only_a_bias() {
    let mut g = Graph::new();
    let unit = Neuron::new(-3, false, &mut g);
    assert_eq!(unit.input_count(), 0);
    assert_eq!(unit.params().len(), 1);
    let out = unit.call(&[], &mut g);
    assert_eq!(out, unit.params()[0]);
}

#[test]
fn a_linear_unit_sums_bias_and_weighted_inputs() {
    let mut g = Graph::new();
    let given = vec![DRAW_LIMIT / 2, -DRAW_LIMIT / 4, DRAW_LIMIT / 8];
    let unit = Neuron::from_draws(2, false, &given, 0, &mut g);
    let x = [leaf(3.0, &mut g), leaf(10.0, &mut g)];
    assert!(unit.accepts(&x, &g));
    let before = g.len();
    let y = unit.call(&x, &mut g);
    assert_eq!(g.len(), before + 4);
    assert_eq!(f(g.data(y)), (0.125 + 0.5 * 3.0) + -0.25 * 10.0);
    assert_eq!(f(g.data(y)), -0.875);
}

#[test]
fn a_nonlinear_unit_rectifies_its_sum() {
    let mut g = Graph::new();
    let given = vec![DRAW_LIMIT / 2, -DRAW_LIMIT / 4, DRAW_LIMIT / 8];
    let unit = Neuron::from_draws(2, true, &given, 0, &mut g);
    let x = [leaf(3.0, &mut g), leaf(10.0, &mut g)];
    let before = g.len();
    let y = unit.call(&x, &mut g);
    assert_eq!(g.len(), before + 5);
    assert_eq!(f(g.data(y)), 0.0);
    let x = [leaf(3.0, &mut g), leaf(-10.0, &mut g)];
    let y = unit.call(&x, &mut g);
    assert_eq!(f(g.data(y)), 4.125);
}

#[test]
fn a_unit_refuses_inputs_of_the_wrong_length() {
    let mut g = Graph::new();
    let unit = Neuron::from_draws(2, false, &vec![1, 2, 3], 0, &mut g);
    let a = leaf(1.0, &mut g);
    let b = leaf(2.0, &mut g);
    let c = leaf(3.0, &mut g);
    assert!(unit.accepts(&[a, b], &g));
    assert!(!unit.accepts(&[a], &g));
    assert!(!unit.accepts(&[a, b, c], &g));
    assert!(!unit.accepts(&[a, Value { id: 99 }], &g));
}

#[test]
fn a_layer_gives_one_output_per_unit() {
    let mut g = Graph::new();
    let given = vec![
        DRAW_LIMIT,
        0,
        DRAW_LIMIT / 2,
        0,
        DRAW_LIMIT,
        -DRAW_LIMIT / 2,
        DRAW_LIMIT,
        DRAW_LIMIT,
        0,
    ];
    let layer = Layer::from_draws(2, 3, false, &given, 0, &mut g);
    assert_eq!(layer.unit_count(), 3);
    assert_eq!(layer.params().len(), 9);
    for (i, p) in layer.params().iter().enumerate() {
        assert_eq!(p.id, i);
    }
    let x = [leaf(3.0, &mut g), leaf(10.0, &mut g)];
    assert!(layer.accepts(&x, &g));
    let y = layer.call(&x, &mut g);
    assert_eq!(y.len(), 3);
    assert_eq!(f(g.data(y[0])), 3.5);
    assert_eq!(f(g.data(y[1])), 9.5);
    assert_eq!(f(g.data(y[2])), 13.0);
}

#[test]
fn every_layer_but_the_last_is_nonlinear() {
    let mut g = Graph::new();
    let net = MLP::new(vec![(1, 10), (10, 1)], &mut g);
    assert_eq!(net.layer_count(), 2);
    let first = net.layer(0);
    let last = net.layer(1);
    assert_eq!(first.unit_count(), 10);
    assert_eq!(last.unit_count(), 1);
    for j in 0..first.unit_count() {
        assert!(first.unit(j).is_nonlinear());
        assert_eq!(first.unit(j).input_count(), 1);
    }
    assert!(!last.unit(0).is_nonlinear());
    assert_eq!(last.unit(0).input_count(), 10);
    assert_eq!(net.params().len(), 31);
    assert_eq!(g.len(), 31);
}

#[test]
fn the_nonlinear_flags_of_deeper_and_single_stacks() {
    let mut g = Graph::new();
    let net = MLP::new(vec![(2, 3), (3, 4), (4, 2)], &mut g);
    assert!(net.layer(0).unit(0).is_nonlinear());
    assert!(net.layer(1).unit(3).is_nonlinear());
    assert!(!net.layer(2).unit(1).is_nonlinear());
    assert_eq!(net.params().len(), 9 + 16 + 10);
    let single = MLP::new(vec![(2, 2)], &mut g);
    assert!(!single.layer(0).unit(0).is_nonlinear());
    let empty = MLP::new(vec![], &mut g);
    assert_eq!(empty.layer_count(), 0);
    assert!(empty.params().is_empty());
    let x = [leaf(1.0, &mut g)];
    assert_eq!(empty.call(&x, &mut g), x.to_vec());
}

#[test]
fn a_stack_from_draws_lays_parameters_out_in_order() {
    let mut g = Graph::new();
    let _ = leaf(0.0, &mut g);
    let given = draws(11, 40);
    let net = MLP::from_draws(vec![(1, 10), (10, 1)], &given, &mut g);
    let params = net.params();
    assert_eq!(params.len(), 31);
    assert_eq!(g.len(), 32);
    for (i, p) in params.iter().enumerate() {
        assert_eq!(p.id, i + 1);
        assert_eq!(f(g.data(*p)), given[i] as f32 / 8_388_608.0);
        assert!(g.is_param(*p));
    }
    assert_eq!(net.layer(0).unit(3).params(), vec![Value { id: 7 }, Value { id: 8 }]);
    assert_eq!(net.layer(1).unit(0).params()[10], Value { id: 31 });
}

#[test]
fn a_stack_threads_values_through_its_layers() {
    let mut g = Graph::new();
    let half = DRAW_LIMIT / 2;
    let given = vec![DRAW_LIMIT, 0, -DRAW_LIMIT, half, half, half, -half];
    let net = MLP::from_draws(vec![(1, 2), (2, 1)], &given, &mut g);
    let x = [leaf(3.0, &mut g)];
    assert!(net.accepts(&x, &g));
    let y = net.call(&x, &mut g);
    assert_eq!(y.len(), 1);
    assert_eq!(f(g.data(y[0])), -0.5 + 0.5 * 3.0 + 0.5 * 0.0);
    let wrong = [x[0], x[0]];
    assert!(!net.accepts(&wrong, &g));
    let mismatched = MLP::from_draws(vec![(1, 2), (3, 1)], &draws(3, 8), &mut g);
    assert!(!mismatched.accepts(&x, &g));
}

#[test]
fn zero_grad_clears_gradients_and_keeps_values() {
    let mut g = Graph::new();
    let net = MLP::from_draws(vec![(2, 3), (3, 1)], &draws(5, 13), &mut g);
    let x = [leaf(1.5, &mut g), leaf(-2.0, &mut g)];
    let y = net.call(&x, &mut g);
    y[0].backward(&mut g);
    let params = net.params();
    let values: Vec<u32> = params.iter().map(|p| g.data(*p).to_bits()).collect();
    assert!(params.iter().any(|p| f(g.grad(*p)) != 0.0));
    let output_grad = g.grad(y[0]).to_bits();
    net.zero_grad(&mut g);
    for (p, before) in params.iter().zip(values.iter()) {
        assert_eq!(g.grad(*p).to_bits(), 0);
        assert_eq!(g.data(*p).to_bits(), *before);
    }
    assert_eq!(g.grad(y[0]).to_bits(), output_grad);
}

#[test]
fn step_moves_each_parameter_against_its_gradient() {
    let mut g = Graph::new();
    let net = MLP::from_draws(vec![(2, 3), (3, 1)], &draws(5, 13), &mut g);
    let x = [leaf(1.5, &mut g), leaf(-2.0, &mut g)];
    let y = net.call(&x, &mut g);
    y[0].backward(&mut g);
    let params = net.params();
    let before: Vec<(f32, f32)> = params.iter().map(|p| (f(g.data(*p)), f(g.grad(*p)))).collect();
    let lr = 0.01f32;
    net.step(s(lr), &mut g);
    for (p, (d, grad)) in params.iter().zip(before.iter()) {
        assert_eq!(f(g.data(*p)), d - lr * grad);
        assert_eq!(f(g.grad(*p)), *grad);
    }
    assert_eq!(f(g.data(x[0])), 1.5);
}

#[test]
fn step_on_a_single_unit() {
    let mut g = Graph::new();
    let unit = Neuron::from_draws(1, false, &vec![DRAW_LIMIT / 2, DRAW_LIMIT / 4], 0, &mut g);
    let x = [leaf(4.0, &mut g)];
    let y = unit.call(&x, &mut g);
    y.backward(&mut g);
    unit.step(s(0.5), &mut g);
    let params = unit.params();
    assert_eq!(f(g.data(params[0])), 0.5 - 0.5 * 4.0);
    assert_eq!(f(g.data(params[1])), 0.25 - 0.5 * 1.0);
    unit.zero_grad(&mut g);
    assert_eq!(f(g.grad(params[0])), 0.0);
    assert_eq!(f(g.grad(params[1])), 0.0);
    assert_eq!(f(g.data(params[0])), -1.5);
}

fn train(net: &MLP, g: &mut Graph, xs: &[Value], ys: &[Value], scale: Value, zero: Value, epochs: usize) -> (f32, f32) {
    let mark = g.len();
    let mut first = 0.0;
    let mut last = 0.0;
    for epoch in 0..epochs {
        let mut sum = zero;
        for (x, y) in xs.iter().zip(ys.iter()) {
            let input = [*x];
            assert!(net.accepts(&input, g));
            let z = net.call(&input, g)[0];
            let diff = z.sub(y, g);
            let square = diff.mul(&diff, g);
            sum = sum.add(&square, g);
        }
        let mse = sum.mul(&scale, g);
        net.zero_grad(g);
        mse.backward(g);
        net.step(s(0.01), g);
        last = f(g.data(mse));
        if epoch == 0 {
            first = last;
        }
        g.truncate(mark);
    }
    (first, last)
}

fn regression_data(g: &mut Graph) -> (Vec<Value>, Vec<Value>, Value, Value) {
    let one = leaf(1.0, g);
    let xs: Vec<Value> = (0..10).map(|x| leaf(x as f32, g)).collect();
    let ys: Vec<Value> = xs.iter().map(|x| x.add(&one, g)).collect();
    let scale = leaf(1.0 / xs.len() as f32, g);
    let zero = leaf(0.0, g);
    (xs, ys, scale, zero)
}

#[test]
fn training_lowers_the_loss() {
    let mut g = Graph::new();
    let (xs, ys, scale, zero) = regression_data(&mut g);
    let net = MLP::from_draws(vec![(1, 10), (10, 1)], &draws(2024, 31), &mut g);
    let (first, last) = train(&net, &mut g, &xs, &ys, scale, zero, 5000);
    assert!(last < first, "loss went from {} to {}", first, last);
}

#[test]
fn a_module_belongs_to_the_graph_that_holds_its_parameters() {
    let mut g = Graph::new();
    let net = MLP::from_draws(vec![(1, 2), (2, 1)], &draws(9, 7), &mut g);
    assert!(net.belongs_to(&g));
    assert!(net.layer(0).belongs_to(&g));
    assert!(net.layer(1).unit(0).belongs_to(&g));
    g.truncate(6);
    assert!(!net.belongs_to(&g));
    assert!(net.layer(0).belongs_to(&g));
    let other = Graph::new();
    assert!(!net.layer(0).unit(0).belongs_to(&other));
}
