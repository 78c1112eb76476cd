//! End-to-end tests of the computation-graph engine: building
//! expressions, running the backward pass, and reading gradients back.

use micrograd::fixed::{MyF64, SCALE};
use micrograd::graph::{GraphError, Op, Value, ValueGraph};

fn leaf(g: &mut ValueGraph, label: &str, units: i64) -> usize {
    g.create_leaf(label.to_string(), MyF64(units))
}

#[test]
fn leaf_backward_sets_own_grad_to_one() {
    let mut g = ValueGraph::new();
    let a = leaf(&mut g, "a", 20_000);
    let b = leaf(&mut g, "b", 30_000);
    assert!(g.backward(a).is_ok());
    assert_eq!(g.get_value(a).unwrap().grad, MyF64(SCALE));
    assert_eq!(g.get_value(b).unwrap().grad, MyF64(0));
}

#[test]
fn add_backward_gives_one_to_each_operand() {
    let mut g = ValueGraph::new();
    let a = leaf(&mut g, "a", 20_000);
    let b = leaf(&mut g, "b", 30_000);
    let c = g.add(a, b).unwrap();
    assert_eq!(g.get_value(c).unwrap().data, MyF64(50_000));
    assert!(g.backward(c).is_ok());
    assert_eq!(g.get_value(c).unwrap().grad, MyF64(SCALE));
    assert_eq!(g.get_value(a).unwrap().grad, MyF64(SCALE));
    assert_eq!(g.get_value(b).unwrap().grad, MyF64(SCALE));
}

#[test]
fn mul_backward_gives_each_operand_the_other_value() {
    let mut g = ValueGraph::new();
    let a = leaf(&mut g, "a", 20_000);
    let b = leaf(&mut g, "b", -30_000);
    let c = g.mul(a, b).unwrap();
    assert_eq!(g.get_value(c).unwrap().data, MyF64(-60_000));
    assert!(g.backward(c).is_ok());
    assert_eq!(g.get_value(a).unwrap().grad, MyF64(-30_000));
    assert_eq!(g.get_value(b).unwrap().grad, MyF64(20_000));
}

#[test]
fn tanh_backward_gives_one_minus_square() {
    let mut g = ValueGraph::new();
    let a = leaf(&mut g, "a", 5_000);
    let c = g.tanh(a).unwrap();
    let cd = g.get_value(c).unwrap().data;
    assert_eq!(cd, MyF64(5_000).tanh());
    assert_eq!(cd, MyF64(4_621));
    assert!(g.backward(c).is_ok());
    let expected = MyF64(SCALE).sub(cd.mul(cd));
    assert_eq!(g.get_value(a).unwrap().grad, expected);
}

#[test]
fn diamond_sharing_sums_both_paths() {
    // b = a * a, c = b + a: the gradient at a is 2 * a + 1.
    let mut g = ValueGraph::new();
    let a = leaf(&mut g, "a", 30_000);
    let b = g.mul(a, a).unwrap();
    let c = g.add(b, a).unwrap();
    assert!(g.backward(c).is_ok());
    assert_eq!(g.get_value(a).unwrap().grad, MyF64(70_000));
    assert_eq!(g.get_value(b).unwrap().grad, MyF64(SCALE));
    assert_eq!(g.get_value(c).unwrap().grad, MyF64(SCALE));
}

#[test]
fn reference_scenario_gradients() {
    // Leaves a=2, b=-3, c=10, f=-2; e = a*b, d = e+c, l = d*f.
    let mut g = ValueGraph::new();
    let a = leaf(&mut g, "a", 20_000);
    let b = leaf(&mut g, "b", -30_000);
    let c = leaf(&mut g, "c", 100_000);
    let f = leaf(&mut g, "f", -20_000);
    let e = g.mul(a, b).unwrap();
    let d = g.add(e, c).unwrap();
    let l = g.mul(d, f).unwrap();
    assert_eq!(g.get_value(e).unwrap().data, MyF64(-60_000));
    assert_eq!(g.get_value(d).unwrap().data, MyF64(40_000));
    assert_eq!(g.get_value(l).unwrap().data, MyF64(-80_000));
    assert!(g.backward(l).is_ok());
    assert_eq!(g.get_value(l).unwrap().grad, MyF64(10_000));
    assert_eq!(g.get_value(d).unwrap().grad, MyF64(-20_000));
    assert_eq!(g.get_value(f).unwrap().grad, MyF64(40_000));
    assert_eq!(g.get_value(e).unwrap().grad, MyF64(-20_000));
    assert_eq!(g.get_value(c).unwrap().grad, MyF64(-20_000));
    assert_eq!(g.get_value(a).unwrap().grad, MyF64(60_000));
    assert_eq!(g.get_value(b).unwrap().grad, MyF64(-40_000));
}

#[test]
fn backward_twice_doubles_and_reset_reproduces() {
    let mut g = ValueGraph::new();
    let a = leaf(&mut g, "a", 20_000);
    let b = leaf(&mut g, "b", -30_000);
    let c = leaf(&mut g, "c", 100_000);
    let e = g.mul(a, b).unwrap();
    let d = g.add(e, c).unwrap();
    assert!(g.backward(d).is_ok());
    let first: Vec<MyF64> = (0..5).map(|i| g.get_value(i).unwrap().grad).collect();
    assert!(g.backward(d).is_ok());
    for i in 0..5 {
        let twice = g.get_value(i).unwrap().grad;
        if i == d {
            assert_eq!(twice, MyF64(SCALE));
        } else {
            assert_eq!(twice, first[i].add(first[i]));
        }
    }
    g.zero_grad();
    for i in 0..5 {
        assert_eq!(g.get_value(i).unwrap().grad, MyF64(0));
    }
    assert!(g.backward(d).is_ok());
    for i in 0..5 {
        assert_eq!(g.get_value(i).unwrap().grad, first[i]);
    }
}

#[test]
fn builder_labels_follow_operand_labels() {
    let mut g = ValueGraph::new();
    let a = leaf(&mut g, "x", 10_000);
    let b = leaf(&mut g, "y", 20_000);
    let s = g.add(a, b).unwrap();
    let p = g.mul(a, b).unwrap();
    let t = g.tanh(s).unwrap();
    assert_eq!(g.get_value(s).unwrap().label, "(x + y)");
    assert_eq!(g.get_value(p).unwrap().label, "(x * y)");
    assert_eq!(g.get_value(t).unwrap().label, "tanh((x + y))");
    assert_eq!(g.get_value(s).unwrap().op, Op::Add);
    assert_eq!(g.get_value(p).unwrap().op, Op::Mul);
    assert_eq!(g.get_value(t).unwrap().op, Op::Tanh);
    assert_eq!(g.get_value(t).unwrap().prev, vec![s]);
}

#[test]
fn unknown_indices_are_reported() {
    let mut g = ValueGraph::new();
    let a = leaf(&mut g, "a", 10_000);
    assert_eq!(g.add(a, 7), Err(GraphError::UnknownNode(7)));
    assert_eq!(g.add(9, a), Err(GraphError::UnknownNode(9)));
    assert_eq!(g.mul(a, 3), Err(GraphError::UnknownNode(3)));
    assert_eq!(g.tanh(5), Err(GraphError::UnknownNode(5)));
    assert_eq!(g.backward(2), Err(GraphError::UnknownNode(2)));
    assert!(g.get_value(1).is_none());
    assert_eq!(g.set_data(1, MyF64(0)), Err(GraphError::UnknownNode(1)));
    assert_eq!(g.set_label(1, String::new()), Err(GraphError::UnknownNode(1)));
    assert_eq!(g.len(), 1);
}

#[test]
fn add_value_and_accessors() {
    let mut g = ValueGraph::new();
    let a = g.add_value(Value::new(
        "w".to_string(),
        MyF64(15_000),
        MyF64(0),
        Op::Leaf,
        Vec::new(),
    ));
    assert_eq!(a, 0);
    assert_eq!(g.get_value(a).unwrap().data, MyF64(15_000));
    assert!(g.set_data(a, MyF64(25_000)).is_ok());
    assert_eq!(g.get_value(a).unwrap().data, MyF64(25_000));
    assert!(g.set_label(a, "w2".to_string()).is_ok());
    assert_eq!(g.get_value(a).unwrap().label, "w2");
    if let Some(v) = g.get_value_mut(a) {
        v.data = MyF64(35_000);
    }
    assert_eq!(g.get_value(a).unwrap().data, MyF64(35_000));
    assert!(g.get_value_mut(9).is_none());
    let d = Value::default();
    assert_eq!(d.op, Op::Leaf);
    assert_eq!(d.data, MyF64(0));
    assert!(d.prev.is_empty());
}

#[test]
fn gradient_descent_step_through_mutation() {
    // One external update step: data moves by a multiple of the gradient.
    let mut g = ValueGraph::new();
    let a = leaf(&mut g, "a", 30_000);
    let b = g.mul(a, a).unwrap();
    assert!(g.backward(b).is_ok());
    let grad = g.get_value(a).unwrap().grad;
    assert_eq!(grad, MyF64(60_000));
    let lr = MyF64(1_000); // 0.1
    let stepped = g.get_value(a).unwrap().data.sub(lr.mul(grad));
    assert!(g.set_data(a, stepped).is_ok());
    assert_eq!(g.get_value(a).unwrap().data, MyF64(24_000));
}
