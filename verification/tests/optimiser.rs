use micrograd_rs::builder::GraphBuilder;
use micrograd_rs::graph::RunnableGraph;
use micrograd_rs::node::{Data, IdGenerator, NodeId, Operation};
use micrograd_rs::optimiser::{AdamOptimiser, LearningRateOptimiser, Optimiser};
use micrograd_rs::scalar::Arithmetic;

type Binary = fn(Operation, f64, f64) -> f64;
type Floats = Arithmetic<f64, Binary, fn(f64) -> bool, fn(f64) -> f64, fn(u64) -> f64>;

fn binary(op: Operation, l: f64, r: f64) -> f64 {
    match op {
        Operation::Add => l + r,
        Operation::Sub => l - r,
        Operation::Mul => l * r,
        Operation::Div => l / r,
        Operation::Pow => num::traits::Pow::pow(l, r),
        Operation::Relu => unreachable!(),
    }
}

fn positive(v: f64) -> bool {
    v > 0.0
}

fn root(v: f64) -> f64 {
    v.sqrt()
}

fn number(n: u64) -> f64 {
    n as f64
}

fn floats() -> Floats {
    Arithmetic::new(0.0, binary as Binary, positive as fn(f64) -> bool, root as fn(f64) -> f64, number as fn(u64) -> f64)
}

fn close(left: f64, right: f64) -> bool {
    (left - right).abs() <= 1e-15
}

#[test]
fn arithmetic_applies_each_operation() {
    let arith = floats();
    assert_eq!(arith.plus(1.5, 2.), 3.5);
    assert_eq!(arith.minus(1.5, 2.), -0.5);
    assert_eq!(arith.times(1.5, 2.), 3.);
    assert_eq!(arith.over(1.5, 2.), 0.75);
    assert_eq!(arith.power(1.5, 2.), 2.25);
    assert_eq!(arith.sqrt(2.25), 1.5);
    assert_eq!(arith.from_number(1000), 1000.);
    assert!(arith.is_positive(0.1));
    assert!(!arith.is_positive(0.));
    assert!(!arith.is_positive(-0.1));
    assert_eq!(arith.rectified(2.), 2.);
    assert_eq!(arith.rectified(-2.), 0.);
    assert_eq!(arith.apply(Operation::Add, 1., 2.), 3.);
    assert_eq!(arith.apply(Operation::Sub, 1., 2.), -1.);
    assert_eq!(arith.apply(Operation::Mul, 3., 2.), 6.);
    assert_eq!(arith.apply(Operation::Div, 1., 2.), 0.5);
    assert_eq!(arith.apply(Operation::Pow, 2., 3.), 8.);
    assert_eq!(arith.apply(Operation::Relu, -1., 2.), 0.);
    assert_eq!(arith.apply(Operation::Relu, 1., -2.), 1.);
}

#[test]
fn gradient_descent_moves_each_value_against_its_gradient() {
    let arith = floats();
    let mut optimiser = LearningRateOptimiser::new(0.1);
    let mut data = vec![Data::new(1.0, 0.5), Data::new(-2.0, -1.0), Data::new(3.0, 0.0)];
    optimiser.optimise(&mut data, &arith);
    assert_eq!(data[0].value, 0.95);
    assert_eq!(data[1].value, -1.9);
    assert_eq!(data[2].value, 3.0);
    assert_eq!(data[0].gradient, 0.5);
    assert_eq!(data[1].gradient, -1.0);
    assert_eq!(data[2].gradient, 0.0);
    assert_eq!(optimiser.learning_rate, 0.1);
    assert_eq!(data.len(), 3);
}

#[test]
fn gradient_descent_on_no_slots_does_nothing() {
    let arith = floats();
    let mut optimiser = LearningRateOptimiser::new(0.1);
    let mut data: Vec<Data<f64>> = vec![];
    optimiser.optimise(&mut data, &arith);
    assert!(data.is_empty());
}

#[test]
fn adam_starts_with_zero_moments() {
    let arith = floats();
    let optimiser = AdamOptimiser::new(3, &arith);
    assert_eq!(optimiser.m, vec![0.; 3]);
    assert_eq!(optimiser.v, vec![0.; 3]);
    assert_eq!(optimiser.t, 0.);
}

#[test]
fn adam_first_step_with_unit_gradient() {
    let arith = floats();
    let mut optimiser = AdamOptimiser::new(1, &arith);
    let mut data = vec![Data::new(1.0, 1.0)];
    optimiser.optimise(&mut data, &arith);

    let alpha = 0.001_f64;
    let beta_1 = 0.9_f64;
    let beta_2 = 0.999_f64;
    let epsilon = 1e-8_f64;
    let step = alpha * (1. - beta_2).sqrt() / (1. - beta_1) * (1. - beta_1) / ((1. - beta_2).sqrt() + epsilon);
    assert!(close(step, 0.000999999683772334));
    assert!(close(data[0].value, 1.0 - step));
    assert!(close(data[0].value, 0.9990000003162277));
    assert_eq!(data[0].gradient, 1.0);
    assert_eq!(optimiser.t, 1.);
    assert!(close(optimiser.m[0], 1. - beta_1));
    assert!(close(optimiser.v[0], 1. - beta_2));
}

#[test]
fn adam_second_step_uses_the_moments_of_the_first() {
    let arith = floats();
    let mut optimiser = AdamOptimiser::new(2, &arith);
    let mut data = vec![Data::new(0.5, 1.0), Data::new(0.5, 0.0)];
    optimiser.optimise(&mut data, &arith);
    assert!(close(data[0].value, 0.49900000031622765));
    assert_eq!(data[1].value, 0.5);
    optimiser.optimise(&mut data, &arith);
    assert!(close(data[0].value, 0.49800000053989035));
    assert_eq!(data[1].value, 0.5);
    assert_eq!(optimiser.t, 2.);
    assert_eq!(data[0].gradient, 1.0);
    assert_eq!(optimiser.m[1], 0.);
    assert_eq!(optimiser.v[1], 0.);
}

#[test]
fn update_weights_hands_every_slot_to_the_optimiser() {
    let arith = floats();
    let mut ids = IdGenerator::new();
    let graph = GraphBuilder::new();
    let x = graph.create_input(&mut ids);
    let out = GraphBuilder::with_immediate(Operation::Mul, 3., &x.builder, &mut ids);
    let mut g = RunnableGraph::new(vec![&out], &arith).unwrap();
    g.set_input(x.id, 2.);
    assert_eq!(g.evaluate(&vec![out.root], &arith), vec![6.]);
    assert_eq!(g.backwards(vec![(out.root, 1.)], &arith), Ok(()));
    let mut optimiser = LearningRateOptimiser::new(0.5);
    g.update_weights(&mut optimiser, &arith);
    assert_eq!(g.value_for_id(x.id), 2. - 0.5 * 3.);
    assert_eq!(g.value_for_id(NodeId(1)), 3. - 0.5 * 2.);
    assert_eq!(g.value_for_id(out.root), 6. - 0.5 * 1.);
    assert_eq!(g.grad_for_id(x.id), 3.);
    assert_eq!(g.grad_for_id(NodeId(1)), 2.);
    assert_eq!(g.grad_for_id(out.root), 1.);

    g.set_input(x.id, 2.);
    assert_eq!(g.evaluate(&vec![out.root], &arith), vec![4.]);
}

#[test]
fn adam_is_sized_by_the_number_of_parameters() {
    let arith = floats();
    let mut ids = IdGenerator::new();
    let graph = GraphBuilder::new();
    let x = graph.create_input(&mut ids);
    let out = GraphBuilder::with_immediate(Operation::Mul, 3., &x.builder, &mut ids);
    let mut g = RunnableGraph::new(vec![&out], &arith).unwrap();
    let mut optimiser = AdamOptimiser::new(g.num_parameters(), &arith);
    assert_eq!(optimiser.m.len(), 3);
    g.set_input(x.id, 2.);
    g.evaluate(&vec![out.root], &arith);
    assert_eq!(g.backwards(vec![(out.root, 1.)], &arith), Ok(()));
    g.update_weights(&mut optimiser, &arith);
    assert!(g.value_for_id(NodeId(1)) < 3.);
    assert!(close(g.value_for_id(NodeId(1)), 3. - 0.000999999841886142));
    assert_eq!(optimiser.t, 1.);
}
