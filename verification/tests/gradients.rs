use micrograd_rs::builder::GraphBuilder;
use micrograd_rs::graph::RunnableGraph;
use micrograd_rs::node::{IdGenerator, Node, NodeId, Operation, UnsupportedOperation};
use micrograd_rs::scalar::Arithmetic;

type Binary = fn(Operation, f64, f64) -> f64;
type Floats = Arithmetic<f64, Binary, fn(f64) -> bool, fn(f64) -> f64, fn(u64) -> f64>;

fn binary(op: Operation, l: f64, r: f64) -> f64 {
    match op {
        Operation::Add => l + r,
        Operation::Sub => l - r,
        Operation::Mul => l * r,
        Operation::Div => l / r,
        Operation::Pow => num::traits::Pow::pow(l, r),
        Operation::Relu => unreachable!(),
    }
}

fn positive(v: f64) -> bool {
    v > 0.0
}

fn root(v: f64) -> f64 {
    v.sqrt()
}

fn number(n: u64) -> f64 {
    n as f64
}

fn floats() -> Floats {
    Arithmetic::new(0.0, binary as Binary, positive as fn(f64) -> bool, root as fn(f64) -> f64, number as fn(u64) -> f64)
}

fn freeze(graphs: Vec<&GraphBuilder<f64>>) -> RunnableGraph<f64> {
    RunnableGraph::new(graphs, &floats()).unwrap()
}

fn gradients(g: &RunnableGraph<f64>) -> Vec<f64> {
    (0..g.len()).map(|i| g.grad_for_id(NodeId(i))).collect()
}

#[test]
fn add_hands_its_gradient_to_both_operands() {
    let arith = floats();
    let mut ids = IdGenerator::new();
    let graph = GraphBuilder::new();
    let a = graph.create_input(&mut ids);
    let b = graph.create_input(&mut ids);
    let out = a.builder.add(&b.builder, &mut ids);
    let mut g = freeze(vec![&out]);
    g.set_input(a.id, 3.);
    g.set_input(b.id, -4.);
    g.evaluate(&vec![out.root], &arith);
    assert_eq!(g.backwards(vec![(out.root, 2.5)], &arith), Ok(()));
    assert_eq!(gradients(&g), vec![2.5, 2.5, 2.5]);
    assert_eq!(g.value_for_id(out.root), -1.);
}

#[test]
fn mul_hands_each_operand_the_other_value_times_the_gradient() {
    let arith = floats();
    let mut ids = IdGenerator::new();
    let graph = GraphBuilder::new();
    let a = graph.create_input(&mut ids);
    let b = graph.create_input(&mut ids);
    let out = a.builder.mul(&b.builder, &mut ids);
    let mut g = freeze(vec![&out]);
    g.set_input(a.id, 3.);
    g.set_input(b.id, -4.);
    g.evaluate(&vec![out.root], &arith);
    assert_eq!(g.backwards(vec![(out.root, 0.5)], &arith), Ok(()));
    assert_eq!(gradients(&g), vec![-2., 1.5, 0.5]);
}

#[test]
fn a_node_multiplied_by_itself_gets_both_shares() {
    let arith = floats();
    let mut ids = IdGenerator::new();
    let graph = GraphBuilder::new();
    let a = graph.create_input(&mut ids);
    let out = a.builder.mul(&a.builder, &mut ids);
    let mut g = freeze(vec![&out]);
    g.set_input(a.id, 3.);
    assert_eq!(g.evaluate(&vec![out.root], &arith), vec![9.]);
    assert_eq!(g.backwards(vec![(out.root, 1.)], &arith), Ok(()));
    assert_eq!(gradients(&g), vec![6., 1.]);
}

#[test]
fn relu_passes_the_gradient_only_where_its_operand_is_positive() {
    let arith = floats();
    let mut ids = IdGenerator::new();
    let graph = GraphBuilder::new();
    let x = graph.create_input(&mut ids);
    let out = x.builder.relu(&mut ids, &arith);
    let mut g = freeze(vec![&out]);

    g.set_input(x.id, 5.);
    g.evaluate(&vec![out.root], &arith);
    assert_eq!(g.backwards(vec![(out.root, 3.)], &arith), Ok(()));
    assert_eq!(gradients(&g), vec![3., 0., 3.]);

    g.zero_grads(&arith);
    g.set_input(x.id, -5.);
    g.evaluate(&vec![out.root], &arith);
    assert_eq!(g.backwards(vec![(out.root, 3.)], &arith), Ok(()));
    assert_eq!(gradients(&g), vec![0., 0., 3.]);

    g.zero_grads(&arith);
    g.set_input(x.id, 0.);
    g.evaluate(&vec![out.root], &arith);
    assert_eq!(g.backwards(vec![(out.root, 3.)], &arith), Ok(()));
    assert_eq!(gradients(&g), vec![0., 0., 3.]);
}

#[test]
fn gradients_of_sum_times_two_rectified() {
    let arith = floats();
    let mut ids = IdGenerator::new();
    let graph = GraphBuilder::new();
    let a = graph.create_input(&mut ids);
    let b = graph.create_input(&mut ids);
    let c = GraphBuilder::with_scalar(Operation::Mul, &a.builder.add(&b.builder, &mut ids), 2., &mut ids);
    let c = c.relu(&mut ids, &arith);
    let mut g = freeze(vec![&c]);
    g.set_input(a.id, 1.);
    g.set_input(b.id, 2.);
    assert_eq!(g.evaluate(&vec![c.root], &arith), vec![6.]);
    assert_eq!(g.backwards(vec![(c.root, 1.)], &arith), Ok(()));
    assert_eq!(gradients(&g), vec![2., 2., 2., 3., 1., 0., 1.]);
}

#[test]
fn shared_input_sums_the_shares_of_both_outputs() {
    let arith = floats();
    let mut ids = IdGenerator::new();
    let graph = GraphBuilder::new();
    let x = graph.create_input(&mut ids);
    let first = GraphBuilder::with_scalar(Operation::Mul, &x.builder, 3., &mut ids);
    let second = GraphBuilder::with_scalar(Operation::Mul, &x.builder, 5., &mut ids);
    let mut g = freeze(vec![&first, &second]);
    g.set_input(x.id, 2.);
    assert_eq!(g.evaluate(&vec![first.root, second.root], &arith), vec![6., 10.]);

    assert_eq!(g.backwards(vec![(first.root, 1.)], &arith), Ok(()));
    let from_first = g.grad_for_id(x.id);
    assert_eq!(from_first, 3.);

    g.zero_grads(&arith);
    assert_eq!(g.backwards(vec![(second.root, 2.)], &arith), Ok(()));
    let from_second = g.grad_for_id(x.id);
    assert_eq!(from_second, 10.);

    g.zero_grads(&arith);
    assert_eq!(g.backwards(vec![(first.root, 1.), (second.root, 2.)], &arith), Ok(()));
    assert_eq!(g.grad_for_id(x.id), from_first + from_second);
    assert_eq!(g.grad_for_id(x.id), 13.);
}

#[test]
fn two_seeds_for_one_node_are_both_added() {
    let arith = floats();
    let mut ids = IdGenerator::new();
    let graph = GraphBuilder::new();
    let a = graph.create_input(&mut ids);
    let b = graph.create_input(&mut ids);
    let out = a.builder.add(&b.builder, &mut ids);
    let mut g = freeze(vec![&out]);
    g.evaluate(&vec![out.root], &arith);
    assert_eq!(g.backwards(vec![(out.root, 1.), (out.root, 0.25)], &arith), Ok(()));
    assert_eq!(gradients(&g), vec![1.25, 1.25, 1.25]);
}

#[test]
fn gradients_pile_up_until_they_are_reset() {
    let arith = floats();
    let mut ids = IdGenerator::new();
    let graph = GraphBuilder::new();
    let a = graph.create_input(&mut ids);
    let out = GraphBuilder::with_scalar(Operation::Mul, &a.builder, 4., &mut ids);
    let mut g = freeze(vec![&out]);
    g.set_input(a.id, 1.);
    g.evaluate(&vec![out.root], &arith);
    assert_eq!(g.backwards(vec![(out.root, 1.)], &arith), Ok(()));
    assert_eq!(gradients(&g), vec![4., 1., 1.]);
    assert_eq!(g.backwards(vec![(out.root, 1.)], &arith), Ok(()));
    assert_eq!(gradients(&g), vec![12., 3., 2.]);
    g.zero_grads(&arith);
    assert_eq!(gradients(&g), vec![0., 0., 0.]);
    assert_eq!(g.value_for_id(out.root), 4.);
}

#[test]
fn zero_grads_resets_nodes_that_backward_never_touched() {
    let arith = floats();
    let mut ids = IdGenerator::new();
    let graph = GraphBuilder::new();
    let a = graph.create_input(&mut ids);
    let b = graph.create_input(&mut ids);
    let first = a.builder.relu(&mut ids, &arith);
    let second = GraphBuilder::with_scalar(Operation::Mul, &b.builder, 2., &mut ids);
    let mut g = freeze(vec![&first, &second]);
    for slot in g.data.iter_mut() {
        slot.gradient = 7.;
    }
    g.set_input(a.id, 1.);
    g.set_input(b.id, 1.);
    g.evaluate(&vec![first.root, second.root], &arith);
    assert_eq!(g.backwards(vec![(first.root, 1.)], &arith), Ok(()));
    g.zero_grads(&arith);
    for i in 0..g.len() {
        assert_eq!(g.grad_for_id(NodeId(i)), 0.0);
    }
    assert_eq!(g.value_for_id(a.id), 1.);
    assert_eq!(g.value_for_id(second.root), 2.);
}

#[test]
fn backward_refuses_sub_div_and_pow() {
    let arith = floats();
    for operation in [Operation::Sub, Operation::Div, Operation::Pow] {
        let mut ids = IdGenerator::new();
        let graph = GraphBuilder::new();
        let a = graph.create_input(&mut ids);
        let b = graph.create_input(&mut ids);
        let inner = GraphBuilder::combine(operation, &a.builder, &b.builder, &mut ids);
        let out = GraphBuilder::with_scalar(Operation::Mul, &inner, 2., &mut ids);
        let mut g = freeze(vec![&out]);
        assert_eq!(g.blocked, Some(UnsupportedOperation { id: inner.root, operation }));
        g.set_input(a.id, 3.);
        g.set_input(b.id, 2.);
        g.evaluate(&vec![out.root], &arith);
        let refused = g.backwards(vec![(out.root, 1.)], &arith);
        assert_eq!(refused, Err(UnsupportedOperation { id: NodeId(2), operation }));
        assert_eq!(gradients(&g), vec![0.; 5]);
    }
}

#[test]
fn backward_names_the_last_unsupported_node() {
    let arith = floats();
    let mut ids = IdGenerator::new();
    let graph = GraphBuilder::new();
    let a = graph.create_input(&mut ids);
    let b = graph.create_input(&mut ids);
    let low = a.builder.sub(&b.builder, &mut ids);
    let high = low.div(&b.builder, &mut ids);
    let out = high.add(&a.builder, &mut ids);
    let mut g = freeze(vec![&out]);
    assert_eq!(
        g.backwards(vec![], &arith),
        Err(UnsupportedOperation { id: high.root, operation: Operation::Div })
    );
}

fn output_at(g: &mut RunnableGraph<f64>, out: NodeId, slot: usize, value: f64) -> f64 {
    let kept = g.data[slot].value;
    g.data[slot].value = value;
    let result = g.evaluate(&vec![out], &floats())[0];
    g.data[slot].value = kept;
    result
}

#[test]
fn gradients_match_centred_finite_differences() {
    let arith = floats();
    let mut ids = IdGenerator::new();
    let graph = GraphBuilder::new();
    let x = graph.create_input(&mut ids);
    let y = graph.create_input(&mut ids);
    let wx = GraphBuilder::with_immediate(Operation::Mul, 0.75, &x.builder, &mut ids);
    let wy = GraphBuilder::with_immediate(Operation::Mul, -1.25, &y.builder, &mut ids);
    let hidden = GraphBuilder::with_immediate(Operation::Add, 0.5, &wx.add(&wy, &mut ids), &mut ids)
        .relu(&mut ids, &arith);
    let mixed = hidden.mul(&x.builder, &mut ids).add(&hidden, &mut ids);
    let out = GraphBuilder::with_immediate(Operation::Mul, 1.5, &mixed, &mut ids).add(&y.builder.mul(&y.builder, &mut ids), &mut ids);
    let mut g = freeze(vec![&out]);

    for (at_x, at_y) in [(2.0, 0.5), (-1.0, -2.0), (0.3, 1.7), (-0.4, 0.9)] {
        g.set_input(x.id, at_x);
        g.set_input(y.id, at_y);
        g.evaluate(&vec![out.root], &arith);
        g.zero_grads(&arith);
        assert_eq!(g.backwards(vec![(out.root, 1.)], &arith), Ok(()));
        for slot in 0..g.len() {
            let relu_zero = matches!(g.node(NodeId(slot)), Node::Immediate(v) if v == 0.0);
            if matches!(g.node(NodeId(slot)), Node::Operation(_)) || relu_zero {
                continue;
            }
            let analytic = g.grad_for_id(NodeId(slot));
            let here = g.value_for_id(NodeId(slot));
            for step in [1e-5, 3e-6] {
                let above = output_at(&mut g, out.root, slot, here + step);
                let below = output_at(&mut g, out.root, slot, here - step);
                let estimate = (above - below) / (2. * step);
                assert!(
                    (analytic - estimate).abs() < 1e-4,
                    "slot {slot} at ({at_x}, {at_y}): {analytic} against {estimate}"
                );
            }
        }
        g.evaluate(&vec![out.root], &arith);
    }
}

type Whole = Arithmetic<i64, fn(Operation, i64, i64) -> i64, fn(i64) -> bool, fn(i64) -> i64, fn(u64) -> i64>;

fn whole_binary(op: Operation, l: i64, r: i64) -> i64 {
    match op {
        Operation::Add => l + r,
        Operation::Sub => l - r,
        Operation::Mul => l * r,
        Operation::Div => l / r,
        Operation::Pow => l.pow(r as u32),
        Operation::Relu => unreachable!(),
    }
}

fn whole_positive(v: i64) -> bool {
    v > 0
}

fn whole_root(v: i64) -> i64 {
    (v as f64).sqrt() as i64
}

fn whole_number(n: u64) -> i64 {
    n as i64
}

fn wholes() -> Whole {
    Arithmetic::new(
        0,
        whole_binary as fn(Operation, i64, i64) -> i64,
        whole_positive as fn(i64) -> bool,
        whole_root as fn(i64) -> i64,
        whole_number as fn(u64) -> i64,
    )
}

#[test]
fn gradients_are_derivatives_in_whole_numbers() {
    let arith = wholes();
    let mut ids = IdGenerator::new();
    let graph: GraphBuilder<i64> = GraphBuilder::new();
    let x = graph.create_input(&mut ids);
    let y = graph.create_input(&mut ids);
    let xy = x.builder.mul(&y.builder, &mut ids);
    let twice = GraphBuilder::with_immediate(Operation::Mul, 2, &x.builder, &mut ids);
    let inner = xy.add(&twice, &mut ids).relu(&mut ids, &arith);
    let shifted = GraphBuilder::with_scalar(Operation::Add, &y.builder, 3, &mut ids);
    let out = inner.mul(&shifted, &mut ids);
    let mut g = RunnableGraph::new(vec![&out], &arith).unwrap();

    g.set_input(x.id, 2);
    g.set_input(y.id, 5);
    assert_eq!(g.evaluate(&vec![out.root], &arith), vec![112]);
    assert_eq!(g.backwards(vec![(out.root, 1)], &arith), Ok(()));
    assert_eq!(g.grad_for_id(x.id), (5 + 2) * (5 + 3));
    assert_eq!(g.grad_for_id(y.id), 2 * (5 + 3) + (2 * 5 + 2 * 2));
    assert_eq!(g.grad_for_id(NodeId(3)), 2 * (5 + 3));
    assert_eq!(g.grad_for_id(NodeId(8)), 14);

    g.zero_grads(&arith);
    g.set_input(x.id, -2);
    assert_eq!(g.evaluate(&vec![out.root], &arith), vec![0]);
    assert_eq!(g.backwards(vec![(out.root, 7)], &arith), Ok(()));
    assert_eq!(g.grad_for_id(x.id), 0);
    assert_eq!(g.grad_for_id(y.id), 0);

    g.zero_grads(&arith);
    g.set_input(x.id, 2);
    g.evaluate(&vec![out.root], &arith);
    assert_eq!(g.backwards(vec![(out.root, 3)], &arith), Ok(()));
    assert_eq!(g.grad_for_id(x.id), 3 * 56);
    assert_eq!(g.grad_for_id(y.id), 3 * 30);
}

#[test]
fn update_adds_the_share_of_one_operation() {
    let arith = floats();
    let mut ids = IdGenerator::new();
    let graph = GraphBuilder::new();
    let x = graph.create_input(&mut ids);
    let out = x.builder.relu(&mut ids, &arith);
    let mut g = freeze(vec![&out]);

    g.update(x.id, Operation::Add, 10., 2., 3., &arith);
    assert_eq!(gradients(&g), vec![2., 0., 0.]);
    g.update(x.id, Operation::Mul, 10., 2., 3., &arith);
    assert_eq!(gradients(&g), vec![8., 0., 0.]);
    g.update(x.id, Operation::Relu, 10., 2., 3., &arith);
    assert_eq!(gradients(&g), vec![10., 0., 0.]);
    g.update(x.id, Operation::Relu, -10., 2., 3., &arith);
    assert_eq!(gradients(&g), vec![10., 0., 0.]);
    g.update(NodeId(1), Operation::Mul, 0., -1., 0.5, &arith);
    assert_eq!(gradients(&g), vec![10., -0.5, 0.]);
    assert_eq!(g.value_for_id(x.id), 0.);
}
