use micrograd_rs::nn::{MultiLayerPerceptron, Neuron};
use micrograd_rs::builder::GraphBuilder;
use micrograd_rs::graph::RunnableGraph;
use micrograd_rs::node::{IdGenerator, Node, NodeId, Operation};
use micrograd_rs::optimiser::{AdamOptimiser, LearningRateOptimiser};
use micrograd_rs::scalar::Arithmetic;
use micrograd_rs::util::Util;
use rand::rngs::StdRng;
use rand::seq::SliceRandom;
use rand::{Rng, SeedableRng};

type Binary = fn(Operation, f64, f64) -> f64;
type Floats = Arithmetic<f64, Binary, fn(f64) -> bool, fn(f64) -> f64, fn(u64) -> f64>;

fn binary(op: Operation, l: f64, r: f64) -> f64 {
    match op {
        Operation::Add => l + r,
        Operation::Sub => l - r,
        Operation::Mul => l * r,
        Operation::Div => l / r,
        Operation::Pow => num::traits::Pow::pow(l, r),
        Operation::Relu => unreachable!(),
    }
}

fn positive(v: f64) -> bool {
    v > 0.0
}

fn root(v: f64) -> f64 {
    v.sqrt()
}

fn number(n: u64) -> f64 {
    n as f64
}

fn floats() -> Floats {
    Arithmetic::new(0.0, binary as Binary, positive as fn(f64) -> bool, root as fn(f64) -> f64, number as fn(u64) -> f64)
}

#[test]
fn test_mlp_xor() {
    let arith = floats();
    let xy = &vec![
        (vec![1., 0.], vec![0., 1.]),
        (vec![0., 1.], vec![0., 1.]),
        (vec![1., 1.], vec![1., 0.]),
        (vec![0., 0.], vec![1., 0.]),
    ];

    let mut rng = StdRng::seed_from_u64(1);
    let sizes = Vec::from([xy[0].0.len(), 2, xy[0].1.len()]);
    let count = MultiLayerPerceptron::<f64>::parameters_needed(&sizes).unwrap();
    let weights: Vec<f64> = (0..count).map(|_| rng.gen_range(-1.0..1.)).collect();
    let mut mlp = MultiLayerPerceptron::new(sizes, weights, &arith);

    let optimiser = &mut LearningRateOptimiser::new(0.1);

    let epochs = 1000;
    for i in 0..epochs {
        let mut xy = xy.clone();
        xy.shuffle(&mut rng);

        let (acc, loss): (Vec<f64>, Vec<f64>) = xy
            .iter()
            .map(|(x, y)| {
                let y_preds = mlp.forward(x, &arith);

                let loss = y
                    .iter()
                    .zip(y_preds.iter())
                    .map(|(y, y_pred)| (y_pred - y).powf(2.))
                    .sum::<f64>();

                let grads: Vec<f64> = y
                    .iter()
                    .zip(y_preds.iter())
                    .map(|(y, y_pred)| (y_pred - y))
                    .collect();

                mlp.zero_grads(&arith);
                mlp.backward(grads, &arith);
                mlp.update_weights(optimiser, &arith);

                let acc = if Util::argmax(&y_preds, &arith) == Util::argmax(&y, &arith) {
                    1.0
                } else {
                    0.0
                };

                (acc, loss)
            })
            .unzip();

        if i % 100 == 0 {
            println!(
                "Epoch {i} - Acc={:?}, Loss={:?}",
                Util::mean(&acc, &arith),
                Util::mean(&loss, &arith)
            );
        }
    }

    let acc: Vec<f64> = xy
        .iter()
        .map(|(x, y)| {
            let y_preds = mlp.forward(x, &arith);
            let acc = if Util::argmax(&y_preds, &arith) == Util::argmax(&y, &arith) {
                1.0
            } else {
                0.0
            };

            acc
        })
        .collect();
    let acc = Util::mean(&acc, &arith);

    assert_eq!(acc, 1.0)
}

#[test]
fn parameters_needed_counts_weights_and_biases() {
    assert_eq!(MultiLayerPerceptron::<f64>::parameters_needed(&vec![64, 10]), Some(650));
    assert_eq!(MultiLayerPerceptron::<f64>::parameters_needed(&vec![2, 2, 2]), Some(12));
    assert_eq!(MultiLayerPerceptron::<f64>::parameters_needed(&vec![3]), Some(0));
    assert_eq!(MultiLayerPerceptron::<f64>::parameters_needed(&vec![]), None);
    assert_eq!(MultiLayerPerceptron::<f64>::parameters_needed(&vec![0, 2]), None);
    assert_eq!(MultiLayerPerceptron::<f64>::parameters_needed(&vec![2, 0, 1]), None);
    assert_eq!(MultiLayerPerceptron::<f64>::parameters_needed(&vec![usize::MAX, 2]), None);
    assert_eq!(MultiLayerPerceptron::<f64>::parameters_needed(&vec![usize::MAX / 4, 4]), None);
}

#[test]
fn neuron_is_bias_plus_weighted_sum() {
    let arith = floats();
    let mut ids = IdGenerator::new();
    let graph = GraphBuilder::new();
    let x = graph.create_input(&mut ids);
    let y = graph.create_input(&mut ids);
    let inputs = vec![x.builder, y.builder];
    let neuron = Neuron::new(&inputs, &[0.5, -2.], 0.25, false, &mut ids, &arith);
    assert_eq!(ids.peek(), 9);
    assert_eq!(neuron.op.root, NodeId(8));
    assert!(matches!(neuron.op.get(NodeId(2)), Some(Node::Immediate(v)) if v == 0.5));
    assert!(matches!(neuron.op.get(NodeId(4)), Some(Node::Immediate(v)) if v == -2.));
    assert!(matches!(neuron.op.get(NodeId(7)), Some(Node::Immediate(v)) if v == 0.25));
    let mut g = RunnableGraph::new(vec![&neuron.op], &arith).unwrap();
    g.set_input(x.id, 3.);
    g.set_input(y.id, 4.);
    assert_eq!(g.evaluate(&vec![neuron.op.root], &arith), vec![0.25 + (1.5 - 8.)]);

    let rectified = Neuron::new(&inputs, &[0.5, -2.], 0.25, true, &mut ids, &arith);
    assert_eq!(ids.peek(), 18);
    assert_eq!(rectified.op.root, NodeId(17));
    let mut g = RunnableGraph::new(vec![&neuron.op, &rectified.op], &arith).unwrap();
    g.set_input(x.id, 3.);
    g.set_input(y.id, 4.);
    assert_eq!(g.evaluate(&vec![rectified.op.root], &arith), vec![0.]);
    g.set_input(y.id, -4.);
    assert_eq!(g.evaluate(&vec![rectified.op.root], &arith), vec![0.25 + (1.5 + 8.)]);
}

#[test]
fn perceptron_without_hidden_layer_is_one_neuron_per_output() {
    let arith = floats();
    let mut mlp = MultiLayerPerceptron::new(vec![2, 2], vec![1., 2., 0.5, -1., 3., 0.25], &arith);
    assert_eq!(mlp.inputs, vec![NodeId(0), NodeId(1)]);
    assert_eq!(mlp.outputs.len(), 2);
    assert_eq!(mlp.outputs, mlp.graph.outputs);
    assert_eq!(mlp.num_parameters(), 2 + 2 * 7);
    assert_eq!(mlp.graph.len(), 16);
    assert!(mlp.graph.blocked.is_none());
    let out = mlp.forward(&vec![10., 100.], &arith);
    assert_eq!(out, vec![0.5 + (10. + 200.), 0.25 + (-10. + 300.)]);
    let again = mlp.forward(&vec![10., 100.], &arith);
    assert_eq!(again, out);
}

#[test]
fn perceptron_rectifies_its_hidden_layer_only() {
    let arith = floats();
    let mut mlp = MultiLayerPerceptron::new(vec![1, 2, 1], vec![1., 0., -1., 0., 1., 1., -10.], &arith);
    assert_eq!(MultiLayerPerceptron::<f64>::parameters_needed(&vec![1, 2, 1]), Some(7));
    assert_eq!(mlp.graph.len(), 1 + 2 * 6 + 7);
    assert_eq!(mlp.forward(&vec![3.], &arith), vec![-7.]);
    assert_eq!(mlp.forward(&vec![-3.], &arith), vec![-7.]);
    assert_eq!(mlp.forward(&vec![0.], &arith), vec![-10.]);
}

#[test]
fn perceptron_of_inputs_only_hands_them_back() {
    let arith = floats();
    let mut mlp = MultiLayerPerceptron::new(vec![3], vec![], &arith);
    assert_eq!(mlp.inputs, mlp.outputs);
    assert_eq!(mlp.forward(&vec![1., 2., 3.], &arith), vec![1., 2., 3.]);
}

#[test]
fn perceptron_backward_seeds_its_outputs_in_order() {
    let arith = floats();
    let mut mlp = MultiLayerPerceptron::new(vec![1, 2], vec![2., 0., 3., 0.], &arith);
    assert_eq!(mlp.forward(&vec![1.], &arith), vec![2., 3.]);
    mlp.zero_grads(&arith);
    mlp.backward(vec![1., 10.], &arith);
    assert_eq!(mlp.graph.grad_for_id(mlp.outputs[0]), 1.);
    assert_eq!(mlp.graph.grad_for_id(mlp.outputs[1]), 10.);
    assert_eq!(mlp.graph.grad_for_id(NodeId(0)), 2. + 30.);

    mlp.zero_grads(&arith);
    mlp.backward(vec![1.], &arith);
    assert_eq!(mlp.graph.grad_for_id(mlp.outputs[0]), 1.);
    assert_eq!(mlp.graph.grad_for_id(mlp.outputs[1]), 0.);
    assert_eq!(mlp.graph.grad_for_id(NodeId(0)), 2.);
}

#[test]
fn perceptron_learns_a_line_with_gradient_descent() {
    let arith = floats();
    let mut mlp = MultiLayerPerceptron::new(vec![1, 1], vec![0., 0.], &arith);
    let mut optimiser = LearningRateOptimiser::new(0.05);
    for _ in 0..2000 {
        for x in [-1., 0., 1., 2.] {
            let predicted = mlp.forward(&vec![x], &arith)[0];
            mlp.zero_grads(&arith);
            mlp.backward(vec![predicted - (3. * x + 1.)], &arith);
            mlp.update_weights(&mut optimiser, &arith);
        }
    }
    let at_five = mlp.forward(&vec![5.], &arith)[0];
    assert!((at_five - 16.).abs() < 1e-3, "{at_five}");
}

#[test]
fn perceptron_steps_with_adam() {
    let arith = floats();
    let mut mlp = MultiLayerPerceptron::new(vec![1, 1], vec![1., 0.], &arith);
    let mut optimiser = AdamOptimiser::new(mlp.num_parameters(), &arith);
    let before = mlp.forward(&vec![1.], &arith)[0];
    mlp.zero_grads(&arith);
    mlp.backward(vec![1.], &arith);
    mlp.update_weights(&mut optimiser, &arith);
    let after = mlp.forward(&vec![1.], &arith)[0];
    assert_eq!(before, 1.);
    assert!(after < before);
    assert!((before - after - 0.002).abs() < 1e-6, "{after}");
}
