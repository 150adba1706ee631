use micrograd_rs::node::Operation;
use micrograd_rs::scalar::Arithmetic;
use micrograd_rs::util::Util;

type Binary = fn(Operation, f64, f64) -> f64;
type Floats = Arithmetic<f64, Binary, fn(f64) -> bool, fn(f64) -> f64, fn(u64) -> f64>;

fn binary(op: Operation, l: f64, r: f64) -> f64 {
    match op {
        Operation::Add => l + r,
        Operation::Sub => l - r,
        Operation::Mul => l * r,
        Operation::Div => l / r,
        Operation::Pow => num::traits::Pow::pow(l, r),
        Operation::Relu => unreachable!(),
    }
}

fn positive(v: f64) -> bool {
    v > 0.0
}

fn root(v: f64) -> f64 {
    v.sqrt()
}

fn number(n: u64) -> f64 {
    n as f64
}

fn floats() -> Floats {
    Arithmetic::new(0.0, binary as Binary, positive as fn(f64) -> bool, root as fn(f64) -> f64, number as fn(u64) -> f64)
}

#[test]
fn argmax_finds_the_greatest_score() {
    let arith = floats();
    assert_eq!(Util::argmax(&[0.5], &arith), 0);
    assert_eq!(Util::argmax(&[0.1, 0.7, 0.2], &arith), 1);
    assert_eq!(Util::argmax(&[3., 2., 1.], &arith), 0);
    assert_eq!(Util::argmax(&[-3., -2., -1.], &arith), 2);
    assert_eq!(Util::argmax(&[0., 1.], &arith), 1);
    assert_eq!(Util::argmax(&[1., 0.], &arith), 0);
    assert_eq!(Util::argmax(&[1., f64::INFINITY, 2.], &arith), 1);
    assert_eq!(Util::argmax(&[f64::NEG_INFINITY, -1e300], &arith), 1);
}

#[test]
fn argmax_takes_the_last_of_equal_scores() {
    let arith = floats();
    assert_eq!(Util::argmax(&[2., 5., 5., 1.], &arith), 2);
    assert_eq!(Util::argmax(&[1., 1., 1.], &arith), 2);
    assert_eq!(Util::argmax(&[f64::INFINITY, f64::INFINITY], &arith), 1);
}

#[test]
fn mean_is_carried_from_entry_to_entry() {
    let arith = floats();
    assert_eq!(Util::mean(&[], &arith), 0.);
    assert_eq!(Util::mean(&[7.5], &arith), 7.5);
    assert_eq!(Util::mean(&[1., 2., 3., 4.], &arith), 2.5);
    assert_eq!(Util::mean(&[1., 0., 1., 1.], &arith), 0.75);
    assert_eq!(Util::mean(&[0.1, 0.2], &arith), (0.2 + 0.1 * 1.) / 2.);
}
