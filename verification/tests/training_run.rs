use dualnet::dual_number::DualNumber;
use dualnet::feed_forward::{Activation, ErrorFunction, FeedForward, LayerError};
use dualnet::rational::Rational;
use dualnet::training::train;

fn r(n: i64, d: i64) -> Rational {
    Rational::new(n, d).unwrap()
}

fn duals(values: &[(i64, i64)]) -> Vec<DualNumber> {
    values.iter().map(|&(n, d)| DualNumber::new(r(n, d))).collect()
}

fn two_layer_net() -> Vec<FeedForward> {
    // hidden: two inputs, two rectified nodes; output: two identity nodes.
    let hidden = FeedForward::new(
        vec![r(1, 4); 4],
        2,
        vec![r(1, 2); 2],
        Activation::ReluZero,
    )
    .unwrap();
    let output = FeedForward::new(
        vec![r(1, 2); 4],
        2,
        vec![r(1, 4); 2],
        Activation::Identity,
    )
    .unwrap();
    vec![hidden, output]
}

#[test]
fn training_reaches_the_threshold_with_non_increasing_loss() {
    let inputs = duals(&[(1, 1), (2, 1)]);
    let teachers = duals(&[(1, 1), (2, 1)]);

    // one iteration only: the loss before any update
    let (_, first) = train(
        two_layer_net(),
        &inputs,
        &teachers,
        ErrorFunction::HalfSquared,
        r(1, 2),
        r(1, 100),
        1,
    )
    .unwrap();
    assert!(!first.converged);
    assert_eq!(first.iterations, 1);
    assert_eq!(first.loss, r(1, 4));

    // the full run converges on the second iteration with a smaller loss
    let (_, report) = train(
        two_layer_net(),
        &inputs,
        &teachers,
        ErrorFunction::HalfSquared,
        r(1, 2),
        r(1, 100),
        25,
    )
    .unwrap();
    assert!(report.converged);
    assert_eq!(report.iterations, 2);
    assert_eq!(report.loss, r(1, 256));
    assert!(report.loss.lt(first.loss));
    assert!(report.loss.lt(r(1, 100)));
}

#[test]
fn training_stops_exhausted_at_the_iteration_cap() {
    let inputs = duals(&[(1, 1), (2, 1)]);
    let teachers = duals(&[(1, 1), (2, 1)]);
    let (_, report) = train(
        two_layer_net(),
        &inputs,
        &teachers,
        ErrorFunction::HalfSquared,
        r(1, 2),
        r(1, 1000000),
        1,
    )
    .unwrap();
    assert!(!report.converged);
    assert_eq!(report.iterations, 1);
    assert_eq!(report.loss, r(1, 4));
}

#[test]
fn converged_training_leaves_the_layers_untouched() {
    // a network that is already perfect: identity layer, inputs == teachers
    let layer = FeedForward::new(
        vec![r(1, 1), r(0, 1), r(0, 1), r(1, 1)],
        2,
        vec![Rational::zero(); 2],
        Activation::Identity,
    )
    .unwrap();
    let inputs = duals(&[(3, 1), (5, 1)]);
    let teachers = duals(&[(3, 1), (5, 1)]);
    let (layers, report) = train(
        vec![layer],
        &inputs,
        &teachers,
        ErrorFunction::HalfSquared,
        r(1, 2),
        r(1, 100),
        10,
    )
    .unwrap();
    assert!(report.converged);
    assert_eq!(report.iterations, 1);
    assert_eq!(report.loss, Rational::zero());
    assert_eq!(layers[0].weights(), vec![r(1, 1), r(0, 1), r(0, 1), r(1, 1)]);
}

#[test]
fn training_surfaces_overflow() {
    let layer = FeedForward::new(
        vec![Rational::from_int(i64::MAX).unwrap()],
        1,
        vec![Rational::zero()],
        Activation::Identity,
    )
    .unwrap();
    let inputs = duals(&[(3, 1)]);
    let teachers = duals(&[(0, 1)]);
    let res = train(
        vec![layer],
        &inputs,
        &teachers,
        ErrorFunction::HalfSquared,
        r(1, 2),
        r(1, 100),
        5,
    );
    assert_eq!(res.unwrap_err(), LayerError::Overflow);
}

#[test]
fn floored_error_function_keeps_the_loss_above_the_floor() {
    // a perfect identity network still reports the floor in its loss
    let layer = FeedForward::new(
        vec![r(1, 1)],
        1,
        vec![Rational::zero()],
        Activation::Identity,
    )
    .unwrap();
    let inputs = duals(&[(3, 1)]);
    let teachers = duals(&[(3, 1)]);
    let (_, report) = train(
        vec![layer],
        &inputs,
        &teachers,
        ErrorFunction::FlooredHalfSquared,
        r(1, 2),
        r(1, 300),
        1,
    )
    .unwrap();
    // loss = (0 + 1/100) * 1/2
    assert_eq!(report.loss, r(1, 200));
    assert!(!report.converged);
}
