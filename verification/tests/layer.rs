use dualnet::dual_number::DualNumber;
use dualnet::feed_forward::{calc_hadamard, Activation, ErrorFunction, FeedForward, LayerError};
use dualnet::rational::Rational;

fn r(n: i64, d: i64) -> Rational {
    Rational::new(n, d).unwrap()
}

fn rvec(parts: &[(i64, i64)]) -> Vec<Rational> {
    parts.iter().map(|&(n, d)| r(n, d)).collect()
}

fn dvec(values: &[(i64, i64)]) -> Vec<DualNumber> {
    values.iter().map(|&(n, d)| DualNumber::new(r(n, d))).collect()
}

fn dual(v: Rational, t: Rational) -> DualNumber {
    DualNumber { value: v, tangent: t }
}

#[test]
fn identity_layer_reproduces_a_linear_transform() {
    // weights [[1,0],[0,1]], zero bias, identity activation: [3,5] -> [3,5]
    let layer = FeedForward::new(
        rvec(&[(1, 1), (0, 1), (0, 1), (1, 1)]),
        2,
        rvec(&[(0, 1), (0, 1)]),
        Activation::Identity,
    )
    .unwrap();
    let out = layer.outputs(&dvec(&[(3, 1), (5, 1)])).unwrap();
    assert_eq!(out.len(), 2);
    assert_eq!(out[0].value, r(3, 1));
    assert_eq!(out[1].value, r(5, 1));
}

#[test]
fn new_rejects_bad_shapes() {
    // five weights cannot chunk into rows of two
    let res = FeedForward::new(rvec(&[(1, 1); 5]), 2, rvec(&[(0, 1); 2]), Activation::Identity);
    assert_eq!(res.unwrap_err(), LayerError::ShapeMismatch);
    // bias length must be the row count
    let res = FeedForward::new(rvec(&[(1, 1); 4]), 2, rvec(&[(0, 1); 3]), Activation::Identity);
    assert_eq!(res.unwrap_err(), LayerError::ShapeMismatch);
    // zero row length
    let res = FeedForward::new(Vec::new(), 0, Vec::new(), Activation::Identity);
    assert_eq!(res.unwrap_err(), LayerError::ShapeMismatch);
}

#[test]
fn outputs_rejects_inputs_of_the_wrong_length() {
    let layer = FeedForward::new(
        rvec(&[(1, 1), (0, 1), (0, 1), (1, 1)]),
        2,
        rvec(&[(0, 1), (0, 1)]),
        Activation::Identity,
    )
    .unwrap();
    let res = layer.outputs(&dvec(&[(3, 1)]));
    assert_eq!(res.unwrap_err(), LayerError::ShapeMismatch);
}

#[test]
fn outputs_surfaces_overflow() {
    let layer = FeedForward::new(
        vec![Rational::from_int(i64::MAX).unwrap()],
        1,
        vec![Rational::zero()],
        Activation::Identity,
    )
    .unwrap();
    let res = layer.outputs(&dvec(&[(2, 1)]));
    assert_eq!(res.unwrap_err(), LayerError::Overflow);
}

#[test]
fn relu_activation_clamps_negative_weighted_inputs() {
    let layer = FeedForward::new(
        rvec(&[(1, 1)]),
        1,
        rvec(&[(-2, 1)]),
        Activation::ReluZero,
    )
    .unwrap();
    let inputs = vec![DualNumber::new(r(1, 1)).select()];
    let out = layer.outputs(&inputs).unwrap();
    assert_eq!(out[0].value, Rational::zero());
    assert_eq!(out[0].tangent, Rational::zero());
    // a positive weighted input passes through, tangent included
    let out2 = layer.outputs(&dvec(&[(5, 1)])).unwrap();
    assert_eq!(out2[0].value, r(3, 1));
}

#[test]
fn forward_pass_tangents_follow_the_chain_rule() {
    // one row, weights [2, 3], zero bias, identity; both inputs seeded:
    // z = 2*x0 + 3*x1, tangent 2+3.
    let layer = FeedForward::new(
        rvec(&[(2, 1), (3, 1)]),
        2,
        rvec(&[(0, 1)]),
        Activation::Identity,
    )
    .unwrap();
    let inputs: Vec<DualNumber> =
        dvec(&[(1, 1), (1, 1)]).iter().map(|d| d.select()).collect();
    let out = layer.outputs(&inputs).unwrap();
    assert_eq!(out[0].value, r(5, 1));
    assert_eq!(out[0].tangent, r(5, 1));
}

#[test]
fn transposed_weights_swaps_rows_and_columns() {
    let layer = FeedForward::new(
        rvec(&[(1, 1), (2, 1), (3, 1), (4, 1), (5, 1), (6, 1)]),
        3,
        rvec(&[(0, 1), (0, 1)]),
        Activation::Identity,
    )
    .unwrap();
    let t = layer.transposed_weights();
    assert_eq!(t, rvec(&[(1, 1), (4, 1), (2, 1), (5, 1), (3, 1), (6, 1)]));
}

#[test]
fn transposing_twice_returns_the_original_matrix() {
    let original = rvec(&[(1, 2), (2, 3), (3, 4), (4, 5), (5, 6), (6, 7)]);
    let layer = FeedForward::new(
        original.clone(),
        3,
        rvec(&[(0, 1), (0, 1)]),
        Activation::Identity,
    )
    .unwrap();
    let t = layer.transposed_weights();
    // the transposed matrix has row length 2 and three rows
    let layer_t = FeedForward::new(t, 2, rvec(&[(0, 1), (0, 1), (0, 1)]), Activation::Identity)
        .unwrap();
    let round_trip = layer_t.transposed_weights();
    assert_eq!(round_trip, original);
}

#[test]
fn error_at_output_is_the_gradient_times_the_activation_derivative() {
    let layer = FeedForward::new(
        rvec(&[(1, 1), (0, 1), (0, 1), (1, 1)]),
        2,
        rvec(&[(0, 1), (0, 1)]),
        Activation::Identity,
    )
    .unwrap();
    let outs = vec![dual(r(2, 1), r(1, 2)), dual(r(1, 1), r(1, 3))];
    let teachers = dvec(&[(1, 1), (3, 1)]);
    let deltas = layer
        .calc_error_output(&outs, &teachers, ErrorFunction::HalfSquared)
        .unwrap();
    // delta_j = (o_j - t_j) * tangent_j
    assert_eq!(deltas, vec![r(1, 2), r(-2, 3)]);
}

#[test]
fn error_at_output_rejects_mismatched_lengths() {
    let layer = FeedForward::new(
        rvec(&[(1, 1)]),
        1,
        rvec(&[(0, 1)]),
        Activation::Identity,
    )
    .unwrap();
    let outs = vec![dual(r(2, 1), r(1, 2))];
    let teachers = dvec(&[(1, 1), (3, 1)]);
    let res = layer.calc_error_output(&outs, &teachers, ErrorFunction::HalfSquared);
    assert_eq!(res.unwrap_err(), LayerError::ShapeMismatch);
}

#[test]
fn error_function_floor_shifts_the_value_not_the_gradient() {
    let o = dual(r(2, 1), Rational::one());
    let t = DualNumber::new(r(1, 1));
    let plain = ErrorFunction::HalfSquared.apply(o, t).unwrap();
    assert_eq!(plain.value, r(1, 2));
    assert_eq!(plain.tangent, r(1, 1));
    let floored = ErrorFunction::FlooredHalfSquared.apply(o, t).unwrap();
    assert_eq!(floored.value, r(101, 200));
    assert_eq!(floored.tangent, r(1, 1));
}

#[test]
fn error_at_hidden_weights_downstream_errors_through_the_transpose() {
    // downstream layer: weights [[1,2],[3,4],[5,6]], row length 2.
    let prev = FeedForward::new(
        rvec(&[(1, 1), (2, 1), (3, 1), (4, 1), (5, 1), (6, 1)]),
        2,
        rvec(&[(0, 1), (0, 1), (0, 1)]),
        Activation::Identity,
    )
    .unwrap();
    let hidden = FeedForward::new(
        rvec(&[(1, 1), (0, 1)]),
        2,
        rvec(&[(0, 1)]),
        Activation::Identity,
    )
    .unwrap();
    let outs = vec![dual(r(1, 1), r(1, 2)), dual(r(1, 1), r(1, 4))];
    let errs = rvec(&[(1, 1), (1, 2), (1, 3)]);
    let deltas = hidden.calc_error_hide(&outs, &prev, &errs).unwrap();
    // delta_0 = (1*1 + 3*(1/2) + 5*(1/3)) * 1/2 = 25/12
    // delta_1 = (2*1 + 4*(1/2) + 6*(1/3)) * 1/4 = 3/2
    assert_eq!(deltas, vec![r(25, 12), r(3, 2)]);
}

#[test]
fn error_at_hidden_with_zero_tangents_is_all_zero() {
    let prev = FeedForward::new(
        rvec(&[(7, 1), (8, 1), (9, 1), (10, 1)]),
        2,
        rvec(&[(0, 1), (0, 1)]),
        Activation::Identity,
    )
    .unwrap();
    let hidden = FeedForward::new(
        rvec(&[(1, 1), (0, 1)]),
        2,
        rvec(&[(0, 1)]),
        Activation::Identity,
    )
    .unwrap();
    let outs = vec![dual(r(4, 1), Rational::zero()), dual(r(9, 1), Rational::zero())];
    let errs = rvec(&[(123, 1), (-55, 7)]);
    let deltas = hidden.calc_error_hide(&outs, &prev, &errs).unwrap();
    assert_eq!(deltas, vec![Rational::zero(), Rational::zero()]);
}

#[test]
fn error_at_hidden_rejects_mismatched_shapes() {
    let prev = FeedForward::new(
        rvec(&[(1, 1), (2, 1)]),
        2,
        rvec(&[(0, 1)]),
        Activation::Identity,
    )
    .unwrap();
    let hidden = FeedForward::new(
        rvec(&[(1, 1), (0, 1)]),
        2,
        rvec(&[(0, 1)]),
        Activation::Identity,
    )
    .unwrap();
    let outs = vec![dual(r(1, 1), r(1, 2)), dual(r(1, 1), r(1, 4))];
    let errs = rvec(&[(1, 1), (1, 2)]);
    let res = hidden.calc_error_hide(&outs, &prev, &errs);
    assert_eq!(res.unwrap_err(), LayerError::ShapeMismatch);
}

#[test]
fn update_weights_nudges_every_weight_by_its_row_error() {
    let mut layer = FeedForward::new(
        rvec(&[(1, 1), (2, 1), (3, 1), (4, 1)]),
        2,
        rvec(&[(1, 1), (2, 1)]),
        Activation::Identity,
    )
    .unwrap();
    let errs = rvec(&[(1, 2), (1, 4)]);
    layer.update_weights(&errs, r(1, 2)).unwrap();
    assert_eq!(layer.weights(), rvec(&[(3, 4), (7, 4), (23, 8), (31, 8)]));
    layer.update_bias(&errs, r(1, 2)).unwrap();
    assert_eq!(layer.bias(), rvec(&[(3, 4), (15, 8)]));
}

#[test]
fn update_rejects_error_vectors_of_the_wrong_length() {
    let mut layer = FeedForward::new(
        rvec(&[(1, 1), (2, 1)]),
        2,
        rvec(&[(0, 1)]),
        Activation::Identity,
    )
    .unwrap();
    let errs = rvec(&[(1, 2), (1, 4)]);
    assert_eq!(layer.update_weights(&errs, r(1, 2)).unwrap_err(), LayerError::ShapeMismatch);
    assert_eq!(layer.update_bias(&errs, r(1, 2)).unwrap_err(), LayerError::ShapeMismatch);
}

#[test]
fn changing_one_weight_changes_only_its_rows_output() {
    // five inputs of one, three rows of weights 1/10 each, no bias.
    let weights = vec![r(1, 10); 15];
    let bias = vec![Rational::zero(); 3];
    let mut layer = FeedForward::new(weights, 5, bias, Activation::Identity).unwrap();
    let inputs = dvec(&[(1, 1); 5]);
    let before = layer.outputs(&inputs).unwrap();
    assert_eq!(before[0].value, r(1, 2));
    layer.set_weight(0, 0, r(1, 2)).unwrap();
    let after = layer.outputs(&inputs).unwrap();
    assert_eq!(after[0].value, r(9, 10));
    assert_eq!(after[1], before[1]);
    assert_eq!(after[2], before[2]);
}

#[test]
fn set_weight_rejects_coordinates_outside_the_matrix() {
    let mut layer = FeedForward::new(
        rvec(&[(1, 1), (2, 1)]),
        2,
        rvec(&[(0, 1)]),
        Activation::Identity,
    )
    .unwrap();
    assert_eq!(layer.set_weight(1, 0, r(1, 2)).unwrap_err(), LayerError::IndexOutOfRange);
    assert_eq!(layer.set_weight(0, 2, r(1, 2)).unwrap_err(), LayerError::IndexOutOfRange);
    // the matrix is unchanged
    assert_eq!(layer.weights(), rvec(&[(1, 1), (2, 1)]));
}

#[test]
fn hadamard_multiplies_elementwise_over_the_shorter_length() {
    let a = rvec(&[(2, 1), (3, 1), (4, 1)]);
    let b = rvec(&[(4, 1), (5, 1)]);
    assert_eq!(calc_hadamard(a, b).unwrap(), rvec(&[(8, 1), (15, 1)]));
}
