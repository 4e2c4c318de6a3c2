//! A fully connected layer over exact rational dual numbers.
//!
//! A layer owns a flattened row-major weight matrix (`row` many chunks of
//! `len_row` weights), a bias vector with one entry per row, and an
//! activation function.  The forward pass, the backward error signals and
//! the gradient-style updates are all specified exactly over the layer's
//! mathematical view; shape violations and unrepresentable results surface
//! as explicit errors, never as panics.

use vstd::prelude::*;

verus! {

use vstd::arithmetic::div_mod::{
    lemma_fundamental_div_mod,
    lemma_fundamental_div_mod_converse,
    lemma_mod_multiples_basic,
};
use vstd::arithmetic::mul::{
    lemma_mul_inequality,
    lemma_mul_is_distributive_sub_other_way,
    lemma_mul_is_commutative,
};
use crate::rational::{
    Ratv, Rational, rat_zero, ratv_wf, spec_rat_add, spec_rat_mul, spec_rat_sub,
};
use crate::dual_number::{
    DualV, DualNumber, dual_zero, spec_dual_new, spec_dual_add, spec_dual_mul, spec_dual_sub,
    spec_dual_max, spec_dual_select,
};

/// The activation functions a layer can apply.
#[derive(Clone, Copy, Debug, PartialEq, Eq, Structural)]
pub enum Activation {
    /// The identity map.
    Identity,
    /// Rectifier: the maximum of the argument and zero.
    ReluZero,
}

/// The error function used against teacher values.
#[derive(Clone, Copy, Debug, PartialEq, Eq, Structural)]
pub enum ErrorFunction {
    /// Half the squared difference.
    HalfSquared,
    /// Half the squared difference with a small additive floor of one
    /// hundredth, so a reached target does not mask the gradient direction.
    FlooredHalfSquared,
}

/// The failure conditions of layer operations.
#[derive(Clone, Copy, Debug, PartialEq, Eq, Structural)]
pub enum LayerError {
    /// A vector's length does not fit the layer's shape.
    ShapeMismatch,
    /// A weight coordinate lies outside the matrix.
    IndexOutOfRange,
    /// A result's canonical form does not fit the 64-bit representation.
    Overflow,
}

/// Mathematical view of a layer.
pub ghost struct LayerV {
    pub weights: Seq<Ratv>,
    pub len_row: int,
    pub bias: Seq<Ratv>,
    pub func: Activation,
}

/// Shape and canonical-form invariant of a layer view.
pub open spec fn layerv_wf(l: LayerV) -> bool {
    &&& 1 <= l.len_row
    &&& l.weights.len() as int % l.len_row == 0
    &&& l.bias.len() as int == l.weights.len() as int / l.len_row
    &&& forall|i: int| 0 <= i < l.weights.len() ==> ratv_wf(#[trigger] l.weights[i])
    &&& forall|j: int| 0 <= j < l.bias.len() ==> ratv_wf(#[trigger] l.bias[j])
}

/// Number of output rows of a layer.
pub open spec fn spec_num_rows(l: LayerV) -> int {
    l.bias.len() as int
}

/// Flat indices inside one row stay inside the matrix and decompose back
/// into the same row and column.
pub proof fn lemma_flat_index(len: int, lr: int, j: int, k: int)
    requires
        lr >= 1,
        len % lr == 0,
        0 <= j < len / lr,
        0 <= k < lr,
    ensures
        0 <= j * lr + k < len,
        (j * lr + k) / lr == j,
        (j * lr + k) % lr == k,
{
    lemma_fundamental_div_mod(len, lr);
    let rows = len / lr;
    lemma_mul_inequality(j + 1, rows, lr);
    lemma_mul_is_distributive_sub_other_way(lr, j + 1, 1);
    assert(j * lr + k < len) by {
        assert((j + 1) * lr <= rows * lr);
        assert((j + 1) * lr == j * lr + 1 * lr);
        lemma_mul_is_commutative(rows, lr);
    }
    assert(j * lr >= 0) by {
        vstd::arithmetic::mul::lemma_mul_nonnegative(j, lr);
    }
    lemma_fundamental_div_mod_converse(j * lr + k, lr, j, k);
}

/// One row's weighted sum over the first `k` inputs, folded from the left
/// starting at the dual zero, each term `weight * input` as a dual product.
pub open spec fn spec_row_dot(l: LayerV, inputs: Seq<DualV>, row: int, k: int) -> Option<DualV>
    decreases k,
{
    if k <= 0 {
        Some(dual_zero())
    } else {
        match spec_row_dot(l, inputs, row, k - 1) {
            Some(acc) => match spec_dual_mul(
                spec_dual_new(l.weights[row * l.len_row + (k - 1)]),
                inputs[k - 1],
            ) {
                Some(prod) => spec_dual_add(acc, prod),
                None => None,
            },
            None => None,
        }
    }
}

/// One row's weighted input: the full dot product plus the row's bias.
pub open spec fn spec_weighted_input(l: LayerV, inputs: Seq<DualV>, row: int) -> Option<DualV> {
    match spec_row_dot(l, inputs, row, l.len_row) {
        Some(acc) => spec_dual_add(acc, spec_dual_new(l.bias[row])),
        None => None,
    }
}

/// The weighted inputs of the first `j` rows.
pub open spec fn spec_calc_inputs_prefix(l: LayerV, inputs: Seq<DualV>, j: int) -> Option<
    Seq<DualV>,
>
    decreases j,
{
    if j <= 0 {
        Some(Seq::empty())
    } else {
        match (spec_calc_inputs_prefix(l, inputs, j - 1), spec_weighted_input(l, inputs, j - 1)) {
            (Some(s), Some(z)) => Some(s.push(z)),
            _ => None,
        }
    }
}

/// The weighted inputs of every row.
pub open spec fn spec_calc_inputs(l: LayerV, inputs: Seq<DualV>) -> Option<Seq<DualV>> {
    spec_calc_inputs_prefix(l, inputs, spec_num_rows(l))
}

/// Applying an activation function to a dual number.
pub open spec fn spec_apply_activation(f: Activation, d: DualV) -> DualV {
    match f {
        Activation::Identity => d,
        Activation::ReluZero => spec_dual_max(d, dual_zero()),
    }
}

/// The layer's outputs: the activation applied to every weighted input.
pub open spec fn spec_outputs(l: LayerV, inputs: Seq<DualV>) -> Option<Seq<DualV>> {
    match spec_calc_inputs(l, inputs) {
        Some(z) => Some(z.map_values(|d: DualV| spec_apply_activation(l.func, d))),
        None => None,
    }
}

/// View of a layer result carrying dual numbers.
pub open spec fn res_dualvec_view(r: Result<Vec<DualNumber>, LayerError>) -> Option<Seq<DualV>> {
    match r {
        Ok(v) => Some(v.deep_view()),
        Err(_) => None,
    }
}

/// View of a layer result carrying rationals.
pub open spec fn res_ratvec_view(r: Result<Vec<Rational>, LayerError>) -> Option<Seq<Ratv>> {
    match r {
        Ok(v) => Some(v.deep_view()),
        Err(_) => None,
    }
}

/// Once a row's dot fold fails, every longer fold of that row fails.
proof fn lemma_row_dot_none_mono(l: LayerV, inputs: Seq<DualV>, row: int, j: int, m: int)
    requires
        0 <= j <= m,
        spec_row_dot(l, inputs, row, j) is None,
    ensures
        spec_row_dot(l, inputs, row, m) is None,
    decreases m,
{
    if m > j {
        lemma_row_dot_none_mono(l, inputs, row, j, m - 1);
    }
}

/// Once the row prefix fails, every longer prefix fails.
proof fn lemma_calc_prefix_none_mono(l: LayerV, inputs: Seq<DualV>, j: int, m: int)
    requires
        0 <= j <= m,
        spec_calc_inputs_prefix(l, inputs, j) is None,
    ensures
        spec_calc_inputs_prefix(l, inputs, m) is None,
    decreases m,
{
    if m > j {
        lemma_calc_prefix_none_mono(l, inputs, j, m - 1);
    }
}

/// A successful row prefix holds exactly the rows' weighted inputs.
pub proof fn lemma_calc_prefix_index(l: LayerV, inputs: Seq<DualV>, m: int)
    requires
        m >= 0,
        spec_calc_inputs_prefix(l, inputs, m) is Some,
    ensures
        spec_calc_inputs_prefix(l, inputs, m).unwrap().len() == m,
        forall|j: int|
            0 <= j < m ==> #[trigger] spec_weighted_input(l, inputs, j) == Some(
                spec_calc_inputs_prefix(l, inputs, m).unwrap()[j],
            ),
    decreases m,
{
    if m > 0 {
        lemma_calc_prefix_index(l, inputs, m - 1);
    }
}


/// The weight matrix with row and column roles swapped: entry `i` of the
/// transposed sequence is the original entry at column `i % rows`, row
/// `i / rows` of the transposed layout.
pub open spec fn spec_transpose(w: Seq<Ratv>, len_row: int) -> Seq<Ratv>
    recommends
        len_row >= 1,
        w.len() as int % len_row == 0,
{
    let nr = w.len() as int / len_row;
    Seq::new(w.len(), |i: int| w[(i % nr) * len_row + i / nr])
}

/// Transposing twice gives the original matrix back, for every rectangular
/// flattened matrix of compatible row length.
pub proof fn lemma_transpose_involutive(w: Seq<Ratv>, len_row: int)
    requires
        len_row >= 1,
        w.len() as int % len_row == 0,
    ensures
        spec_transpose(spec_transpose(w, len_row), w.len() as int / len_row) == w,
{
    let len = w.len() as int;
    let lr = len_row;
    let nr = len / lr;
    let t = spec_transpose(w, lr);
    if len == 0 {
        assert(spec_transpose(t, nr) =~= w);
    } else {
        lemma_fundamental_div_mod(len, lr);
        assert(nr >= 1) by {
            if nr <= 0 {
                assert(lr * nr <= 0) by (nonlinear_arith)
                    requires
                        lr >= 1,
                        nr <= 0,
                ;
            }
        }
        lemma_mul_is_commutative(lr, nr);
        lemma_fundamental_div_mod_converse(len, nr, lr, 0);
        assert(t.len() == len);
        assert(spec_transpose(t, nr).len() == len);
        assert forall|i: int| 0 <= i < len implies spec_transpose(t, nr)[i] == w[i] by {
            lemma_fundamental_div_mod(i, lr);
            vstd::arithmetic::div_mod::lemma_mod_division_less_than_divisor(i, lr);
            vstd::arithmetic::div_mod::lemma_mod_bound(i, lr);
            let r2 = i % lr;
            let q2 = i / lr;
            assert(0 <= q2 < nr) by {
                vstd::arithmetic::div_mod::lemma_div_pos_is_pos(i, lr);
                vstd::arithmetic::div_mod::lemma_multiply_divide_lt(i, lr, nr);
            }
            lemma_flat_index(len, nr, r2, q2);
            let j = r2 * nr + q2;
            assert(spec_transpose(t, nr)[i] == t[j]);
            assert(t[j] == w[(j % nr) * lr + j / nr]);
            assert((j % nr) * lr + j / nr == q2 * lr + r2);
            lemma_mul_is_commutative(q2, lr);
            assert(q2 * lr + r2 == i);
        }
        assert(spec_transpose(t, nr) =~= w);
    }
}

/// The weights after an update over the first `j` flat indices: each weight
/// is nudged by the learning rate times its row's error.
pub open spec fn spec_update_weights_prefix(l: LayerV, errs: Seq<Ratv>, rate: Ratv, j: int) -> Option<
    Seq<Ratv>,
>
    decreases j,
{
    if j <= 0 {
        Some(Seq::empty())
    } else {
        match (
            spec_update_weights_prefix(l, errs, rate, j - 1),
            spec_rat_mul(rate, errs[(j - 1) / l.len_row]),
        ) {
            (Some(s), Some(p)) => match spec_rat_sub(l.weights[j - 1], p) {
                Some(w2) => Some(s.push(w2)),
                None => None,
            },
            _ => None,
        }
    }
}

/// The full updated weight sequence.
pub open spec fn spec_update_weights(l: LayerV, errs: Seq<Ratv>, rate: Ratv) -> Option<Seq<Ratv>> {
    spec_update_weights_prefix(l, errs, rate, l.weights.len() as int)
}

/// The bias after an update over the first `j` entries.
pub open spec fn spec_update_bias_prefix(l: LayerV, errs: Seq<Ratv>, rate: Ratv, j: int) -> Option<
    Seq<Ratv>,
>
    decreases j,
{
    if j <= 0 {
        Some(Seq::empty())
    } else {
        match (spec_update_bias_prefix(l, errs, rate, j - 1), spec_rat_mul(rate, errs[j - 1])) {
            (Some(s), Some(p)) => match spec_rat_sub(l.bias[j - 1], p) {
                Some(b2) => Some(s.push(b2)),
                None => None,
            },
            _ => None,
        }
    }
}

/// The full updated bias sequence.
pub open spec fn spec_update_bias(l: LayerV, errs: Seq<Ratv>, rate: Ratv) -> Option<Seq<Ratv>> {
    spec_update_bias_prefix(l, errs, rate, l.bias.len() as int)
}

/// Once the weight-update prefix fails, every longer prefix fails.
proof fn lemma_update_weights_none_mono(l: LayerV, errs: Seq<Ratv>, rate: Ratv, j: int, m: int)
    requires
        0 <= j <= m,
        spec_update_weights_prefix(l, errs, rate, j) is None,
    ensures
        spec_update_weights_prefix(l, errs, rate, m) is None,
    decreases m,
{
    if m > j {
        lemma_update_weights_none_mono(l, errs, rate, j, m - 1);
    }
}

/// Once the bias-update prefix fails, every longer prefix fails.
proof fn lemma_update_bias_none_mono(l: LayerV, errs: Seq<Ratv>, rate: Ratv, j: int, m: int)
    requires
        0 <= j <= m,
        spec_update_bias_prefix(l, errs, rate, j) is None,
    ensures
        spec_update_bias_prefix(l, errs, rate, m) is None,
    decreases m,
{
    if m > j {
        lemma_update_bias_none_mono(l, errs, rate, j, m - 1);
    }
}


/// The canonical one half.
pub open spec fn spec_half() -> Ratv {
    Ratv { n: 1, d: 2 }
}

/// The additive floor constant of the floored error function.
pub open spec fn spec_floor_const() -> Ratv {
    Ratv { n: 1, d: 100 }
}

/// The error function on one output/teacher pair: half the squared
/// difference, with the floor constant added before halving for the floored
/// variant.
pub open spec fn spec_apply_error(f: ErrorFunction, o: DualV, t: DualV) -> Option<DualV> {
    match spec_dual_sub(o, t) {
        Some(d) => match spec_dual_mul(d, d) {
            Some(sq) => {
                let floored = if f == ErrorFunction::FlooredHalfSquared {
                    spec_dual_add(sq, spec_dual_new(spec_floor_const()))
                } else {
                    Some(sq)
                };
                match floored {
                    Some(s2) => spec_dual_mul(s2, spec_dual_new(spec_half())),
                    None => None,
                }
            },
            None => None,
        },
        None => None,
    }
}

/// One output row's delta: the error function's tangent at the seeded
/// output, times the output's own tangent (the activation derivative).
pub open spec fn spec_error_output_at(
    f: ErrorFunction,
    outs: Seq<DualV>,
    teas: Seq<DualV>,
    j: int,
) -> Option<Ratv> {
    match spec_apply_error(f, spec_dual_select(outs[j]), teas[j]) {
        Some(e) => spec_rat_mul(e.t, outs[j].t),
        None => None,
    }
}

/// The deltas of the first `j` output rows.
pub open spec fn spec_error_output_prefix(
    f: ErrorFunction,
    outs: Seq<DualV>,
    teas: Seq<DualV>,
    j: int,
) -> Option<Seq<Ratv>>
    decreases j,
{
    if j <= 0 {
        Some(Seq::empty())
    } else {
        match (
            spec_error_output_prefix(f, outs, teas, j - 1),
            spec_error_output_at(f, outs, teas, j - 1),
        ) {
            (Some(s), Some(e)) => Some(s.push(e)),
            _ => None,
        }
    }
}

/// The output layer's whole delta vector.
pub open spec fn spec_error_output(f: ErrorFunction, outs: Seq<DualV>, teas: Seq<DualV>) -> Option<
    Seq<Ratv>,
> {
    spec_error_output_prefix(f, outs, teas, outs.len() as int)
}

/// One transposed row's dot product with the downstream error vector over
/// its first `k` entries, folded from the left starting at zero.
pub open spec fn spec_back_dot(t: Seq<Ratv>, errs: Seq<Ratv>, row: int, k: int) -> Option<Ratv>
    decreases k,
{
    if k <= 0 {
        Some(rat_zero())
    } else {
        match (
            spec_back_dot(t, errs, row, k - 1),
            spec_rat_mul(t[row * errs.len() + (k - 1)], errs[k - 1]),
        ) {
            (Some(acc), Some(p)) => spec_rat_add(acc, p),
            _ => None,
        }
    }
}

/// One hidden row's delta: the transpose-weighted sum of downstream errors,
/// times the row's own activation derivative.
pub open spec fn spec_error_hidden_at(
    prev: LayerV,
    outs: Seq<DualV>,
    errs: Seq<Ratv>,
    i: int,
) -> Option<Ratv> {
    match spec_back_dot(
        spec_transpose(prev.weights, prev.len_row),
        errs,
        i,
        errs.len() as int,
    ) {
        Some(s) => spec_rat_mul(s, outs[i].t),
        None => None,
    }
}

/// The deltas of the first `j` hidden rows.
pub open spec fn spec_error_hidden_prefix(
    prev: LayerV,
    outs: Seq<DualV>,
    errs: Seq<Ratv>,
    j: int,
) -> Option<Seq<Ratv>>
    decreases j,
{
    if j <= 0 {
        Some(Seq::empty())
    } else {
        match (
            spec_error_hidden_prefix(prev, outs, errs, j - 1),
            spec_error_hidden_at(prev, outs, errs, j - 1),
        ) {
            (Some(s), Some(e)) => Some(s.push(e)),
            _ => None,
        }
    }
}

/// The hidden layer's whole delta vector: one entry per input of the
/// downstream layer.
pub open spec fn spec_error_hidden(prev: LayerV, outs: Seq<DualV>, errs: Seq<Ratv>) -> Option<
    Seq<Ratv>,
> {
    spec_error_hidden_prefix(prev, outs, errs, prev.len_row)
}

/// The elementwise product of two vectors, over the shorter length.
pub open spec fn spec_hadamard_prefix(a: Seq<Ratv>, b: Seq<Ratv>, j: int) -> Option<Seq<Ratv>>
    decreases j,
{
    if j <= 0 {
        Some(Seq::empty())
    } else {
        match (spec_hadamard_prefix(a, b, j - 1), spec_rat_mul(a[j - 1], b[j - 1])) {
            (Some(s), Some(p)) => Some(s.push(p)),
            _ => None,
        }
    }
}

/// The Hadamard product over the shorter of the two lengths.
pub open spec fn spec_hadamard(a: Seq<Ratv>, b: Seq<Ratv>) -> Option<Seq<Ratv>> {
    let m = if a.len() <= b.len() {
        a.len() as int
    } else {
        b.len() as int
    };
    spec_hadamard_prefix(a, b, m)
}

/// Once the output-delta prefix fails, every longer prefix fails.
proof fn lemma_error_output_none_mono(
    f: ErrorFunction,
    outs: Seq<DualV>,
    teas: Seq<DualV>,
    j: int,
    m: int,
)
    requires
        0 <= j <= m,
        spec_error_output_prefix(f, outs, teas, j) is None,
    ensures
        spec_error_output_prefix(f, outs, teas, m) is None,
    decreases m,
{
    if m > j {
        lemma_error_output_none_mono(f, outs, teas, j, m - 1);
    }
}

/// Once a transposed row's dot fold fails, every longer fold fails.
proof fn lemma_back_dot_none_mono(t: Seq<Ratv>, errs: Seq<Ratv>, row: int, j: int, m: int)
    requires
        0 <= j <= m,
        spec_back_dot(t, errs, row, j) is None,
    ensures
        spec_back_dot(t, errs, row, m) is None,
    decreases m,
{
    if m > j {
        lemma_back_dot_none_mono(t, errs, row, j, m - 1);
    }
}

/// Once the hidden-delta prefix fails, every longer prefix fails.
proof fn lemma_error_hidden_none_mono(
    prev: LayerV,
    outs: Seq<DualV>,
    errs: Seq<Ratv>,
    j: int,
    m: int,
)
    requires
        0 <= j <= m,
        spec_error_hidden_prefix(prev, outs, errs, j) is None,
    ensures
        spec_error_hidden_prefix(prev, outs, errs, m) is None,
    decreases m,
{
    if m > j {
        lemma_error_hidden_none_mono(prev, outs, errs, j, m - 1);
    }
}

/// Once the Hadamard prefix fails, every longer prefix fails.
proof fn lemma_hadamard_none_mono(a: Seq<Ratv>, b: Seq<Ratv>, j: int, m: int)
    requires
        0 <= j <= m,
        spec_hadamard_prefix(a, b, j) is None,
    ensures
        spec_hadamard_prefix(a, b, m) is None,
    decreases m,
{
    if m > j {
        lemma_hadamard_none_mono(a, b, j, m - 1);
    }
}

/// View of an optional rational vector.
pub open spec fn opt_ratvec_view(r: Option<Vec<Rational>>) -> Option<Seq<Ratv>> {
    match r {
        Some(v) => Some(v.deep_view()),
        None => None,
    }
}

/// The elementwise product of two rational vectors, over the shorter length;
/// `None` when an entry's canonical form does not fit.
pub fn calc_hadamard(vec1: Vec<Rational>, vec2: Vec<Rational>) -> (r: Option<Vec<Rational>>)
    requires
        forall|i: int| 0 <= i < vec1@.len() ==> (#[trigger] vec1@[i]).wf(),
        forall|i: int| 0 <= i < vec2@.len() ==> (#[trigger] vec2@[i]).wf(),
    ensures
        opt_ratvec_view(r) == spec_hadamard(vec1.deep_view(), vec2.deep_view()),
        r is Some ==> forall|i: int|
            0 <= i < r.unwrap()@.len() ==> (#[trigger] r.unwrap()@[i]).wf(),
{
    let ghost a = vec1.deep_view();
    let ghost b = vec2.deep_view();
    let m: usize = if vec1.len() <= vec2.len() {
        vec1.len()
    } else {
        vec2.len()
    };
    let mut out: Vec<Rational> = Vec::new();
    let mut j: usize = 0;
    while j < m
        invariant
            0 <= j <= m,
            a == vec1.deep_view(),
            b == vec2.deep_view(),
            m <= vec1@.len(),
            m <= vec2@.len(),
            m as int == (if a.len() <= b.len() {
                a.len() as int
            } else {
                b.len() as int
            }),
            forall|i: int| 0 <= i < vec1@.len() ==> (#[trigger] vec1@[i]).wf(),
            forall|i: int| 0 <= i < vec2@.len() ==> (#[trigger] vec2@[i]).wf(),
            out@.len() == j,
            spec_hadamard_prefix(a, b, j as int) == Some(out.deep_view()),
            forall|i: int| 0 <= i < out@.len() ==> (#[trigger] out@[i]).wf(),
        decreases m - j,
    {
        proof {
            assert(vec1@[j as int]@ == a[j as int]);
            assert(vec2@[j as int]@ == b[j as int]);
        }
        let p = match vec1[j].mul(vec2[j]) {
            Some(p) => p,
            None => {
                proof {
                    lemma_hadamard_none_mono(a, b, j as int + 1, m as int);
                }
                return None;
            },
        };
        out.push(p);
        proof {
            assert(out.deep_view() =~= spec_hadamard_prefix(a, b, j as int).unwrap().push(p@));
        }
        j = j + 1;
    }
    Some(out)
}


/// Every entry of a transposed well-formed matrix is well formed.
pub proof fn lemma_transpose_elements_wf(l: LayerV)
    requires
        layerv_wf(l),
    ensures
        forall|q: int|
            0 <= q < spec_transpose(l.weights, l.len_row).len() ==> ratv_wf(
                #[trigger] spec_transpose(l.weights, l.len_row)[q],
            ),
{
    let len = l.weights.len() as int;
    let lr = l.len_row;
    let nr = len / lr;
    let t = spec_transpose(l.weights, lr);
    if len > 0 {
        lemma_fundamental_div_mod(len, lr);
        assert(nr >= 1) by {
            if nr <= 0 {
                assert(lr * nr <= 0) by (nonlinear_arith)
                    requires
                        lr >= 1,
                        nr <= 0,
                ;
            }
        }
        assert forall|q: int| 0 <= q < t.len() implies ratv_wf(t[q]) by {
            vstd::arithmetic::div_mod::lemma_mod_bound(q, nr);
            assert(0 <= q / nr < lr) by {
                vstd::arithmetic::div_mod::lemma_div_pos_is_pos(q, nr);
                lemma_mul_is_commutative(lr, nr);
                vstd::arithmetic::div_mod::lemma_multiply_divide_lt(q, nr, lr);
            }
            lemma_flat_index(len, lr, q % nr, q / nr);
            assert(ratv_wf(l.weights[(q % nr) * lr + q / nr]));
        }
    }
}

/// A transposed row's dot fold that succeeds is well formed.
proof fn lemma_back_dot_some_wf(t: Seq<Ratv>, errs: Seq<Ratv>, row: int, k: int)
    requires
        forall|q: int| 0 <= q < t.len() ==> ratv_wf(#[trigger] t[q]),
        forall|q: int| 0 <= q < errs.len() ==> ratv_wf(#[trigger] errs[q]),
        0 <= row,
        (row + 1) * errs.len() <= t.len(),
        0 <= k <= errs.len(),
        spec_back_dot(t, errs, row, k) is Some,
    ensures
        ratv_wf(spec_back_dot(t, errs, row, k).unwrap()),
    decreases k,
{
    crate::rational::lemma_rat_zero_wf();
    if k > 0 {
        let m = errs.len() as int;
        assert(0 <= row * m + (k - 1) < t.len()) by {
            vstd::arithmetic::mul::lemma_mul_is_distributive_add_other_way(m, row, 1);
            vstd::arithmetic::mul::lemma_mul_nonnegative(row, m);
        }
        lemma_back_dot_some_wf(t, errs, row, k - 1);
        let acc = spec_back_dot(t, errs, row, k - 1).unwrap();
        let w = t[row * m + (k - 1)];
        let e = errs[k - 1];
        crate::rational::lemma_rat_mul_wf(w, e);
        let p = spec_rat_mul(w, e).unwrap();
        crate::rational::lemma_rat_add_wf(acc, p);
    }
}

/// A successful hidden-delta prefix holds exactly the per-row deltas.
pub proof fn lemma_error_hidden_prefix_index(prev: LayerV, outs: Seq<DualV>, errs: Seq<Ratv>, m: int)
    requires
        m >= 0,
        spec_error_hidden_prefix(prev, outs, errs, m) is Some,
    ensures
        spec_error_hidden_prefix(prev, outs, errs, m).unwrap().len() == m,
        forall|i: int|
            0 <= i < m ==> #[trigger] spec_error_hidden_at(prev, outs, errs, i) == Some(
                spec_error_hidden_prefix(prev, outs, errs, m).unwrap()[i],
            ),
    decreases m,
{
    if m > 0 {
        lemma_error_hidden_prefix_index(prev, outs, errs, m - 1);
    }
}

/// A layer whose activation derivative is zero everywhere propagates a zero
/// delta vector, whatever the downstream errors: the chain rule with a zero
/// local derivative.
pub proof fn lemma_error_hidden_zero_tangent(prev: LayerV, outs: Seq<DualV>, errs: Seq<Ratv>)
    requires
        layerv_wf(prev),
        forall|q: int| 0 <= q < errs.len() ==> ratv_wf(#[trigger] errs[q]),
        forall|q: int| 0 <= q < outs.len() ==> (#[trigger] outs[q]).t == rat_zero(),
        outs.len() as int == prev.len_row,
        errs.len() as int == spec_num_rows(prev),
        spec_error_hidden(prev, outs, errs) is Some,
    ensures
        spec_error_hidden(prev, outs, errs).unwrap().len() == prev.len_row,
        forall|i: int|
            0 <= i < prev.len_row ==> #[trigger] spec_error_hidden(prev, outs, errs).unwrap()[i]
                == rat_zero(),
{
    let t = spec_transpose(prev.weights, prev.len_row);
    let m = errs.len() as int;
    lemma_transpose_elements_wf(prev);
    lemma_error_hidden_prefix_index(prev, outs, errs, prev.len_row);
    lemma_fundamental_div_mod(prev.weights.len() as int, prev.len_row);
    assert forall|i: int|
        0 <= i < prev.len_row implies #[trigger] spec_error_hidden(prev, outs, errs).unwrap()[i]
        == rat_zero() by {
        assert(spec_error_hidden_at(prev, outs, errs, i) == Some(
            spec_error_hidden(prev, outs, errs).unwrap()[i],
        ));
        assert((i + 1) * m <= t.len()) by {
            lemma_mul_inequality(i + 1, prev.len_row, m);
            lemma_mul_is_commutative(prev.len_row, m);
        }
        lemma_back_dot_some_wf(t, errs, i, m);
        let dot = spec_back_dot(t, errs, i, m).unwrap();
        crate::rational::lemma_rat_mul_zero(dot);
        assert(outs[i].t == rat_zero());
    }
}

/// One row's dot product reads only that row's weights.
proof fn lemma_row_dot_same(l1: LayerV, l2: LayerV, ins: Seq<DualV>, row: int, k: int)
    requires
        l1.len_row == l2.len_row,
        0 <= row,
        forall|c: int|
            0 <= c < l1.len_row ==> #[trigger] l1.weights[row * l1.len_row + c] == l2.weights[row
                * l2.len_row + c],
        0 <= k <= l1.len_row,
    ensures
        spec_row_dot(l1, ins, row, k) == spec_row_dot(l2, ins, row, k),
    decreases k,
{
    if k > 0 {
        lemma_row_dot_same(l1, l2, ins, row, k - 1);
        assert(l1.weights[row * l1.len_row + (k - 1)] == l2.weights[row * l2.len_row + (k - 1)]);
    }
}

/// Changing weights inside a single row changes no other row's output: for
/// two layers that agree on the row length, the bias, the activation and on
/// every weight outside row `r0`, any two successful forward passes agree on
/// every output index other than `r0`.
pub proof fn lemma_single_row_change_locality(l1: LayerV, l2: LayerV, ins: Seq<DualV>, r0: int)
    requires
        layerv_wf(l1),
        layerv_wf(l2),
        l2.len_row == l1.len_row,
        l2.bias == l1.bias,
        l2.func == l1.func,
        l2.weights.len() == l1.weights.len(),
        ins.len() as int == l1.len_row,
        forall|i: int|
            0 <= i < l1.weights.len() && i / l1.len_row != r0 ==> #[trigger] l1.weights[i]
                == l2.weights[i],
        spec_outputs(l1, ins) is Some,
        spec_outputs(l2, ins) is Some,
    ensures
        spec_outputs(l1, ins).unwrap().len() == spec_num_rows(l1),
        spec_outputs(l2, ins).unwrap().len() == spec_num_rows(l1),
        forall|j: int|
            0 <= j < spec_num_rows(l1) && j != r0 ==> #[trigger] spec_outputs(l1, ins).unwrap()[j]
                == spec_outputs(l2, ins).unwrap()[j],
{
    let lr = l1.len_row;
    let z1 = spec_calc_inputs(l1, ins).unwrap();
    let z2 = spec_calc_inputs(l2, ins).unwrap();
    lemma_calc_prefix_index(l1, ins, spec_num_rows(l1));
    lemma_calc_prefix_index(l2, ins, spec_num_rows(l2));
    assert forall|j: int|
        0 <= j < spec_num_rows(l1) && j != r0 implies #[trigger] spec_outputs(
        l1,
        ins,
    ).unwrap()[j] == spec_outputs(l2, ins).unwrap()[j] by {
        assert forall|c: int|
            0 <= c < lr implies #[trigger] l1.weights[j * lr + c] == l2.weights[j * lr + c] by {
            lemma_flat_index(l1.weights.len() as int, lr, j, c);
        }
        lemma_row_dot_same(l1, l2, ins, j, lr);
        assert(spec_weighted_input(l1, ins, j) == spec_weighted_input(l2, ins, j));
        assert(z1[j] == z2[j]);
        assert(spec_outputs(l1, ins).unwrap()[j] == spec_apply_activation(l1.func, z1[j]));
        assert(spec_outputs(l2, ins).unwrap()[j] == spec_apply_activation(l2.func, z2[j]));
    }
}


/// A successful output-delta prefix holds exactly the per-row deltas.
pub proof fn lemma_error_output_prefix_index(f: ErrorFunction, outs: Seq<DualV>, teas: Seq<DualV>, m: int)
    requires
        m >= 0,
        spec_error_output_prefix(f, outs, teas, m) is Some,
    ensures
        spec_error_output_prefix(f, outs, teas, m).unwrap().len() == m,
        forall|i: int|
            0 <= i < m ==> #[trigger] spec_error_output_at(f, outs, teas, i) == Some(
                spec_error_output_prefix(f, outs, teas, m).unwrap()[i],
            ),
    decreases m,
{
    if m > 0 {
        lemma_error_output_prefix_index(f, outs, teas, m - 1);
    }
}

/// A successful forward pass has one output per row.
pub proof fn lemma_outputs_len(l: LayerV, ins: Seq<DualV>)
    requires
        spec_outputs(l, ins) is Some,
    ensures
        spec_outputs(l, ins).unwrap().len() == spec_num_rows(l),
{
    lemma_calc_prefix_index(l, ins, spec_num_rows(l));
}

/// The bias update reads only the bias: layers with equal bias vectors
/// update it equally.
pub proof fn lemma_update_bias_prefix_same(l1: LayerV, l2: LayerV, errs: Seq<Ratv>, rate: Ratv, j: int)
    requires
        l1.bias == l2.bias,
        j >= 0,
    ensures
        spec_update_bias_prefix(l1, errs, rate, j) == spec_update_bias_prefix(l2, errs, rate, j),
    decreases j,
{
    if j > 0 {
        lemma_update_bias_prefix_same(l1, l2, errs, rate, j - 1);
    }
}

/// An exact-arithmetic fully connected layer.
#[derive(Debug)]
pub struct FeedForward {
    weights: Vec<Rational>,
    len_row: usize,
    bias: Vec<Rational>,
    func: Activation,
}

impl View for FeedForward {
    type V = LayerV;

    closed spec fn view(&self) -> LayerV {
        LayerV {
            weights: self.weights.deep_view(),
            len_row: self.len_row as int,
            bias: self.bias.deep_view(),
            func: self.func,
        }
    }
}

impl DeepView for FeedForward {
    type V = LayerV;

    open spec fn deep_view(&self) -> LayerV {
        self.view()
    }
}

impl Activation {
    /// Apply the activation to one dual number.
    pub fn apply(self, d: DualNumber) -> (r: DualNumber)
        requires
            d.wf(),
        ensures
            r@ == spec_apply_activation(self, d@),
            r.wf(),
    {
        match self {
            Activation::Identity => d,
            Activation::ReluZero => d.max(DualNumber::new(Rational::zero())),
        }
    }
}

impl ErrorFunction {
    /// Apply the error function to one output/teacher pair of dual numbers.
    pub fn apply(self, output: DualNumber, teacher: DualNumber) -> (r: Option<DualNumber>)
        requires
            output.wf(),
            teacher.wf(),
        ensures
            crate::dual_number::opt_dualv(r) == spec_apply_error(self, output@, teacher@),
            r is Some ==> r.unwrap().wf(),
    {
        let d = match output.sub(teacher) {
            Some(d) => d,
            None => {
                return None;
            },
        };
        let sq = match d.mul(d) {
            Some(s) => s,
            None => {
                return None;
            },
        };
        let s2 = match self {
            ErrorFunction::HalfSquared => sq,
            ErrorFunction::FlooredHalfSquared => {
                match sq.add(DualNumber::new(Rational::one_hundredth())) {
                    Some(s) => s,
                    None => {
                        return None;
                    },
                }
            },
        };
        s2.mul(DualNumber::new(Rational::one_half()))
    }
}

impl FeedForward {
    /// Shape and canonical-form invariant.
    pub open spec fn wf(self) -> bool {
        layerv_wf(self@)
    }

    /// Build a layer; rejects shapes where the weight count is not a
    /// positive multiple of the row length matching the bias count.
    pub fn new(weights: Vec<Rational>, len_row: usize, bias: Vec<Rational>, func: Activation) -> (r:
        Result<FeedForward, LayerError>)
        requires
            forall|i: int| 0 <= i < weights@.len() ==> (#[trigger] weights@[i]).wf(),
            forall|j: int| 0 <= j < bias@.len() ==> (#[trigger] bias@[j]).wf(),
        ensures
            r is Ok <==> (1 <= len_row && weights@.len() as int % (len_row as int) == 0
                && bias@.len() as int == weights@.len() as int / (len_row as int)),
            r is Ok ==> r.unwrap()@ == (LayerV {
                weights: weights.deep_view(),
                len_row: len_row as int,
                bias: bias.deep_view(),
                func,
            }) && r.unwrap().wf(),
            r is Err ==> r.unwrap_err() == LayerError::ShapeMismatch,
    {
        if len_row >= 1 && weights.len() % len_row == 0 && bias.len() == weights.len() / len_row {
            let l = FeedForward { weights, len_row, bias, func };
            proof {
                assert(forall|i: int|
                    0 <= i < l@.weights.len() ==> #[trigger] l@.weights[i] == l.weights@[i]@);
                assert(forall|j: int|
                    0 <= j < l@.bias.len() ==> #[trigger] l@.bias[j] == l.bias@[j]@);
            }
            Ok(l)
        } else {
            Err(LayerError::ShapeMismatch)
        }
    }

    /// The row length (the layer's input dimension).
    pub fn len_row(&self) -> (r: usize)
        ensures
            r as int == self@.len_row,
    {
        self.len_row
    }

    /// The number of output rows.
    pub fn num_rows(&self) -> (r: usize)
        ensures
            r as int == spec_num_rows(self@),
    {
        self.bias.len()
    }

    /// A copy of the flat row-major weight matrix.
    pub fn weights(&self) -> (r: Vec<Rational>)
        ensures
            r.deep_view() == self@.weights,
    {
        let n: usize = self.weights.len();
        let mut out: Vec<Rational> = Vec::new();
        let mut i: usize = 0;
        while i < n
            invariant
                0 <= i <= n,
                n == self.weights@.len(),
                out@.len() == i,
                forall|q: int| 0 <= q < i ==> (#[trigger] out@[q]) == self.weights@[q],
            decreases n - i,
        {
            let w = self.weights[i];
            out.push(w);
            i = i + 1;
        }
        proof {
            assert(out.deep_view() =~= self@.weights);
        }
        out
    }

    /// A copy of the bias vector.
    pub fn bias(&self) -> (r: Vec<Rational>)
        ensures
            r.deep_view() == self@.bias,
    {
        let n: usize = self.bias.len();
        let mut out: Vec<Rational> = Vec::new();
        let mut i: usize = 0;
        while i < n
            invariant
                0 <= i <= n,
                n == self.bias@.len(),
                out@.len() == i,
                forall|q: int| 0 <= q < i ==> (#[trigger] out@[q]) == self.bias@[q],
            decreases n - i,
        {
            let b = self.bias[i];
            out.push(b);
            i = i + 1;
        }
        proof {
            assert(out.deep_view() =~= self@.bias);
        }
        out
    }

    /// The layer's activation function.
    pub fn activation(&self) -> (r: Activation)
        ensures
            r == self@.func,
    {
        self.func
    }

    /// The weighted total input of every row: for row `j`, the fold of
    /// `weight * input` over the row plus the row's bias.
    fn calc_inputs(&self, inputs: &Vec<DualNumber>) -> (r: Result<Vec<DualNumber>, LayerError>)
        requires
            self.wf(),
            forall|i: int| 0 <= i < inputs@.len() ==> (#[trigger] inputs@[i]).wf(),
            inputs@.len() as int == self@.len_row,
        ensures
            res_dualvec_view(r) == spec_calc_inputs(self@, inputs.deep_view()),
            r is Err ==> r.unwrap_err() == LayerError::Overflow,
            r is Ok ==> forall|i: int|
                0 <= i < r.unwrap()@.len() ==> (#[trigger] r.unwrap()@[i]).wf(),
    {
        let ghost ins = inputs.deep_view();
        let wlen: usize = self.weights.len();
        let nrows: usize = self.bias.len();
        let mut result: Vec<DualNumber> = Vec::new();
        let mut j: usize = 0;
        proof {
            assert(ins.len() == inputs@.len());
        }
        while j < nrows
            invariant
                0 <= j <= nrows,
                self.wf(),
                nrows as int == spec_num_rows(self@),
                wlen == self.weights@.len(),
                inputs@.len() as int == self@.len_row,
                ins == inputs.deep_view(),
                forall|i: int| 0 <= i < inputs@.len() ==> (#[trigger] inputs@[i]).wf(),
                result@.len() == j,
                spec_calc_inputs_prefix(self@, ins, j as int) == Some(result.deep_view()),
                forall|i: int| 0 <= i < result@.len() ==> (#[trigger] result@[i]).wf(),
            decreases nrows - j,
        {
            let mut acc = DualNumber::new(Rational::zero());
            let mut k: usize = 0;
            proof {
                assert(spec_row_dot(self@, ins, j as int, 0) == Some(acc@));
            }
            while k < self.len_row
                invariant
                    0 <= k <= self.len_row,
                    0 <= j < nrows,
                    self.wf(),
                    nrows as int == spec_num_rows(self@),
                    wlen == self.weights@.len(),
                    inputs@.len() as int == self@.len_row,
                    ins == inputs.deep_view(),
                    forall|i: int| 0 <= i < inputs@.len() ==> (#[trigger] inputs@[i]).wf(),
                    acc.wf(),
                    spec_row_dot(self@, ins, j as int, k as int) == Some(acc@),
                    result@.len() == j,
                    spec_calc_inputs_prefix(self@, ins, j as int) == Some(result.deep_view()),
                    forall|i: int| 0 <= i < result@.len() ==> (#[trigger] result@[i]).wf(),
                decreases self.len_row - k,
            {
                proof {
                    lemma_flat_index(
                        self@.weights.len() as int,
                        self@.len_row,
                        j as int,
                        k as int,
                    );
                    assert(self@.weights.len() == self.weights@.len());
                    assert((j as int * self@.len_row + k as int) < (self.weights@.len() as int));
                    assert(self.weights@[j as int * self@.len_row + k as int]@ == self@.weights[
                        j as int * self@.len_row + k as int
                    ]);
                    assert(ratv_wf(self@.weights[j as int * self@.len_row + k as int]));
                    assert(inputs.deep_view()[k as int] == inputs@[k as int]@);
                }
                let w = self.weights[j * self.len_row + k];
                let term = match DualNumber::new(w).mul(inputs[k]) {
                    Some(t) => t,
                    None => {
                        proof {
                            lemma_row_dot_none_mono(
                                self@,
                                ins,
                                j as int,
                                k as int + 1,
                                self@.len_row,
                            );
                            lemma_calc_prefix_none_mono(
                                self@,
                                ins,
                                j as int + 1,
                                spec_num_rows(self@),
                            );
                        }
                        return Err(LayerError::Overflow);
                    },
                };
                acc = match acc.add(term) {
                    Some(a) => a,
                    None => {
                        proof {
                            lemma_row_dot_none_mono(
                                self@,
                                ins,
                                j as int,
                                k as int + 1,
                                self@.len_row,
                            );
                            lemma_calc_prefix_none_mono(
                                self@,
                                ins,
                                j as int + 1,
                                spec_num_rows(self@),
                            );
                        }
                        return Err(LayerError::Overflow);
                    },
                };
                k = k + 1;
            }
            proof {
                assert(self@.bias.len() == self.bias@.len());
                assert(self.bias@[j as int]@ == self@.bias[j as int]);
                assert(ratv_wf(self@.bias[j as int]));
            }
            let z = match acc.add(DualNumber::new(self.bias[j])) {
                Some(z) => z,
                None => {
                    proof {
                        lemma_calc_prefix_none_mono(
                            self@,
                            ins,
                            j as int + 1,
                            spec_num_rows(self@),
                        );
                    }
                    return Err(LayerError::Overflow);
                },
            };
            result.push(z);
            proof {
                assert(result.deep_view() =~= spec_calc_inputs_prefix(
                    self@,
                    ins,
                    j as int,
                ).unwrap().push(z@));
            }
            j = j + 1;
        }
        Ok(result)
    }

    /// The layer's outputs for the given inputs: each row's weighted input
    /// passed through the activation function.  Rejects inputs whose length
    /// is not the layer's row length.
    pub fn outputs(&self, inputs: &Vec<DualNumber>) -> (r: Result<Vec<DualNumber>, LayerError>)
        requires
            self.wf(),
            forall|i: int| 0 <= i < inputs@.len() ==> (#[trigger] inputs@[i]).wf(),
        ensures
            inputs@.len() as int != self@.len_row ==> r == Err::<Vec<DualNumber>, LayerError>(
                LayerError::ShapeMismatch,
            ),
            inputs@.len() as int == self@.len_row ==> res_dualvec_view(r) == spec_outputs(
                self@,
                inputs.deep_view(),
            ) && (r is Err ==> r.unwrap_err() == LayerError::Overflow),
            r is Ok ==> forall|i: int|
                0 <= i < r.unwrap()@.len() ==> (#[trigger] r.unwrap()@[i]).wf(),
    {
        if inputs.len() != self.len_row {
            return Err(LayerError::ShapeMismatch);
        }
        let z = match self.calc_inputs(inputs) {
            Ok(z) => z,
            Err(e) => {
                return Err(e);
            },
        };
        let ghost zs = z.deep_view();
        let mut result: Vec<DualNumber> = Vec::new();
        let mut i: usize = 0;
        let n: usize = z.len();
        while i < n
            invariant
                0 <= i <= n,
                n == z@.len(),
                zs == z.deep_view(),
                self.wf(),
                forall|q: int| 0 <= q < z@.len() ==> (#[trigger] z@[q]).wf(),
                result@.len() == i,
                forall|q: int|
                    0 <= q < i ==> (#[trigger] result@[q])@ == spec_apply_activation(
                        self@.func,
                        z@[q]@,
                    ),
                forall|q: int| 0 <= q < result@.len() ==> (#[trigger] result@[q]).wf(),
            decreases n - i,
        {
            let o = self.func.apply(z[i]);
            result.push(o);
            i = i + 1;
        }
        proof {
            assert(forall|q: int| 0 <= q < zs.len() ==> #[trigger] zs[q] == z@[q]@);
            assert(result.deep_view() =~= zs.map_values(
                |d: DualV| spec_apply_activation(self@.func, d),
            ));
        }
        Ok(result)
    }

    /// The weight matrix with rows and columns swapped, computed freshly on
    /// every call.
    pub fn transposed_weights(&self) -> (r: Vec<Rational>)
        requires
            self.wf(),
        ensures
            r.deep_view() == spec_transpose(self@.weights, self@.len_row),
            forall|i: int| 0 <= i < r@.len() ==> (#[trigger] r@[i]).wf(),
    {
        let nr: usize = self.bias.len();
        let wlen: usize = self.weights.len();
        let ghost t = spec_transpose(self@.weights, self@.len_row);
        let mut out: Vec<Rational> = Vec::new();
        let mut c: usize = 0;
        proof {
            assert(self@.weights.len() == self.weights@.len());
            lemma_fundamental_div_mod(wlen as int, self@.len_row);
            assert(wlen as int == self@.len_row * (nr as int));
        }
        while c < self.len_row
            invariant
                0 <= c <= self.len_row,
                self.wf(),
                nr as int == spec_num_rows(self@),
                wlen == self.weights@.len(),
                wlen as int == self@.len_row * nr as int,
                t == spec_transpose(self@.weights, self@.len_row),
                out@.len() == c as int * nr as int,
                forall|i: int| 0 <= i < out@.len() ==> (#[trigger] out@[i])@ == t[i],
                forall|i: int| 0 <= i < out@.len() ==> (#[trigger] out@[i]).wf(),
            decreases self.len_row - c,
        {
            let mut rr: usize = 0;
            while rr < nr
                invariant
                    0 <= rr <= nr,
                    0 <= c < self.len_row,
                    self.wf(),
                    nr as int == spec_num_rows(self@),
                    wlen == self.weights@.len(),
                    wlen as int == self@.len_row * nr as int,
                    t == spec_transpose(self@.weights, self@.len_row),
                    out@.len() == c as int * nr as int + rr as int,
                    forall|i: int| 0 <= i < out@.len() ==> (#[trigger] out@[i])@ == t[i],
                    forall|i: int| 0 <= i < out@.len() ==> (#[trigger] out@[i]).wf(),
                decreases nr - rr,
            {
                proof {
                    lemma_flat_index(wlen as int, self@.len_row, rr as int, c as int);
                    assert(self.weights@[rr as int * self@.len_row + c as int]@ == self@.weights[
                        rr as int * self@.len_row + c as int
                    ]);
                    assert(ratv_wf(self@.weights[rr as int * self@.len_row + c as int]));
                    lemma_mod_multiples_basic(self@.len_row, nr as int);
                    lemma_mul_is_commutative(self@.len_row, nr as int);
                    lemma_fundamental_div_mod_converse(wlen as int, nr as int, self@.len_row, 0);
                    lemma_flat_index(wlen as int, nr as int, c as int, rr as int);
                    assert(t[c as int * nr as int + rr as int] == self@.weights[rr as int
                        * self@.len_row + c as int]);
                }
                let w = self.weights[rr * self.len_row + c];
                out.push(w);
                rr = rr + 1;
            }
            proof {
                assert((c as int + 1) * nr as int == c as int * nr as int + nr as int) by {
                    vstd::arithmetic::mul::lemma_mul_is_distributive_add_other_way(
                        nr as int,
                        c as int,
                        1,
                    );
                }
            }
            c = c + 1;
        }
        proof {
            lemma_mul_is_commutative(self@.len_row, nr as int);
            assert(out@.len() == t.len());
            assert(out.deep_view() =~= t);
        }
        out
    }

    /// Nudge every weight by the learning rate times its row's error; on any
    /// failure the layer is left unchanged.
    pub fn update_weights(&mut self, errors: &Vec<Rational>, rate: Rational) -> (r: Result<
        (),
        LayerError,
    >)
        requires
            old(self).wf(),
            rate.wf(),
            forall|i: int| 0 <= i < errors@.len() ==> (#[trigger] errors@[i]).wf(),
        ensures
            final(self).wf(),
            errors@.len() as int != spec_num_rows(old(self)@) ==> r == Err::<(), LayerError>(
                LayerError::ShapeMismatch,
            ) && final(self)@ == old(self)@,
            errors@.len() as int == spec_num_rows(old(self)@) ==> match spec_update_weights(
                old(self)@,
                errors.deep_view(),
                rate@,
            ) {
                Some(w2) => r is Ok && final(self)@ == (LayerV {
                    weights: w2,
                    len_row: old(self)@.len_row,
                    bias: old(self)@.bias,
                    func: old(self)@.func,
                }),
                None => r == Err::<(), LayerError>(LayerError::Overflow) && final(self)@ == old(
                    self,
                )@,
            },
    {
        if errors.len() != self.bias.len() {
            return Err(LayerError::ShapeMismatch);
        }
        let ghost l0 = self@;
        let ghost errs = errors.deep_view();
        let wlen: usize = self.weights.len();
        let nrows: usize = self.bias.len();
        let mut fresh: Vec<Rational> = Vec::new();
        let mut i: usize = 0;
        proof {
            assert(self@.weights.len() == self.weights@.len());
            lemma_fundamental_div_mod(wlen as int, self@.len_row);
        }
        while i < wlen
            invariant
                0 <= i <= wlen,
                self.wf(),
                self@ == l0,
                errs == errors.deep_view(),
                errors@.len() == nrows,
                nrows as int == spec_num_rows(self@),
                rate.wf(),
                forall|q: int| 0 <= q < errors@.len() ==> (#[trigger] errors@[q]).wf(),
                wlen == self.weights@.len(),
                wlen as int == self@.len_row * (nrows as int),
                fresh@.len() == i,
                spec_update_weights_prefix(l0, errs, rate@, i as int) == Some(fresh.deep_view()),
                forall|q: int| 0 <= q < fresh@.len() ==> (#[trigger] fresh@[q]).wf(),
            decreases wlen - i,
        {
            proof {
                vstd::arithmetic::div_mod::lemma_div_pos_is_pos(i as int, self@.len_row);
                vstd::arithmetic::div_mod::lemma_multiply_divide_lt(
                    i as int,
                    self@.len_row,
                    nrows as int,
                );
                assert(errors@[i as int / self@.len_row]@ == errs[i as int / self@.len_row]);
                assert(self.weights@[i as int]@ == l0.weights[i as int]);
                assert(ratv_wf(l0.weights[i as int]));
            }
            let e = errors[i / self.len_row];
            let p = match rate.mul(e) {
                Some(p) => p,
                None => {
                    proof {
                        lemma_update_weights_none_mono(l0, errs, rate@, i as int + 1, wlen as int);
                    }
                    return Err(LayerError::Overflow);
                },
            };
            let w2 = match self.weights[i].sub(p) {
                Some(w2) => w2,
                None => {
                    proof {
                        lemma_update_weights_none_mono(l0, errs, rate@, i as int + 1, wlen as int);
                    }
                    return Err(LayerError::Overflow);
                },
            };
            fresh.push(w2);
            proof {
                assert(fresh.deep_view() =~= spec_update_weights_prefix(
                    l0,
                    errs,
                    rate@,
                    i as int,
                ).unwrap().push(w2@));
            }
            i = i + 1;
        }
        self.weights = fresh;
        proof {
            assert(self@.weights == fresh.deep_view());
            assert(self@ == (LayerV {
                weights: fresh.deep_view(),
                len_row: l0.len_row,
                bias: l0.bias,
                func: l0.func,
            }));
        }
        Ok(())
    }

    /// Nudge every bias entry by the learning rate times its error; on any
    /// failure the layer is left unchanged.
    pub fn update_bias(&mut self, errors: &Vec<Rational>, rate: Rational) -> (r: Result<
        (),
        LayerError,
    >)
        requires
            old(self).wf(),
            rate.wf(),
            forall|i: int| 0 <= i < errors@.len() ==> (#[trigger] errors@[i]).wf(),
        ensures
            final(self).wf(),
            errors@.len() as int != spec_num_rows(old(self)@) ==> r == Err::<(), LayerError>(
                LayerError::ShapeMismatch,
            ) && final(self)@ == old(self)@,
            errors@.len() as int == spec_num_rows(old(self)@) ==> match spec_update_bias(
                old(self)@,
                errors.deep_view(),
                rate@,
            ) {
                Some(b2) => r is Ok && final(self)@ == (LayerV {
                    weights: old(self)@.weights,
                    len_row: old(self)@.len_row,
                    bias: b2,
                    func: old(self)@.func,
                }),
                None => r == Err::<(), LayerError>(LayerError::Overflow) && final(self)@ == old(
                    self,
                )@,
            },
    {
        if errors.len() != self.bias.len() {
            return Err(LayerError::ShapeMismatch);
        }
        let ghost l0 = self@;
        let ghost errs = errors.deep_view();
        let blen: usize = self.bias.len();
        let mut fresh: Vec<Rational> = Vec::new();
        let mut j: usize = 0;
        proof {
            assert(self@.bias.len() == self.bias@.len());
        }
        while j < blen
            invariant
                0 <= j <= blen,
                self.wf(),
                self@ == l0,
                errs == errors.deep_view(),
                errors@.len() == blen,
                rate.wf(),
                forall|q: int| 0 <= q < errors@.len() ==> (#[trigger] errors@[q]).wf(),
                blen == self.bias@.len(),
                fresh@.len() == j,
                spec_update_bias_prefix(l0, errs, rate@, j as int) == Some(fresh.deep_view()),
                forall|q: int| 0 <= q < fresh@.len() ==> (#[trigger] fresh@[q]).wf(),
            decreases blen - j,
        {
            proof {
                assert(errors@[j as int]@ == errs[j as int]);
                assert(self.bias@[j as int]@ == l0.bias[j as int]);
                assert(ratv_wf(l0.bias[j as int]));
            }
            let p = match rate.mul(errors[j]) {
                Some(p) => p,
                None => {
                    proof {
                        lemma_update_bias_none_mono(l0, errs, rate@, j as int + 1, blen as int);
                    }
                    return Err(LayerError::Overflow);
                },
            };
            let b2 = match self.bias[j].sub(p) {
                Some(b2) => b2,
                None => {
                    proof {
                        lemma_update_bias_none_mono(l0, errs, rate@, j as int + 1, blen as int);
                    }
                    return Err(LayerError::Overflow);
                },
            };
            fresh.push(b2);
            proof {
                assert(fresh.deep_view() =~= spec_update_bias_prefix(
                    l0,
                    errs,
                    rate@,
                    j as int,
                ).unwrap().push(b2@));
            }
            j = j + 1;
        }
        self.bias = fresh;
        proof {
            assert(self@ == (LayerV {
                weights: l0.weights,
                len_row: l0.len_row,
                bias: fresh.deep_view(),
                func: l0.func,
            }));
        }
        Ok(())
    }

    /// Overwrite the single weight at the given row and column; coordinates
    /// outside the matrix are rejected and leave the layer unchanged.
    pub fn set_weight(&mut self, row: usize, column: usize, value: Rational) -> (r: Result<
        (),
        LayerError,
    >)
        requires
            old(self).wf(),
            value.wf(),
        ensures
            final(self).wf(),
            !((row as int) < spec_num_rows(old(self)@) && (column as int) < old(self)@.len_row)
                ==> r == Err::<(), LayerError>(LayerError::IndexOutOfRange) && final(self)@ == old(
                self,
            )@,
            (row as int) < spec_num_rows(old(self)@) && (column as int) < old(self)@.len_row
                ==> r is Ok && final(self)@ == (LayerV {
                weights: old(self)@.weights.update(
                    row as int * old(self)@.len_row + column as int,
                    value@,
                ),
                len_row: old(self)@.len_row,
                bias: old(self)@.bias,
                func: old(self)@.func,
            }),
    {
        if row < self.bias.len() && column < self.len_row {
            let ghost l0 = self@;
            let wlen: usize = self.weights.len();
            proof {
                assert(self@.weights.len() == self.weights@.len());
                assert(self@.bias.len() == self.bias@.len());
                lemma_flat_index(self@.weights.len() as int, self@.len_row, row as int, column as int);
                assert((row as int * self@.len_row + column as int) < (wlen as int));
            }
            let idx: usize = row * self.len_row + column;
            self.weights.set(idx, value);
            proof {
                assert(self@.weights =~= l0.weights.update(
                    row as int * l0.len_row + column as int,
                    value@,
                ));
                assert(self@ == (LayerV {
                    weights: l0.weights.update(row as int * l0.len_row + column as int, value@),
                    len_row: l0.len_row,
                    bias: l0.bias,
                    func: l0.func,
                }));
            }
            Ok(())
        } else {
            Err(LayerError::IndexOutOfRange)
        }
    }

    /// The output layer's delta vector: each output is seeded (tangent one),
    /// the error function's tangent against the teacher is taken, and the
    /// result is multiplied by the output's own tangent from the forward
    /// pass.  Rejects output and teacher vectors of different lengths.
    pub fn calc_error_output(
        &self,
        outputs: &Vec<DualNumber>,
        teachers: &Vec<DualNumber>,
        func_error: ErrorFunction,
    ) -> (r: Result<Vec<Rational>, LayerError>)
        requires
            forall|i: int| 0 <= i < outputs@.len() ==> (#[trigger] outputs@[i]).wf(),
            forall|i: int| 0 <= i < teachers@.len() ==> (#[trigger] teachers@[i]).wf(),
        ensures
            outputs@.len() != teachers@.len() ==> r == Err::<Vec<Rational>, LayerError>(
                LayerError::ShapeMismatch,
            ),
            outputs@.len() == teachers@.len() ==> res_ratvec_view(r) == spec_error_output(
                func_error,
                outputs.deep_view(),
                teachers.deep_view(),
            ) && (r is Err ==> r.unwrap_err() == LayerError::Overflow),
            r is Ok ==> forall|i: int|
                0 <= i < r.unwrap()@.len() ==> (#[trigger] r.unwrap()@[i]).wf(),
    {
        if outputs.len() != teachers.len() {
            return Err(LayerError::ShapeMismatch);
        }
        let ghost outs = outputs.deep_view();
        let ghost teas = teachers.deep_view();
        let n: usize = outputs.len();
        let mut result: Vec<Rational> = Vec::new();
        let mut j: usize = 0;
        while j < n
            invariant
                0 <= j <= n,
                n == outputs@.len(),
                n == teachers@.len(),
                outs == outputs.deep_view(),
                teas == teachers.deep_view(),
                forall|i: int| 0 <= i < outputs@.len() ==> (#[trigger] outputs@[i]).wf(),
                forall|i: int| 0 <= i < teachers@.len() ==> (#[trigger] teachers@[i]).wf(),
                result@.len() == j,
                spec_error_output_prefix(func_error, outs, teas, j as int) == Some(
                    result.deep_view(),
                ),
                forall|i: int| 0 <= i < result@.len() ==> (#[trigger] result@[i]).wf(),
            decreases n - j,
        {
            proof {
                assert(outputs@[j as int]@ == outs[j as int]);
                assert(teachers@[j as int]@ == teas[j as int]);
            }
            let seeded = outputs[j].select();
            let e = match func_error.apply(seeded, teachers[j]) {
                Some(e) => e,
                None => {
                    proof {
                        lemma_error_output_none_mono(func_error, outs, teas, j as int + 1, n as int);
                    }
                    return Err(LayerError::Overflow);
                },
            };
            let delta = match e.tangent.mul(outputs[j].tangent) {
                Some(d) => d,
                None => {
                    proof {
                        lemma_error_output_none_mono(func_error, outs, teas, j as int + 1, n as int);
                    }
                    return Err(LayerError::Overflow);
                },
            };
            result.push(delta);
            proof {
                assert(result.deep_view() =~= spec_error_output_prefix(
                    func_error,
                    outs,
                    teas,
                    j as int,
                ).unwrap().push(delta@));
            }
            j = j + 1;
        }
        Ok(result)
    }

    /// A hidden layer's delta vector, given the downstream layer and its
    /// already-computed deltas: each entry is the transpose-weighted sum of
    /// the downstream deltas times this layer's own activation derivative
    /// (the output's tangent).  Rejects vectors that do not match the
    /// downstream layer's shape.
    pub fn calc_error_hide(
        &self,
        outputs: &Vec<DualNumber>,
        prev_layer: &FeedForward,
        prev_errors: &Vec<Rational>,
    ) -> (r: Result<Vec<Rational>, LayerError>)
        requires
            prev_layer.wf(),
            forall|i: int| 0 <= i < outputs@.len() ==> (#[trigger] outputs@[i]).wf(),
            forall|i: int| 0 <= i < prev_errors@.len() ==> (#[trigger] prev_errors@[i]).wf(),
        ensures
            !(prev_errors@.len() as int == spec_num_rows(prev_layer@) && outputs@.len() as int
                == prev_layer@.len_row) ==> r == Err::<Vec<Rational>, LayerError>(
                LayerError::ShapeMismatch,
            ),
            prev_errors@.len() as int == spec_num_rows(prev_layer@) && outputs@.len() as int
                == prev_layer@.len_row ==> res_ratvec_view(r) == spec_error_hidden(
                prev_layer@,
                outputs.deep_view(),
                prev_errors.deep_view(),
            ) && (r is Err ==> r.unwrap_err() == LayerError::Overflow),
            r is Ok ==> forall|i: int|
                0 <= i < r.unwrap()@.len() ==> (#[trigger] r.unwrap()@[i]).wf(),
    {
        if prev_errors.len() != prev_layer.num_rows() || outputs.len() != prev_layer.len_row() {
            return Err(LayerError::ShapeMismatch);
        }
        let ghost outs = outputs.deep_view();
        let ghost errs = prev_errors.deep_view();
        let ghost tv = spec_transpose(prev_layer@.weights, prev_layer@.len_row);
        let transposed = prev_layer.transposed_weights();
        let m: usize = prev_errors.len();
        let rows: usize = prev_layer.len_row();
        let tlen: usize = transposed.len();
        proof {
            assert(transposed.deep_view() == tv);
            assert(tlen == tv.len());
            lemma_fundamental_div_mod(prev_layer@.weights.len() as int, prev_layer@.len_row);
            assert(tlen as int == prev_layer@.len_row * (m as int));
        }
        let mut result: Vec<Rational> = Vec::new();
        let mut i: usize = 0;
        while i < rows
            invariant
                0 <= i <= rows,
                rows as int == prev_layer@.len_row,
                m == prev_errors@.len(),
                m as int == spec_num_rows(prev_layer@),
                outputs@.len() as int == prev_layer@.len_row,
                outs == outputs.deep_view(),
                errs == prev_errors.deep_view(),
                tv == spec_transpose(prev_layer@.weights, prev_layer@.len_row),
                transposed.deep_view() == tv,
                tlen == transposed@.len(),
                tlen as int == prev_layer@.len_row * (m as int),
                prev_layer.wf(),
                forall|q: int| 0 <= q < outputs@.len() ==> (#[trigger] outputs@[q]).wf(),
                forall|q: int| 0 <= q < prev_errors@.len() ==> (#[trigger] prev_errors@[q]).wf(),
                forall|q: int| 0 <= q < transposed@.len() ==> (#[trigger] transposed@[q]).wf(),
                result@.len() == i,
                spec_error_hidden_prefix(prev_layer@, outs, errs, i as int) == Some(
                    result.deep_view(),
                ),
                forall|q: int| 0 <= q < result@.len() ==> (#[trigger] result@[q]).wf(),
            decreases rows - i,
        {
            let mut acc = Rational::zero();
            let mut k: usize = 0;
            proof {
                assert(spec_back_dot(tv, errs, i as int, 0) == Some(acc@));
            }
            while k < m
                invariant
                    0 <= k <= m,
                    0 <= i < rows,
                    rows as int == prev_layer@.len_row,
                    m == prev_errors@.len(),
                    m as int == spec_num_rows(prev_layer@),
                    outputs@.len() as int == prev_layer@.len_row,
                    outs == outputs.deep_view(),
                    errs == prev_errors.deep_view(),
                    tv == spec_transpose(prev_layer@.weights, prev_layer@.len_row),
                    transposed.deep_view() == tv,
                    tlen == transposed@.len(),
                    tlen as int == prev_layer@.len_row * (m as int),
                    prev_layer.wf(),
                    forall|q: int| 0 <= q < outputs@.len() ==> (#[trigger] outputs@[q]).wf(),
                    forall|q: int| 0 <= q < prev_errors@.len() ==> (#[trigger] prev_errors@[q]).wf(),
                    forall|q: int| 0 <= q < transposed@.len() ==> (#[trigger] transposed@[q]).wf(),
                    acc.wf(),
                    spec_back_dot(tv, errs, i as int, k as int) == Some(acc@),
                    result@.len() == i,
                    spec_error_hidden_prefix(prev_layer@, outs, errs, i as int) == Some(
                        result.deep_view(),
                    ),
                    forall|q: int| 0 <= q < result@.len() ==> (#[trigger] result@[q]).wf(),
                decreases m - k,
            {
                proof {
                    lemma_mod_multiples_basic(prev_layer@.len_row, m as int);
                    lemma_mul_is_commutative(prev_layer@.len_row, m as int);
                    lemma_fundamental_div_mod_converse(
                        tlen as int,
                        m as int,
                        prev_layer@.len_row,
                        0,
                    );
                    lemma_flat_index(tlen as int, m as int, i as int, k as int);
                    assert(transposed@[i as int * m as int + k as int]@ == tv[i as int * m as int
                        + k as int]);
                    assert(prev_errors@[k as int]@ == errs[k as int]);
                }
                let p = match transposed[i * m + k].mul(prev_errors[k]) {
                    Some(p) => p,
                    None => {
                        proof {
                            lemma_back_dot_none_mono(tv, errs, i as int, k as int + 1, m as int);
                            lemma_error_hidden_none_mono(
                                prev_layer@,
                                outs,
                                errs,
                                i as int + 1,
                                prev_layer@.len_row,
                            );
                        }
                        return Err(LayerError::Overflow);
                    },
                };
                acc = match acc.add(p) {
                    Some(a) => a,
                    None => {
                        proof {
                            lemma_back_dot_none_mono(tv, errs, i as int, k as int + 1, m as int);
                            lemma_error_hidden_none_mono(
                                prev_layer@,
                                outs,
                                errs,
                                i as int + 1,
                                prev_layer@.len_row,
                            );
                        }
                        return Err(LayerError::Overflow);
                    },
                };
                k = k + 1;
            }
            proof {
                assert(outputs@[i as int]@ == outs[i as int]);
            }
            let delta = match acc.mul(outputs[i].tangent) {
                Some(d) => d,
                None => {
                    proof {
                        lemma_error_hidden_none_mono(
                            prev_layer@,
                            outs,
                            errs,
                            i as int + 1,
                            prev_layer@.len_row,
                        );
                    }
                    return Err(LayerError::Overflow);
                },
            };
            result.push(delta);
            proof {
                assert(result.deep_view() =~= spec_error_hidden_prefix(
                    prev_layer@,
                    outs,
                    errs,
                    i as int,
                ).unwrap().push(delta@));
            }
            i = i + 1;
        }
        Ok(result)
    }
}

} // verus!
