//! The training loop: repeated forward passes, error signals computed
//! back to front against pre-update weights, and per-layer updates, until
//! the loss falls below a threshold or an iteration cap is exhausted.
//!
//! Every step is specified exactly: the outcome, the reported loss and the
//! layers after the run are functions of the starting state alone.

use vstd::prelude::*;

verus! {

use crate::rational::{Ratv, Rational, rat_lt};
use crate::dual_number::{
    DualV, DualNumber, dual_zero, spec_dual_add, spec_dual_select,
};
use crate::feed_forward::{
    LayerV, FeedForward, ErrorFunction, LayerError, layerv_wf, spec_num_rows,
    spec_outputs, spec_error_output, spec_error_hidden, spec_update_weights, spec_update_bias,
    spec_apply_error, lemma_outputs_len, lemma_error_output_prefix_index,
    lemma_error_hidden_prefix_index, lemma_update_bias_prefix_same,
};

/// What a finished training run reports.
#[derive(Clone, Copy, Debug, PartialEq, Eq, Structural)]
pub struct TrainReport {
    /// Whether the loss fell below the threshold.
    pub converged: bool,
    /// How many iterations ran.
    pub iterations: usize,
    /// The loss of the last iteration.
    pub loss: Rational,
}

/// Mathematical view of one training step's outcome.
#[verifier::ext_equal]
pub ghost struct StepV {
    pub layers: Seq<LayerV>,
    pub loss: Ratv,
    pub converged: bool,
}

/// Mathematical view of a whole run's outcome.
#[verifier::ext_equal]
pub ghost struct RunV {
    pub layers: Seq<LayerV>,
    pub loss: Ratv,
    pub iterations: nat,
    pub converged: bool,
}

/// A well-formed chain of layers from `in_dim` inputs to `out_dim` outputs:
/// every layer is well formed and each layer's output count is the next
/// layer's input count.
pub open spec fn spec_chain_wf(layers: Seq<LayerV>, in_dim: int, out_dim: int) -> bool {
    &&& layers.len() >= 1
    &&& forall|i: int| 0 <= i < layers.len() ==> layerv_wf(#[trigger] layers[i])
    &&& layers[0].len_row == in_dim
    &&& forall|i: int|
        0 <= i < layers.len() - 1 ==> (#[trigger] spec_num_rows(layers[i])) == layers[i + 1].len_row
    &&& spec_num_rows(layers[layers.len() - 1]) == out_dim
}

/// Seeding: every input marked as a differentiation variable.
pub open spec fn spec_seed(ins: Seq<DualV>) -> Seq<DualV> {
    ins.map_values(|d: DualV| spec_dual_select(d))
}

/// Forward propagation through the chain, keeping every layer's outputs.
pub open spec fn spec_forward_chain(layers: Seq<LayerV>, ins: Seq<DualV>) -> Option<
    Seq<Seq<DualV>>,
>
    decreases layers.len(),
{
    if layers.len() == 0 {
        Some(Seq::empty())
    } else {
        match spec_outputs(layers[0], ins) {
            Some(o) => match spec_forward_chain(layers.drop_first(), o) {
                Some(rest) => Some(seq![o] + rest),
                None => None,
            },
            None => None,
        }
    }
}

/// The total loss over the first `j` output/teacher pairs, folded from the
/// left starting at the dual zero.
pub open spec fn spec_loss_prefix(
    f: ErrorFunction,
    outs: Seq<DualV>,
    teas: Seq<DualV>,
    j: int,
) -> Option<DualV>
    decreases j,
{
    if j <= 0 {
        Some(dual_zero())
    } else {
        match (spec_loss_prefix(f, outs, teas, j - 1), spec_apply_error(f, outs[j - 1], teas[j - 1])) {
            (Some(acc), Some(e)) => spec_dual_add(acc, e),
            _ => None,
        }
    }
}

/// The total loss over all output/teacher pairs.
pub open spec fn spec_loss(f: ErrorFunction, outs: Seq<DualV>, teas: Seq<DualV>) -> Option<DualV> {
    spec_loss_prefix(f, outs, teas, outs.len() as int)
}

/// Layer `i`'s error signal, computed back to front: the output layer's
/// deltas against the teachers, every other layer's deltas through the next
/// layer's transposed pre-update weights.
pub open spec fn spec_error_at(
    layers: Seq<LayerV>,
    louts: Seq<Seq<DualV>>,
    teas: Seq<DualV>,
    f: ErrorFunction,
    i: int,
) -> Option<Seq<Ratv>>
    recommends
        0 <= i < layers.len(),
    decreases layers.len() - i,
{
    if i >= layers.len() - 1 {
        spec_error_output(f, louts[i], teas)
    } else {
        match spec_error_at(layers, louts, teas, f, i + 1) {
            Some(next) => spec_error_hidden(layers[i + 1], louts[i], next),
            None => None,
        }
    }
}

/// One layer after a gradient-style update of its weights and bias.
pub open spec fn spec_update_layer(l: LayerV, errs: Seq<Ratv>, rate: Ratv) -> Option<LayerV> {
    match (spec_update_weights(l, errs, rate), spec_update_bias(l, errs, rate)) {
        (Some(w2), Some(b2)) => Some(
            LayerV { weights: w2, len_row: l.len_row, bias: b2, func: l.func },
        ),
        _ => None,
    }
}

/// Whether every layer's error signal and update succeed.
pub open spec fn spec_step_updates_ok(
    layers: Seq<LayerV>,
    louts: Seq<Seq<DualV>>,
    teas: Seq<DualV>,
    f: ErrorFunction,
    rate: Ratv,
) -> bool {
    forall|i: int|
        0 <= i < layers.len() ==> (#[trigger] spec_error_at(layers, louts, teas, f, i)) is Some
            && spec_update_layer(layers[i], spec_error_at(layers, louts, teas, f, i).unwrap(), rate)
            is Some
}

/// One training iteration: seed the inputs, propagate forward, total the
/// loss; when the loss is under the threshold stop with the layers
/// untouched, otherwise compute every layer's error signal against the
/// pre-update weights and update every layer.
#[verifier::opaque]
pub open spec fn spec_train_step(
    layers: Seq<LayerV>,
    ins: Seq<DualV>,
    teas: Seq<DualV>,
    f: ErrorFunction,
    rate: Ratv,
    threshold: Ratv,
) -> Option<StepV>
    recommends
        layers.len() >= 1,
{
    let seeded = spec_seed(ins);
    match spec_forward_chain(layers, seeded) {
        None => None,
        Some(louts) => match spec_loss(f, louts[layers.len() - 1], teas) {
            None => None,
            Some(loss) => if rat_lt(loss.v, threshold) {
                Some(StepV { layers, loss: loss.v, converged: true })
            } else if spec_step_updates_ok(layers, louts, teas, f, rate) {
                Some(
                    StepV {
                        layers: Seq::new(
                            layers.len(),
                            |i: int| spec_update_layer(
                                layers[i],
                                spec_error_at(layers, louts, teas, f, i).unwrap(),
                                rate,
                            ).unwrap(),
                        ),
                        loss: loss.v,
                        converged: false,
                    },
                )
            } else {
                None
            },
        },
    }
}

/// A whole run of at most `cap` iterations: step until the loss converges
/// or the cap is exhausted.
pub open spec fn spec_train_run(
    layers: Seq<LayerV>,
    ins: Seq<DualV>,
    teas: Seq<DualV>,
    f: ErrorFunction,
    rate: Ratv,
    threshold: Ratv,
    cap: nat,
) -> Option<RunV>
    recommends
        layers.len() >= 1,
        cap >= 1,
    decreases cap,
{
    match spec_train_step(layers, ins, teas, f, rate, threshold) {
        None => None,
        Some(st) => if st.converged {
            Some(RunV { layers: st.layers, loss: st.loss, iterations: 1, converged: true })
        } else if cap <= 1 {
            Some(RunV { layers: st.layers, loss: st.loss, iterations: 1, converged: false })
        } else {
            match spec_train_run(st.layers, ins, teas, f, rate, threshold, (cap - 1) as nat) {
                None => None,
                Some(run) => Some(
                    RunV {
                        layers: run.layers,
                        loss: run.loss,
                        iterations: run.iterations + 1,
                        converged: run.converged,
                    },
                ),
            }
        },
    }
}

/// Once the loss fold fails, every longer fold fails.
proof fn lemma_loss_none_mono(f: ErrorFunction, outs: Seq<DualV>, teas: Seq<DualV>, j: int, m: int)
    requires
        0 <= j <= m,
        spec_loss_prefix(f, outs, teas, j) is None,
    ensures
        spec_loss_prefix(f, outs, teas, m) is None,
    decreases m,
{
    if m > j {
        lemma_loss_none_mono(f, outs, teas, j, m - 1);
    }
}


/// Seed every input as a differentiation variable.
fn seed_inputs(inputs: &Vec<DualNumber>) -> (r: Vec<DualNumber>)
    requires
        forall|i: int| 0 <= i < inputs@.len() ==> (#[trigger] inputs@[i]).wf(),
    ensures
        r.deep_view() == spec_seed(inputs.deep_view()),
        r@.len() == inputs@.len(),
        forall|i: int| 0 <= i < r@.len() ==> (#[trigger] r@[i]).wf(),
{
    let ghost insv = inputs.deep_view();
    let mut seeded: Vec<DualNumber> = Vec::new();
    let mut si: usize = 0;
    let n: usize = inputs.len();
    while si < n
        invariant
            0 <= si <= n,
            n == inputs@.len(),
            insv == inputs.deep_view(),
            forall|q: int| 0 <= q < inputs@.len() ==> (#[trigger] inputs@[q]).wf(),
            seeded@.len() == si,
            forall|q: int| 0 <= q < si ==> (#[trigger] seeded@[q])@ == spec_dual_select(insv[q]),
            forall|q: int| 0 <= q < si ==> (#[trigger] seeded@[q]).wf(),
        decreases n - si,
    {
        proof {
            assert(inputs@[si as int]@ == insv[si as int]);
        }
        let s = inputs[si].select();
        seeded.push(s);
        si = si + 1;
    }
    proof {
        assert(seeded.deep_view() =~= spec_seed(insv));
    }
    seeded
}

/// Propagate the seeded inputs through the whole chain, keeping every
/// layer's outputs.
fn forward_chain(layers: &Vec<FeedForward>, seeded: &Vec<DualNumber>) -> (r: Result<
    Vec<Vec<DualNumber>>,
    LayerError,
>)
    requires
        layers@.len() >= 1,
        forall|i: int| 0 <= i < layers@.len() ==> (#[trigger] layers@[i]).wf(),
        layers.deep_view()[0].len_row == seeded@.len() as int,
        forall|i: int|
            0 <= i < layers@.len() - 1 ==> (#[trigger] spec_num_rows(layers.deep_view()[i]))
                == layers.deep_view()[i + 1].len_row,
        forall|i: int| 0 <= i < seeded@.len() ==> (#[trigger] seeded@[i]).wf(),
    ensures
        match r {
            Ok(louts) => spec_forward_chain(layers.deep_view(), seeded.deep_view()) == Some(
                louts.deep_view(),
            ) && louts@.len() == layers@.len() && (forall|q: int|
                0 <= q < louts@.len() ==> (#[trigger] louts@[q])@.len() as int == spec_num_rows(
                    layers.deep_view()[q],
                )) && (forall|q: int, p: int|
                0 <= q < louts@.len() && 0 <= p < louts@[q]@.len() ==> (
                #[trigger] louts@[q]@[p]).wf()),
            Err(e) => spec_forward_chain(layers.deep_view(), seeded.deep_view()) is None && e
                == LayerError::Overflow,
        },
{
    let ghost lv = layers.deep_view();
    let ghost seededv = seeded.deep_view();
    let n: usize = layers.len();
    let mut louts: Vec<Vec<DualNumber>> = Vec::new();
    let mut i: usize = 0;
    proof {
        assert(lv.skip(0) =~= lv);
    }
    while i < n
        invariant
            0 <= i <= n,
            n == layers@.len(),
            lv == layers.deep_view(),
            seededv == seeded.deep_view(),
            forall|q: int| 0 <= q < layers@.len() ==> (#[trigger] layers@[q]).wf(),
            lv[0].len_row == seeded@.len() as int,
            forall|q: int|
                0 <= q < layers@.len() - 1 ==> (#[trigger] spec_num_rows(lv[q])) == lv[q
                    + 1].len_row,
            forall|q: int| 0 <= q < seeded@.len() ==> (#[trigger] seeded@[q]).wf(),
            louts@.len() == i,
            forall|q: int|
                0 <= q < i ==> (#[trigger] louts@[q])@.len() as int == spec_num_rows(lv[q]),
            forall|q: int, p: int|
                0 <= q < i && 0 <= p < louts@[q]@.len() ==> (#[trigger] louts@[q]@[p]).wf(),
            (match spec_forward_chain(
                lv.skip(i as int),
                if i == 0 {
                    seededv
                } else {
                    louts.deep_view()[i as int - 1]
                },
            ) {
                None => spec_forward_chain(lv, seededv) is None,
                Some(rest) => spec_forward_chain(lv, seededv) == Some(louts.deep_view() + rest),
            }),
        decreases n - i,
    {
        proof {
            assert(layers@[i as int]@ == lv[i as int]);
            assert(lv.skip(i as int)[0] == lv[i as int]);
            assert(lv.skip(i as int).drop_first() =~= lv.skip(i as int + 1));
            if i > 0 {
                assert(louts@[i as int - 1].deep_view() == louts.deep_view()[i as int - 1]);
            }
        }
        let res = if i == 0 {
            layers[i].outputs(seeded)
        } else {
            layers[i].outputs(&louts[i - 1])
        };
        let o = match res {
            Ok(o) => o,
            Err(_) => {
                return Err(LayerError::Overflow);
            },
        };
        proof {
            lemma_outputs_len(
                lv[i as int],
                if i == 0 {
                    seededv
                } else {
                    louts.deep_view()[i as int - 1]
                },
            );
        }
        let ghost old_louts = louts.deep_view();
        louts.push(o);
        proof {
            assert(louts.deep_view() =~= old_louts.push(o.deep_view()));
            let cur = if i == 0 {
                seededv
            } else {
                old_louts[i as int - 1]
            };
            let ov = spec_outputs(lv[i as int], cur).unwrap();
            assert(o.deep_view() == ov);
            let rest2 = spec_forward_chain(lv.skip(i as int + 1), ov);
            if rest2 is Some {
                assert(old_louts + (seq![ov] + rest2.unwrap()) =~= (old_louts.push(ov))
                    + rest2.unwrap());
            }
            assert(louts.deep_view()[i as int] == ov);
        }
        i = i + 1;
    }
    proof {
        assert(lv.skip(n as int).len() == 0);
        let cur = if n == 0 {
            seededv
        } else {
            louts.deep_view()[n as int - 1]
        };
        assert(spec_forward_chain(lv.skip(n as int), cur) == Some(Seq::<Seq<DualV>>::empty()));
        assert(louts.deep_view() + Seq::<Seq<DualV>>::empty() =~= louts.deep_view());
    }
    Ok(louts)
}

/// The total loss of a forward pass against the teacher values.
fn total_loss(
    func_error: ErrorFunction,
    outs: &Vec<DualNumber>,
    teachers: &Vec<DualNumber>,
) -> (r: Result<DualNumber, LayerError>)
    requires
        outs@.len() == teachers@.len(),
        forall|i: int| 0 <= i < outs@.len() ==> (#[trigger] outs@[i]).wf(),
        forall|i: int| 0 <= i < teachers@.len() ==> (#[trigger] teachers@[i]).wf(),
    ensures
        match r {
            Ok(loss) => spec_loss(func_error, outs.deep_view(), teachers.deep_view()) == Some(
                loss@,
            ) && loss.wf(),
            Err(e) => spec_loss(func_error, outs.deep_view(), teachers.deep_view()) is None && e
                == LayerError::Overflow,
        },
{
    let ghost ov = outs.deep_view();
    let ghost tv = teachers.deep_view();
    let n: usize = outs.len();
    let mut acc = DualNumber::new(Rational::zero());
    let mut j: usize = 0;
    while j < n
        invariant
            0 <= j <= n,
            n == outs@.len(),
            n == teachers@.len(),
            ov == outs.deep_view(),
            tv == teachers.deep_view(),
            forall|q: int| 0 <= q < outs@.len() ==> (#[trigger] outs@[q]).wf(),
            forall|q: int| 0 <= q < teachers@.len() ==> (#[trigger] teachers@[q]).wf(),
            acc.wf(),
            spec_loss_prefix(func_error, ov, tv, j as int) == Some(acc@),
        decreases n - j,
    {
        proof {
            assert(outs@[j as int]@ == ov[j as int]);
            assert(teachers@[j as int]@ == tv[j as int]);
        }
        let e = match func_error.apply(outs[j], teachers[j]) {
            Some(e) => e,
            None => {
                proof {
                    lemma_loss_none_mono(func_error, ov, tv, j as int + 1, n as int);
                }
                return Err(LayerError::Overflow);
            },
        };
        acc = match acc.add(e) {
            Some(a) => a,
            None => {
                proof {
                    lemma_loss_none_mono(func_error, ov, tv, j as int + 1, n as int);
                }
                return Err(LayerError::Overflow);
            },
        };
        j = j + 1;
    }
    Ok(acc)
}



/// Every layer's error signal, computed back to front, returned with the
/// output layer's deltas first (reverse layer order).
fn backward_errors(
    layers: &Vec<FeedForward>,
    louts: &Vec<Vec<DualNumber>>,
    teachers: &Vec<DualNumber>,
    func_error: ErrorFunction,
    Ghost(lv): Ghost<Seq<LayerV>>,
    Ghost(loutsv): Ghost<Seq<Seq<DualV>>>,
    Ghost(teasv): Ghost<Seq<DualV>>,
) -> (r: Result<Vec<Vec<Rational>>, LayerError>)
    requires
        lv == layers.deep_view(),
        loutsv == louts.deep_view(),
        teasv == teachers.deep_view(),
        layers@.len() >= 1,
        forall|i: int| 0 <= i < layers@.len() ==> (#[trigger] layers@[i]).wf(),
        forall|i: int|
            0 <= i < lv.len() - 1 ==> (#[trigger] spec_num_rows(lv[i])) == lv[i + 1].len_row,
        spec_num_rows(lv[lv.len() - 1]) == teachers@.len() as int,
        louts@.len() == layers@.len(),
        forall|q: int|
            0 <= q < louts@.len() ==> (#[trigger] louts@[q])@.len() as int == spec_num_rows(lv[q]),
        forall|q: int, p: int|
            0 <= q < louts@.len() && 0 <= p < louts@[q]@.len() ==> (#[trigger] louts@[q]@[p]).wf(),
        forall|i: int| 0 <= i < teachers@.len() ==> (#[trigger] teachers@[i]).wf(),
    ensures
        match r {
            Ok(errs_rev) => errs_rev@.len() == lv.len() && (forall|q: int|
                0 <= q < errs_rev@.len() ==> spec_error_at(
                    lv,
                    loutsv,
                    teasv,
                    func_error,
                    lv.len() - 1 - q,
                ) == Some((#[trigger] errs_rev@[q]).deep_view())) && (forall|q: int|
                0 <= q < errs_rev@.len() ==> (#[trigger] errs_rev@[q])@.len() as int
                    == spec_num_rows(lv[lv.len() - 1 - q])) && (forall|q: int, p: int|
                0 <= q < errs_rev@.len() && 0 <= p < errs_rev@[q]@.len() ==> (
                #[trigger] errs_rev@[q]@[p]).wf()),
            Err(e) => e == LayerError::Overflow && exists|i: int|
                0 <= i < lv.len() && (#[trigger] spec_error_at(lv, loutsv, teasv, func_error, i))
                    is None,
        },
{
    let n: usize = layers.len();
    let mut errs_rev: Vec<Vec<Rational>> = Vec::new();
    proof {
        assert(louts@[n - 1].deep_view() == loutsv[n - 1]);
        assert(layers@[n - 1]@ == lv[n - 1]);
    }
    let e0 = match layers[n - 1].calc_error_output(&louts[n - 1], teachers, func_error) {
        Ok(e) => e,
        Err(_) => {
            proof {
                assert(spec_error_at(lv, loutsv, teasv, func_error, n as int - 1) is None);
            }
            return Err(LayerError::Overflow);
        },
    };
    proof {
        lemma_error_output_prefix_index(
            func_error,
            loutsv[n - 1],
            teasv,
            loutsv[n - 1].len() as int,
        );
        assert(spec_error_at(lv, loutsv, teasv, func_error, n as int - 1) == Some(e0.deep_view()));
    }
    errs_rev.push(e0);
    let mut idx: usize = 1;
    while idx < n
        invariant
            1 <= idx <= n,
            n == layers@.len(),
            n == lv.len(),
            lv == layers.deep_view(),
            loutsv == louts.deep_view(),
            teasv == teachers.deep_view(),
            forall|q: int| 0 <= q < layers@.len() ==> (#[trigger] layers@[q]).wf(),
            forall|q: int|
                0 <= q < lv.len() - 1 ==> (#[trigger] spec_num_rows(lv[q])) == lv[q + 1].len_row,
            spec_num_rows(lv[n - 1]) == teachers@.len() as int,
            louts@.len() == n,
            forall|q: int|
                0 <= q < louts@.len() ==> (#[trigger] louts@[q])@.len() as int == spec_num_rows(
                    lv[q],
                ),
            forall|q: int, p: int|
                0 <= q < louts@.len() && 0 <= p < louts@[q]@.len() ==> (
                #[trigger] louts@[q]@[p]).wf(),
            forall|q: int| 0 <= q < teachers@.len() ==> (#[trigger] teachers@[q]).wf(),
            errs_rev@.len() == idx,
            forall|q: int|
                0 <= q < idx ==> spec_error_at(lv, loutsv, teasv, func_error, n as int - 1 - q)
                    == Some((#[trigger] errs_rev@[q]).deep_view()),
            forall|q: int|
                0 <= q < idx ==> (#[trigger] errs_rev@[q])@.len() as int == spec_num_rows(
                    lv[n as int - 1 - q],
                ),
            forall|q: int, p: int|
                0 <= q < idx && 0 <= p < errs_rev@[q]@.len() ==> (
                #[trigger] errs_rev@[q]@[p]).wf(),
        decreases n - idx,
    {
        let li: usize = n - 1 - idx;
        proof {
            assert(layers@[li as int]@ == lv[li as int]);
            assert(layers@[li as int + 1]@ == lv[li as int + 1]);
            assert(louts@[li as int].deep_view() == loutsv[li as int]);
            assert(spec_error_at(lv, loutsv, teasv, func_error, li as int + 1) == Some(
                errs_rev@[idx as int - 1].deep_view(),
            ));
        }
        let e = match layers[li].calc_error_hide(&louts[li], &layers[li + 1], &errs_rev[idx - 1]) {
            Ok(e) => e,
            Err(_) => {
                proof {
                    assert(spec_error_at(lv, loutsv, teasv, func_error, li as int) is None);
                }
                return Err(LayerError::Overflow);
            },
        };
        proof {
            lemma_error_hidden_prefix_index(
                lv[li as int + 1],
                loutsv[li as int],
                errs_rev@[idx as int - 1].deep_view(),
                lv[li as int + 1].len_row,
            );
            assert(spec_error_at(lv, loutsv, teasv, func_error, li as int) == Some(e.deep_view()));
        }
        errs_rev.push(e);
        idx = idx + 1;
    }
    Ok(errs_rev)
}

/// Update every layer in place by its error signal: weights first, then the
/// bias, both against the layer's pre-update state.
fn apply_updates(
    layers: Vec<FeedForward>,
    errs_rev: &Vec<Vec<Rational>>,
    rate: Rational,
    func_error: ErrorFunction,
    Ghost(lv): Ghost<Seq<LayerV>>,
    Ghost(loutsv): Ghost<Seq<Seq<DualV>>>,
    Ghost(teasv): Ghost<Seq<DualV>>,
) -> (r: Result<Vec<FeedForward>, LayerError>)
    requires
        lv == layers.deep_view(),
        layers@.len() >= 1,
        rate.wf(),
        forall|i: int| 0 <= i < layers@.len() ==> (#[trigger] layers@[i]).wf(),
        errs_rev@.len() == lv.len(),
        forall|q: int|
            0 <= q < errs_rev@.len() ==> spec_error_at(
                lv,
                loutsv,
                teasv,
                func_error,
                lv.len() - 1 - q,
            ) == Some((#[trigger] errs_rev@[q]).deep_view()),
        forall|q: int|
            0 <= q < errs_rev@.len() ==> (#[trigger] errs_rev@[q])@.len() as int == spec_num_rows(
                lv[lv.len() - 1 - q],
            ),
        forall|q: int, p: int|
            0 <= q < errs_rev@.len() && 0 <= p < errs_rev@[q]@.len() ==> (
            #[trigger] errs_rev@[q]@[p]).wf(),
    ensures
        match r {
            Ok(updated) => spec_step_updates_ok(lv, loutsv, teasv, func_error, rate@)
                && updated@.len() == lv.len() && (forall|q: int|
                0 <= q < updated@.len() ==> (#[trigger] updated@[q])@ == spec_update_layer(
                    lv[q],
                    spec_error_at(lv, loutsv, teasv, func_error, q).unwrap(),
                    rate@,
                ).unwrap()) && (forall|q: int|
                0 <= q < updated@.len() ==> (#[trigger] updated@[q]).wf() && updated@[q]@.len_row
                    == lv[q].len_row && spec_num_rows(updated@[q]@) == spec_num_rows(lv[q])),
            Err(e) => e == LayerError::Overflow && !spec_step_updates_ok(
                lv,
                loutsv,
                teasv,
                func_error,
                rate@,
            ),
        },
{
    let n: usize = layers.len();
    let mut cur = layers;
    let mut i: usize = 0;
    while i < n
        invariant
            0 <= i <= n,
            n == cur@.len(),
            n == lv.len(),
            rate.wf(),
            errs_rev@.len() == n,
            forall|q: int|
                0 <= q < n ==> spec_error_at(lv, loutsv, teasv, func_error, n as int - 1 - q)
                    == Some((#[trigger] errs_rev@[q]).deep_view()),
            forall|q: int|
                0 <= q < n ==> (#[trigger] errs_rev@[q])@.len() as int == spec_num_rows(
                    lv[n as int - 1 - q],
                ),
            forall|q: int, p: int|
                0 <= q < n && 0 <= p < errs_rev@[q]@.len() ==> (
                #[trigger] errs_rev@[q]@[p]).wf(),
            forall|q: int| i <= q < n ==> (#[trigger] cur@[q])@ == lv[q] && cur@[q].wf(),
            forall|q: int|
                0 <= q < i ==> spec_error_at(lv, loutsv, teasv, func_error, q) is Some
                    && spec_update_layer(
                    #[trigger] lv[q],
                    spec_error_at(lv, loutsv, teasv, func_error, q).unwrap(),
                    rate@,
                ) == Some(cur@[q]@),
            forall|q: int| 0 <= q < i ==> (#[trigger] cur@[q]).wf(),
            forall|q: int|
                0 <= q < i ==> (#[trigger] cur@[q])@.len_row == lv[q].len_row && spec_num_rows(
                    cur@[q]@,
                ) == spec_num_rows(lv[q]),
        decreases n - i,
    {
        let ghost e_at = spec_error_at(lv, loutsv, teasv, func_error, i as int).unwrap();
        let ghost ev = errs_rev@[n as int - 1 - i as int].deep_view();
        proof {
            assert(spec_error_at(lv, loutsv, teasv, func_error, n as int - 1 - (n as int - 1
                - i as int)) == Some(ev));
            assert(e_at == ev);
            assert(cur@[i as int]@ == lv[i as int]);
        }
        match cur[i].update_weights(&errs_rev[n - 1 - i], rate) {
            Ok(_) => {},
            Err(_) => {
                proof {
                    assert(spec_update_weights(lv[i as int], ev, rate@) is None);
                    assert(spec_update_layer(lv[i as int], e_at, rate@) is None);
                    if spec_step_updates_ok(lv, loutsv, teasv, func_error, rate@) {
                        assert((#[trigger] spec_error_at(lv, loutsv, teasv, func_error, i as int))
                            is Some && spec_update_layer(lv[i as int], e_at, rate@) is Some);
                    }
                }
                return Err(LayerError::Overflow);
            },
        }
        let ghost mid = cur@[i as int]@;
        proof {
            assert(mid.bias == lv[i as int].bias);
            lemma_update_bias_prefix_same(mid, lv[i as int], ev, rate@, mid.bias.len() as int);
        }
        match cur[i].update_bias(&errs_rev[n - 1 - i], rate) {
            Ok(_) => {},
            Err(_) => {
                proof {
                    assert(spec_update_bias(lv[i as int], ev, rate@) is None);
                    assert(spec_update_layer(lv[i as int], e_at, rate@) is None);
                    if spec_step_updates_ok(lv, loutsv, teasv, func_error, rate@) {
                        assert((#[trigger] spec_error_at(lv, loutsv, teasv, func_error, i as int))
                            is Some && spec_update_layer(lv[i as int], e_at, rate@) is Some);
                    }
                }
                return Err(LayerError::Overflow);
            },
        }
        proof {
            assert(spec_update_layer(lv[i as int], ev, rate@) == Some(cur@[i as int]@));
        }
        i = i + 1;
    }
    proof {
        assert forall|q: int| 0 <= q < lv.len() implies (#[trigger] spec_error_at(
            lv,
            loutsv,
            teasv,
            func_error,
            q,
        )) is Some && spec_update_layer(
            lv[q],
            spec_error_at(lv, loutsv, teasv, func_error, q).unwrap(),
            rate@,
        ) is Some by {
            assert(spec_update_layer(
                lv[q],
                spec_error_at(lv, loutsv, teasv, func_error, q).unwrap(),
                rate@,
            ) == Some(cur@[q]@));
        }
    }
    Ok(cur)
}

/// One training iteration on an owned chain: seed, propagate, total the
/// loss; below the threshold the chain comes back untouched with the loss
/// and a convergence flag, otherwise every layer comes back updated by its
/// error signal.  An unrepresentable intermediate gives `Overflow`.
pub fn train_step(
    layers: Vec<FeedForward>,
    inputs: &Vec<DualNumber>,
    teachers: &Vec<DualNumber>,
    func_error: ErrorFunction,
    rate: Rational,
    threshold: Rational,
) -> (r: Result<(Vec<FeedForward>, Rational, bool), LayerError>)
    requires
        spec_chain_wf(layers.deep_view(), inputs@.len() as int, teachers@.len() as int),
        forall|i: int| 0 <= i < inputs@.len() ==> (#[trigger] inputs@[i]).wf(),
        forall|i: int| 0 <= i < teachers@.len() ==> (#[trigger] teachers@[i]).wf(),
        rate.wf(),
        threshold.wf(),
    ensures
        match spec_train_step(
            layers.deep_view(),
            inputs.deep_view(),
            teachers.deep_view(),
            func_error,
            rate@,
            threshold@,
        ) {
            Some(st) => r is Ok && r.unwrap().0.deep_view() == st.layers && r.unwrap().1@
                == st.loss && r.unwrap().1.wf() && r.unwrap().2 == st.converged,
            None => r == Err::<(Vec<FeedForward>, Rational, bool), LayerError>(
                LayerError::Overflow,
            ),
        },
        r is Ok ==> spec_chain_wf(
            r.unwrap().0.deep_view(),
            inputs@.len() as int,
            teachers@.len() as int,
        ),
{
    proof {
        reveal(spec_train_step);
    }
    let ghost lv = layers.deep_view();
    let ghost insv = inputs.deep_view();
    let ghost teasv = teachers.deep_view();
    let ghost stepv = spec_train_step(lv, insv, teasv, func_error, rate@, threshold@);
    let n: usize = layers.len();
    proof {
        assert(forall|q: int| 0 <= q < n ==> (#[trigger] layers@[q])@ == lv[q]);
        assert(forall|q: int| 0 <= q < n ==> (#[trigger] layers@[q]).wf());
    }
    let seeded = seed_inputs(inputs);
    let ghost seededv = spec_seed(insv);
    let louts = match forward_chain(&layers, &seeded) {
        Ok(l) => l,
        Err(_) => {
            return Err(LayerError::Overflow);
        },
    };
    let ghost loutsv = louts.deep_view();
    proof {
        assert(louts@[n - 1].deep_view() == loutsv[n - 1]);
    }
    let loss = match total_loss(func_error, &louts[n - 1], teachers) {
        Ok(l) => l,
        Err(_) => {
            return Err(LayerError::Overflow);
        },
    };
    let ghost lossv = loss@;
    if loss.value.lt(threshold) {
        proof {
            assert(stepv == Some(StepV { layers: lv, loss: lossv.v, converged: true }));
        }
        return Ok((layers, loss.value, true));
    }
    let errs_rev = match backward_errors(
        &layers,
        &louts,
        teachers,
        func_error,
        Ghost(lv),
        Ghost(loutsv),
        Ghost(teasv),
    ) {
        Ok(e) => e,
        Err(_) => {
            proof {
                let i = choose|i: int|
                    0 <= i < lv.len() && (#[trigger] spec_error_at(
                        lv,
                        loutsv,
                        teasv,
                        func_error,
                        i,
                    )) is None;
                if spec_step_updates_ok(lv, loutsv, teasv, func_error, rate@) {
                    assert(spec_error_at(lv, loutsv, teasv, func_error, i) is Some);
                }
                assert(stepv is None);
            }
            return Err(LayerError::Overflow);
        },
    };
    let cur = match apply_updates(
        layers,
        &errs_rev,
        rate,
        func_error,
        Ghost(lv),
        Ghost(loutsv),
        Ghost(teasv),
    ) {
        Ok(c) => c,
        Err(_) => {
            proof {
                assert(stepv is None);
            }
            return Err(LayerError::Overflow);
        },
    };
    proof {
        let updated = Seq::new(
            lv.len(),
            |q: int| spec_update_layer(
                lv[q],
                spec_error_at(lv, loutsv, teasv, func_error, q).unwrap(),
                rate@,
            ).unwrap(),
        );
        assert(cur.deep_view() =~= updated);
        assert(stepv == Some(StepV { layers: updated, loss: lossv.v, converged: false }));
        assert(spec_chain_wf(cur.deep_view(), inputs@.len() as int, teachers@.len() as int));
    }
    Ok((cur, loss.value, false))
}



/// Run at most `cap` iterations, mirroring the run specification: step,
/// stop on convergence or when the cap is exhausted, otherwise recurse on
/// the updated chain.
fn train_go(
    layers: Vec<FeedForward>,
    inputs: &Vec<DualNumber>,
    teachers: &Vec<DualNumber>,
    func_error: ErrorFunction,
    rate: Rational,
    threshold: Rational,
    cap: usize,
) -> (r: Result<(Vec<FeedForward>, Rational, bool, usize), LayerError>)
    requires
        spec_chain_wf(layers.deep_view(), inputs@.len() as int, teachers@.len() as int),
        forall|i: int| 0 <= i < inputs@.len() ==> (#[trigger] inputs@[i]).wf(),
        forall|i: int| 0 <= i < teachers@.len() ==> (#[trigger] teachers@[i]).wf(),
        rate.wf(),
        threshold.wf(),
        cap >= 1,
    ensures
        match spec_train_run(
            layers.deep_view(),
            inputs.deep_view(),
            teachers.deep_view(),
            func_error,
            rate@,
            threshold@,
            cap as nat,
        ) {
            Some(run) => r is Ok && r.unwrap().0.deep_view() == run.layers && r.unwrap().1@
                == run.loss && r.unwrap().1.wf() && r.unwrap().2 == run.converged && r.unwrap().3
                as nat == run.iterations && 1 <= r.unwrap().3 <= cap,
            None => r == Err::<(Vec<FeedForward>, Rational, bool, usize), LayerError>(
                LayerError::Overflow,
            ),
        },
    decreases cap,
{
    let res = match train_step(layers, inputs, teachers, func_error, rate, threshold) {
        Ok(res) => res,
        Err(_) => {
            return Err(LayerError::Overflow);
        },
    };
    let (next, loss, converged) = res;
    if converged {
        Ok((next, loss, true, 1))
    } else if cap == 1 {
        Ok((next, loss, false, 1))
    } else {
        match train_go(next, inputs, teachers, func_error, rate, threshold, cap - 1) {
            Ok((fin, l2, c2, it2)) => Ok((fin, l2, c2, it2 + 1)),
            Err(_) => Err(LayerError::Overflow),
        }
    }
}

/// A whole training run on an owned chain: step until the loss falls below
/// the threshold (converged) or `cap` iterations have run (exhausted).  The
/// returned report carries the outcome, the iteration count and the last
/// loss; an unrepresentable intermediate gives `Overflow`.
pub fn train(
    layers: Vec<FeedForward>,
    inputs: &Vec<DualNumber>,
    teachers: &Vec<DualNumber>,
    func_error: ErrorFunction,
    rate: Rational,
    threshold: Rational,
    cap: usize,
) -> (r: Result<(Vec<FeedForward>, TrainReport), LayerError>)
    requires
        spec_chain_wf(layers.deep_view(), inputs@.len() as int, teachers@.len() as int),
        forall|i: int| 0 <= i < inputs@.len() ==> (#[trigger] inputs@[i]).wf(),
        forall|i: int| 0 <= i < teachers@.len() ==> (#[trigger] teachers@[i]).wf(),
        rate.wf(),
        threshold.wf(),
        cap >= 1,
    ensures
        match spec_train_run(
            layers.deep_view(),
            inputs.deep_view(),
            teachers.deep_view(),
            func_error,
            rate@,
            threshold@,
            cap as nat,
        ) {
            Some(run) => r is Ok && r.unwrap().0.deep_view() == run.layers && r.unwrap().1.loss@
                == run.loss && r.unwrap().1.loss.wf() && r.unwrap().1.iterations as nat
                == run.iterations && r.unwrap().1.converged == run.converged,
            None => r == Err::<(Vec<FeedForward>, TrainReport), LayerError>(LayerError::Overflow),
        },
{
    match train_go(layers, inputs, teachers, func_error, rate, threshold, cap) {
        Ok((fin, loss, converged, iterations)) => Ok(
            (fin, TrainReport { converged, iterations, loss }),
        ),
        Err(_) => Err(LayerError::Overflow),
    }
}

} // verus!
