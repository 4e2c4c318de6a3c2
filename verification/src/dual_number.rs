//! Forward-mode automatic differentiation on exact rational scalars.
//!
//! A dual number carries a value together with the derivative of that value
//! with respect to one seeded variable; every arithmetic operation propagates
//! the tangent by the chain rule.  Checked operations return `None` exactly
//! when a component's canonical form does not fit the 64-bit representation,
//! or — for `div` and `recip` — when the divisor's value is zero, which is
//! this crate's explicit surfacing of a domain violation.

use vstd::prelude::*;

verus! {

use crate::rational::{
    Ratv, Rational, rat_zero, rat_one, rat_lt, rat_abs_v, rat_round, ratv_wf, rat_eqv,
    spec_rat_add, spec_rat_sub, spec_rat_mul, spec_rat_div, radd, rsub, rmul,
    lemma_norm_equiv, lemma_prod_pos, lemma_radd_congruence, lemma_eqv_trans,
    lemma_rat_add_comm, lemma_rat_mul_comm, lemma_rat_add_assoc_values,
    lemma_rat_mul_assoc_values, lemma_rat_add_zero, lemma_rat_mul_zero, lemma_rat_zero_wf,
    lemma_norm_of_wf, lemma_wf_zero_num,
};

/// Mathematical view of a dual number: value and tangent.
pub ghost struct DualV {
    pub v: Ratv,
    pub t: Ratv,
}

/// A value together with its derivative with respect to the seeded variable.
#[derive(Clone, Copy, Debug, PartialEq, Eq, Structural)]
pub struct DualNumber {
    pub value: Rational,
    pub tangent: Rational,
}

impl View for DualNumber {
    type V = DualV;

    open spec fn view(&self) -> DualV {
        DualV { v: self.value@, t: self.tangent@ }
    }
}

impl DeepView for DualNumber {
    type V = DualV;

    open spec fn deep_view(&self) -> DualV {
        self.view()
    }
}

/// Both components are canonical rationals.
pub open spec fn dualv_wf(d: DualV) -> bool {
    ratv_wf(d.v) && ratv_wf(d.t)
}

/// The dual zero: value zero, tangent zero.
pub open spec fn dual_zero() -> DualV {
    DualV { v: rat_zero(), t: rat_zero() }
}

/// The dual one: value one, tangent zero.
pub open spec fn dual_one() -> DualV {
    DualV { v: rat_one(), t: rat_zero() }
}

/// A fresh dual number for a constant: tangent zero.
pub open spec fn spec_dual_new(v: Ratv) -> DualV {
    DualV { v: v, t: rat_zero() }
}

/// Seeding: the copy whose tangent is one.
pub open spec fn spec_dual_select(d: DualV) -> DualV {
    DualV { v: d.v, t: rat_one() }
}

/// Un-seeding: the copy whose tangent is zero.
pub open spec fn spec_dual_exclude(d: DualV) -> DualV {
    DualV { v: d.v, t: rat_zero() }
}

/// View of a checked dual result.
pub open spec fn opt_dualv(r: Option<DualNumber>) -> Option<DualV> {
    match r {
        Some(x) => Some(x@),
        None => None,
    }
}

/// Checked dual sum: both components add.
pub open spec fn spec_dual_add(a: DualV, b: DualV) -> Option<DualV> {
    match (spec_rat_add(a.v, b.v), spec_rat_add(a.t, b.t)) {
        (Some(v), Some(t)) => Some(DualV { v, t }),
        _ => None,
    }
}

/// Checked dual difference.
pub open spec fn spec_dual_sub(a: DualV, b: DualV) -> Option<DualV> {
    match (spec_rat_sub(a.v, b.v), spec_rat_sub(a.t, b.t)) {
        (Some(v), Some(t)) => Some(DualV { v, t }),
        _ => None,
    }
}

/// Checked dual product: values multiply, the tangent follows the product
/// rule `a.t * b.v + b.t * a.v`.
pub open spec fn spec_dual_mul(a: DualV, b: DualV) -> Option<DualV> {
    match (spec_rat_mul(a.v, b.v), spec_rat_mul(a.t, b.v), spec_rat_mul(b.t, a.v)) {
        (Some(v), Some(p), Some(q)) => match spec_rat_add(p, q) {
            Some(t) => Some(DualV { v, t }),
            None => None,
        },
        _ => None,
    }
}

/// Checked dual quotient: value `a.v / b.v`, tangent
/// `(a.t * b.v - b.t * a.v) / (b.v * b.v)`; `None` when `b.v` is zero.
pub open spec fn spec_dual_div(a: DualV, b: DualV) -> Option<DualV> {
    match (
        spec_rat_div(a.v, b.v),
        spec_rat_mul(a.t, b.v),
        spec_rat_mul(b.t, a.v),
        spec_rat_mul(b.v, b.v),
    ) {
        (Some(v), Some(p), Some(q), Some(den)) => match spec_rat_sub(p, q) {
            Some(num) => match spec_rat_div(num, den) {
                Some(t) => Some(DualV { v, t }),
                None => None,
            },
            None => None,
        },
        _ => None,
    }
}

/// Checked dual reciprocal: one over the operand.
pub open spec fn spec_dual_recip(a: DualV) -> Option<DualV> {
    spec_dual_div(dual_one(), a)
}

/// Exact dual negation.
pub open spec fn spec_dual_neg(a: DualV) -> DualV {
    DualV { v: Ratv { n: -a.v.n, d: a.v.d }, t: Ratv { n: -a.t.n, d: a.t.d } }
}

/// The operand with the larger value; the first one at ties.
pub open spec fn spec_dual_max(a: DualV, b: DualV) -> DualV {
    if rat_lt(a.v, b.v) {
        b
    } else {
        a
    }
}

/// The operand with the smaller value; the first one at ties.
pub open spec fn spec_dual_min(a: DualV, b: DualV) -> DualV {
    if rat_lt(b.v, a.v) {
        b
    } else {
        a
    }
}

/// Absolute value of the value component; the tangent is reset to zero.
pub open spec fn spec_dual_abs(a: DualV) -> DualV {
    DualV { v: rat_abs_v(a.v), t: rat_zero() }
}

/// Value rounded half away from zero; the tangent is kept.
pub open spec fn spec_dual_round(a: DualV) -> DualV {
    DualV { v: rat_round(a.v), t: a.t }
}

/// The checked product of `k` copies of `a`, folded from the left onto one.
pub open spec fn spec_dual_pow_pos(a: DualV, k: nat) -> Option<DualV>
    decreases k,
{
    if k == 0 {
        Some(dual_one())
    } else {
        match spec_dual_pow_pos(a, (k - 1) as nat) {
            Some(p) => spec_dual_mul(p, a),
            None => None,
        }
    }
}

/// Checked integer power: zero values give the dual zero for every exponent;
/// a negative exponent is the reciprocal of the positive power.
pub open spec fn spec_dual_powi(a: DualV, n: int) -> Option<DualV> {
    if a.v == rat_zero() {
        Some(dual_zero())
    } else if n >= 0 {
        spec_dual_pow_pos(a, n as nat)
    } else {
        match spec_dual_pow_pos(a, (-n) as nat) {
            Some(p) => spec_dual_recip(p),
            None => None,
        }
    }
}

impl DualNumber {
    /// Both components are canonical rationals.
    pub open spec fn wf(self) -> bool {
        dualv_wf(self@)
    }

    /// A fresh dual number for a constant: the tangent starts at zero.
    pub fn new(value: Rational) -> (r: DualNumber)
        requires
            value.wf(),
        ensures
            r@ == spec_dual_new(value@),
            r.wf(),
    {
        DualNumber { value, tangent: Rational::zero() }
    }

    /// Mark this scalar as the differentiation variable: tangent one.
    pub fn select(self) -> (r: DualNumber)
        requires
            self.wf(),
        ensures
            r@ == spec_dual_select(self@),
            r.wf(),
    {
        DualNumber { value: self.value, tangent: Rational::one() }
    }

    /// Drop this scalar from differentiation: tangent zero.
    pub fn exclude(self) -> (r: DualNumber)
        requires
            self.wf(),
        ensures
            r@ == spec_dual_exclude(self@),
            r.wf(),
    {
        DualNumber { value: self.value, tangent: Rational::zero() }
    }

    /// Checked sum.
    pub fn add(self, other: DualNumber) -> (r: Option<DualNumber>)
        requires
            self.wf(),
            other.wf(),
        ensures
            opt_dualv(r) == spec_dual_add(self@, other@),
            r is Some ==> r.unwrap().wf(),
    {
        match (self.value.add(other.value), self.tangent.add(other.tangent)) {
            (Some(v), Some(t)) => Some(DualNumber { value: v, tangent: t }),
            _ => None,
        }
    }

    /// Checked difference.
    pub fn sub(self, other: DualNumber) -> (r: Option<DualNumber>)
        requires
            self.wf(),
            other.wf(),
        ensures
            opt_dualv(r) == spec_dual_sub(self@, other@),
            r is Some ==> r.unwrap().wf(),
    {
        match (self.value.sub(other.value), self.tangent.sub(other.tangent)) {
            (Some(v), Some(t)) => Some(DualNumber { value: v, tangent: t }),
            _ => None,
        }
    }

    /// Checked product, with the product rule on the tangent.
    pub fn mul(self, other: DualNumber) -> (r: Option<DualNumber>)
        requires
            self.wf(),
            other.wf(),
        ensures
            opt_dualv(r) == spec_dual_mul(self@, other@),
            r is Some ==> r.unwrap().wf(),
    {
        match (
            self.value.mul(other.value),
            self.tangent.mul(other.value),
            other.tangent.mul(self.value),
        ) {
            (Some(v), Some(p), Some(q)) => match p.add(q) {
                Some(t) => Some(DualNumber { value: v, tangent: t }),
                None => None,
            },
            _ => None,
        }
    }

    /// Checked quotient; `None` when the divisor's value is zero.
    pub fn div(self, other: DualNumber) -> (r: Option<DualNumber>)
        requires
            self.wf(),
            other.wf(),
        ensures
            opt_dualv(r) == spec_dual_div(self@, other@),
            r is Some ==> r.unwrap().wf(),
    {
        match (
            self.value.div(other.value),
            self.tangent.mul(other.value),
            other.tangent.mul(self.value),
            other.value.mul(other.value),
        ) {
            (Some(v), Some(p), Some(q), Some(den)) => match p.sub(q) {
                Some(num) => match num.div(den) {
                    Some(t) => Some(DualNumber { value: v, tangent: t }),
                    None => None,
                },
                None => None,
            },
            _ => None,
        }
    }

    /// Checked reciprocal; `None` when the value is zero.
    pub fn recip(self) -> (r: Option<DualNumber>)
        requires
            self.wf(),
        ensures
            opt_dualv(r) == spec_dual_recip(self@),
            r is Some ==> r.unwrap().wf(),
    {
        DualNumber::new(Rational::one()).div(self)
    }

    /// Exact negation of both components.
    pub fn neg(self) -> (r: DualNumber)
        requires
            self.wf(),
        ensures
            r@ == spec_dual_neg(self@),
            r.wf(),
    {
        DualNumber { value: self.value.neg(), tangent: self.tangent.neg() }
    }

    /// The operand with the larger value, tangent included; the receiver at ties.
    pub fn max(self, other: DualNumber) -> (r: DualNumber)
        requires
            self.wf(),
            other.wf(),
        ensures
            r@ == spec_dual_max(self@, other@),
            r.wf(),
    {
        if self.value.lt(other.value) {
            other
        } else {
            self
        }
    }

    /// The operand with the smaller value, tangent included; the receiver at ties.
    pub fn min(self, other: DualNumber) -> (r: DualNumber)
        requires
            self.wf(),
            other.wf(),
        ensures
            r@ == spec_dual_min(self@, other@),
            r.wf(),
    {
        if other.value.lt(self.value) {
            other
        } else {
            self
        }
    }

    /// Absolute value; the tangent is reset to zero.
    pub fn abs(self) -> (r: DualNumber)
        requires
            self.wf(),
        ensures
            r@ == spec_dual_abs(self@),
            r.wf(),
    {
        DualNumber { value: self.value.abs(), tangent: Rational::zero() }
    }

    /// Round the value half away from zero; the tangent is kept.
    pub fn round(self) -> (r: DualNumber)
        requires
            self.wf(),
        ensures
            r@ == spec_dual_round(self@),
            r.wf(),
    {
        DualNumber { value: self.value.round_half_away(), tangent: self.tangent }
    }

    /// Checked integer power.
    pub fn powi(self, n: i32) -> (r: Option<DualNumber>)
        requires
            self.wf(),
        ensures
            opt_dualv(r) == spec_dual_powi(self@, n as int),
            r is Some ==> r.unwrap().wf(),
    {
        if self.value.num() == 0 {
            proof {
                lemma_wf_zero_num(self@.v);
            }
            return Some(
                DualNumber { value: Rational::zero(), tangent: Rational::zero() },
            );
        }
        let m: i64 = if n < 0 {
            -(n as i64)
        } else {
            n as i64
        };
        let mut acc = DualNumber::new(Rational::one());
        let mut i: i64 = 0;
        while i < m
            invariant
                0 <= i <= m,
                self.wf(),
                acc.wf(),
                self@.v.n != 0,
                m as int == (if n < 0 { -(n as int) } else { n as int }),
                spec_dual_pow_pos(self@, i as nat) == Some(acc@),
            decreases m - i,
        {
            match acc.mul(self) {
                Some(next) => {
                    acc = next;
                },
                None => {
                    proof {
                        lemma_pow_pos_none_mono(self@, (i + 1) as nat, m as nat);
                    }
                    return None;
                },
            }
            i = i + 1;
        }
        if n >= 0 {
            Some(acc)
        } else {
            acc.recip()
        }
    }
}

/// Once the power fold fails, every longer fold fails.
proof fn lemma_pow_pos_none_mono(a: DualV, j: nat, m: nat)
    requires
        j <= m,
        spec_dual_pow_pos(a, j) is None,
    ensures
        spec_dual_pow_pos(a, m) is None,
    decreases m,
{
    if m > j {
        lemma_pow_pos_none_mono(a, j, (m - 1) as nat);
    }
}

/// The product rule: the tangent of a checked dual product denotes exactly
/// `a.t * b.v + b.t * a.v`.
pub proof fn lemma_dual_mul_product_rule(a: DualV, b: DualV)
    requires
        dualv_wf(a),
        dualv_wf(b),
        spec_dual_mul(a, b) is Some,
    ensures
        rat_eqv(spec_dual_mul(a, b).unwrap().t, radd(rmul(a.t, b.v), rmul(b.t, a.v))),
{
    let p = spec_rat_mul(a.t, b.v).unwrap();
    let q = spec_rat_mul(b.t, a.v).unwrap();
    let t = spec_dual_mul(a, b).unwrap().t;
    lemma_prod_pos(a.t.d, b.v.d);
    lemma_prod_pos(b.t.d, a.v.d);
    lemma_norm_equiv(rmul(a.t, b.v).n, rmul(a.t, b.v).d);
    lemma_norm_equiv(rmul(b.t, a.v).n, rmul(b.t, a.v).d);
    lemma_prod_pos(p.d, q.d);
    lemma_prod_pos(rmul(a.t, b.v).d, rmul(b.t, a.v).d);
    lemma_norm_equiv(radd(p, q).n, radd(p, q).d);
    lemma_radd_congruence(p, q, rmul(a.t, b.v), rmul(b.t, a.v));
    lemma_eqv_trans(t, radd(p, q), radd(rmul(a.t, b.v), rmul(b.t, a.v)));
}

/// The value of a checked dual sum denotes exactly the sum of the values,
/// and likewise for the tangent.
pub proof fn lemma_dual_add_exact(a: DualV, b: DualV)
    requires
        dualv_wf(a),
        dualv_wf(b),
        spec_dual_add(a, b) is Some,
    ensures
        rat_eqv(spec_dual_add(a, b).unwrap().v, radd(a.v, b.v)),
        rat_eqv(spec_dual_add(a, b).unwrap().t, radd(a.t, b.t)),
{
    lemma_prod_pos(a.v.d, b.v.d);
    lemma_prod_pos(a.t.d, b.t.d);
    lemma_norm_equiv(radd(a.v, b.v).n, radd(a.v, b.v).d);
    lemma_norm_equiv(radd(a.t, b.t).n, radd(a.t, b.t).d);
}

/// The value of a checked dual difference denotes exactly the difference of
/// the values, and likewise for the tangent.
pub proof fn lemma_dual_sub_exact(a: DualV, b: DualV)
    requires
        dualv_wf(a),
        dualv_wf(b),
        spec_dual_sub(a, b) is Some,
    ensures
        rat_eqv(spec_dual_sub(a, b).unwrap().v, rsub(a.v, b.v)),
        rat_eqv(spec_dual_sub(a, b).unwrap().t, rsub(a.t, b.t)),
{
    lemma_prod_pos(a.v.d, b.v.d);
    lemma_prod_pos(a.t.d, b.t.d);
    lemma_norm_equiv(rsub(a.v, b.v).n, rsub(a.v, b.v).d);
    lemma_norm_equiv(rsub(a.t, b.t).n, rsub(a.t, b.t).d);
}

/// The value of a checked dual product denotes exactly the product of the
/// values.
pub proof fn lemma_dual_mul_exact(a: DualV, b: DualV)
    requires
        dualv_wf(a),
        dualv_wf(b),
        spec_dual_mul(a, b) is Some,
    ensures
        rat_eqv(spec_dual_mul(a, b).unwrap().v, rmul(a.v, b.v)),
{
    lemma_prod_pos(a.v.d, b.v.d);
    lemma_norm_equiv(rmul(a.v, b.v).n, rmul(a.v, b.v).d);
}

/// Dual addition is commutative, exactly.
pub proof fn lemma_dual_add_comm(a: DualV, b: DualV)
    ensures
        spec_dual_add(a, b) == spec_dual_add(b, a),
{
    lemma_rat_add_comm(a.v, b.v);
    lemma_rat_add_comm(a.t, b.t);
}

/// Dual multiplication is commutative, exactly.
pub proof fn lemma_dual_mul_comm(a: DualV, b: DualV)
    ensures
        spec_dual_mul(a, b) == spec_dual_mul(b, a),
{
    lemma_rat_mul_comm(a.v, b.v);
    lemma_rat_mul_comm(a.t, b.v);
    lemma_rat_mul_comm(b.t, a.v);
    if spec_rat_mul(a.t, b.v) is Some && spec_rat_mul(b.t, a.v) is Some {
        lemma_rat_add_comm(spec_rat_mul(a.t, b.v).unwrap(), spec_rat_mul(b.t, a.v).unwrap());
    }
}

/// When both ways of bracketing a dual sum succeed, the results denote the
/// same dual number, componentwise.
pub proof fn lemma_dual_add_assoc_values(a: DualV, b: DualV, c: DualV, ab: DualV, abc: DualV, bc: DualV, a_bc: DualV)
    requires
        dualv_wf(a),
        dualv_wf(b),
        dualv_wf(c),
        spec_dual_add(a, b) == Some(ab),
        spec_dual_add(ab, c) == Some(abc),
        spec_dual_add(b, c) == Some(bc),
        spec_dual_add(a, bc) == Some(a_bc),
    ensures
        rat_eqv(abc.v, a_bc.v),
        rat_eqv(abc.t, a_bc.t),
{
    lemma_rat_add_assoc_values(a.v, b.v, c.v, ab.v, abc.v, bc.v, a_bc.v);
    lemma_rat_add_assoc_values(a.t, b.t, c.t, ab.t, abc.t, bc.t, a_bc.t);
}

/// When both ways of bracketing a dual product succeed, the results denote
/// the same value component.
pub proof fn lemma_dual_mul_assoc_values(a: DualV, b: DualV, c: DualV, ab: DualV, abc: DualV, bc: DualV, a_bc: DualV)
    requires
        dualv_wf(a),
        dualv_wf(b),
        dualv_wf(c),
        spec_dual_mul(a, b) == Some(ab),
        spec_dual_mul(ab, c) == Some(abc),
        spec_dual_mul(b, c) == Some(bc),
        spec_dual_mul(a, bc) == Some(a_bc),
    ensures
        rat_eqv(abc.v, a_bc.v),
    {
    lemma_rat_mul_assoc_values(a.v, b.v, c.v, ab.v, abc.v, bc.v, a_bc.v);
}

/// On zero-tangent operands, dual arithmetic reduces to scalar arithmetic
/// with a zero tangent: the result's tangent is zero and its value is the
/// scalar result.
pub proof fn lemma_dual_zero_tangent(a: DualV, b: DualV)
    requires
        dualv_wf(a),
        dualv_wf(b),
        a.t == rat_zero(),
        b.t == rat_zero(),
    ensures
        spec_dual_add(a, b) is Some <==> spec_rat_add(a.v, b.v) is Some,
        spec_dual_add(a, b) is Some ==> spec_dual_add(a, b).unwrap() == (DualV {
            v: spec_rat_add(a.v, b.v).unwrap(),
            t: rat_zero(),
        }),
        spec_dual_sub(a, b) is Some <==> spec_rat_sub(a.v, b.v) is Some,
        spec_dual_sub(a, b) is Some ==> spec_dual_sub(a, b).unwrap() == (DualV {
            v: spec_rat_sub(a.v, b.v).unwrap(),
            t: rat_zero(),
        }),
        spec_dual_mul(a, b) is Some <==> spec_rat_mul(a.v, b.v) is Some,
        spec_dual_mul(a, b) is Some ==> spec_dual_mul(a, b).unwrap() == (DualV {
            v: spec_rat_mul(a.v, b.v).unwrap(),
            t: rat_zero(),
        }),
{
    lemma_rat_zero_wf();
    lemma_norm_of_wf(rat_zero());
    lemma_rat_add_zero(rat_zero());
    assert(rsub(rat_zero(), rat_zero()) == Ratv { n: 0, d: 1 });
    lemma_rat_mul_zero(b.v);
    lemma_rat_mul_zero(a.v);
}

} // verus!
