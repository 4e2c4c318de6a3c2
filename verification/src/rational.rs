//! Exact rational scalars.
//!
//! Every scalar in this crate is a fraction of two machine integers, kept in
//! canonical form: the denominator is positive and the fraction is fully
//! reduced.  All operations are checked: an operation returns `None` exactly
//! when the canonical form of the mathematical result does not fit in the
//! 64-bit fields (or, for division, when the divisor is zero).  This makes
//! every arithmetic contract exact: the `Some`/`None` outcome is a function
//! of the operands alone.

use vstd::prelude::*;

verus! {

use vstd::arithmetic::div_mod::{
    lemma_fundamental_div_mod,
    lemma_mod_self_0,
    lemma_small_mod,
    lemma_mod_multiples_basic,
    lemma_add_mod_noop,
    lemma_mul_mod_noop_left,
    lemma_breakdown,
    lemma_div_multiples_vanish,
    lemma_mod_division_less_than_divisor,
};
use vstd::arithmetic::mul::{
    lemma_mul_is_commutative,
    lemma_mul_is_associative,
    lemma_mul_equality_converse,
};

/// Mathematical view of a rational number: an integer numerator over a
/// positive integer denominator.
pub ghost struct Ratv {
    pub n: int,
    pub d: int,
}

/// Greatest common divisor by Euclid's algorithm.
pub open spec fn gcd(a: nat, b: nat) -> nat
    decreases b,
{
    if b == 0 {
        a
    } else {
        gcd(b, a % b)
    }
}

/// Magnitude of an integer.
pub open spec fn int_abs(n: int) -> nat {
    if n >= 0 {
        n as nat
    } else {
        (-n) as nat
    }
}

/// `gcd` yields a positive common divisor of both arguments.
pub proof fn lemma_gcd_divides(a: nat, b: nat)
    requires
        a > 0 || b > 0,
    ensures
        gcd(a, b) > 0,
        a as int % (gcd(a, b) as int) == 0,
        b as int % (gcd(a, b) as int) == 0,
    decreases b,
{
    if b == 0 {
        lemma_mod_self_0(a as int);
        lemma_small_mod(0, a);
    } else {
        lemma_mod_division_less_than_divisor(a as int, b as int);
        lemma_gcd_divides(b, a % b);
        let g = gcd(b, a % b) as int;
        lemma_fundamental_div_mod(a as int, b as int);
        let q = a as int / b as int;
        assert((b as int * q) % g == 0) by {
            lemma_mul_mod_noop_left(b as int, q, g);
            assert(b as int % g == 0);
            assert((b as int % g) * q == 0);
            lemma_small_mod(0, g as nat);
        }
        assert(a as int % g == 0) by {
            lemma_add_mod_noop(b as int * q, a as int % b as int, g);
            lemma_small_mod(0, g as nat);
        }
    }
}

/// Scaling both arguments scales the gcd.
pub proof fn lemma_gcd_scale(k: nat, a: nat, b: nat)
    requires
        k > 0,
    ensures
        gcd(k * a, k * b) == k * gcd(a, b),
    decreases b,
{
    if b == 0 {
        assert(k * b == 0);
    } else {
        assert(k * b > 0) by {
            vstd::arithmetic::mul::lemma_mul_strictly_positive(k as int, b as int);
        }
        assert((k * a) as int % (k * b) as int == (k * (a % b)) as int) by {
            lemma_breakdown(k as int * a as int, k as int, b as int);
            lemma_div_multiples_vanish(a as int, k as int);
            lemma_mod_multiples_basic(a as int, k as int);
            lemma_mul_is_commutative(a as int, k as int);
        }
        lemma_mod_division_less_than_divisor(a as int, b as int);
        lemma_gcd_scale(k, b, a % b);
    }
}

/// Dividing out the gcd leaves a reduced pair.
pub proof fn lemma_gcd_reduced(a: nat, b: nat)
    requires
        b > 0,
    ensures
        gcd(a, b) > 0,
        gcd(a / gcd(a, b), b / gcd(a, b)) == 1,
{
    let g = gcd(a, b);
    lemma_gcd_divides(a, b);
    lemma_fundamental_div_mod(a as int, g as int);
    lemma_fundamental_div_mod(b as int, g as int);
    assert(a == g * (a / g));
    assert(b == g * (b / g));
    lemma_gcd_scale(g, a / g, b / g);
    assert(g * gcd(a / g, b / g) == g * 1);
    lemma_mul_equality_converse(g as int, gcd(a / g, b / g) as int, 1int);
}

/// Canonical form of a fraction with a positive denominator: divide both
/// parts by their gcd, keeping the sign on the numerator.
pub open spec fn rat_norm(n: int, d: int) -> Ratv
    recommends
        d > 0,
{
    let g = gcd(int_abs(n), d as nat) as int;
    if n >= 0 {
        Ratv { n: n / g, d: d / g }
    } else {
        Ratv { n: -((-n) / g), d: d / g }
    }
}

/// Canonical form of a fraction whose denominator may be negative.
pub open spec fn rat_norm_signed(n: int, d: int) -> Ratv
    recommends
        d != 0,
{
    if d < 0 {
        rat_norm(-n, -d)
    } else {
        rat_norm(n, d)
    }
}

/// Whether a canonical fraction fits in the 64-bit representation.
pub open spec fn rat_fits(r: Ratv) -> bool {
    &&& -(i64::MAX as int) <= r.n <= i64::MAX as int
    &&& 1 <= r.d <= i64::MAX as int
}

/// Well-formed view: bounded, positive denominator, fully reduced.
pub open spec fn ratv_wf(r: Ratv) -> bool {
    &&& rat_fits(r)
    &&& gcd(int_abs(r.n), r.d as nat) == 1
}

/// Two fractions denote the same rational number (cross multiplication).
pub open spec fn rat_eqv(a: Ratv, b: Ratv) -> bool {
    a.n * b.d == b.n * a.d
}

/// Raw (unreduced) sum of two fractions.
pub open spec fn radd(a: Ratv, b: Ratv) -> Ratv {
    Ratv { n: a.n * b.d + b.n * a.d, d: a.d * b.d }
}

/// Raw difference.
pub open spec fn rsub(a: Ratv, b: Ratv) -> Ratv {
    Ratv { n: a.n * b.d - b.n * a.d, d: a.d * b.d }
}

/// Raw product.
pub open spec fn rmul(a: Ratv, b: Ratv) -> Ratv {
    Ratv { n: a.n * b.n, d: a.d * b.d }
}

/// The canonical zero.
pub open spec fn rat_zero() -> Ratv {
    Ratv { n: 0, d: 1 }
}

/// The canonical one.
pub open spec fn rat_one() -> Ratv {
    Ratv { n: 1, d: 1 }
}

/// Checked sum: the canonical result, or `None` when it does not fit.
pub open spec fn spec_rat_add(a: Ratv, b: Ratv) -> Option<Ratv> {
    let r = rat_norm(radd(a, b).n, radd(a, b).d);
    if rat_fits(r) {
        Some(r)
    } else {
        None
    }
}

/// Checked difference.
pub open spec fn spec_rat_sub(a: Ratv, b: Ratv) -> Option<Ratv> {
    let r = rat_norm(rsub(a, b).n, rsub(a, b).d);
    if rat_fits(r) {
        Some(r)
    } else {
        None
    }
}

/// Checked product.
pub open spec fn spec_rat_mul(a: Ratv, b: Ratv) -> Option<Ratv> {
    let r = rat_norm(rmul(a, b).n, rmul(a, b).d);
    if rat_fits(r) {
        Some(r)
    } else {
        None
    }
}

/// Checked quotient: `None` on a zero divisor or when the result does not fit.
pub open spec fn spec_rat_div(a: Ratv, b: Ratv) -> Option<Ratv> {
    if b.n == 0 {
        None
    } else {
        let r = rat_norm_signed(a.n * b.d, a.d * b.n);
        if rat_fits(r) {
            Some(r)
        } else {
            None
        }
    }
}

/// Strict order on fractions with positive denominators.
pub open spec fn rat_lt(a: Ratv, b: Ratv) -> bool {
    a.n * b.d < b.n * a.d
}

/// An exact rational scalar in canonical form.
#[derive(Clone, Copy, Debug, PartialEq, Eq, Structural)]
pub struct Rational {
    num: i64,
    den: i64,
}

impl View for Rational {
    type V = Ratv;

    closed spec fn view(&self) -> Ratv {
        Ratv { n: self.num as int, d: self.den as int }
    }
}

impl DeepView for Rational {
    type V = Ratv;

    open spec fn deep_view(&self) -> Ratv {
        self.view()
    }
}

/// View of a checked result.
pub open spec fn opt_ratv(r: Option<Rational>) -> Option<Ratv> {
    match r {
        Some(x) => Some(x@),
        None => None,
    }
}

impl Rational {
    /// Canonical-form invariant.
    pub open spec fn wf(self) -> bool {
        ratv_wf(self@)
    }

    /// The numerator of the reduced fraction.
    pub fn num(&self) -> (r: i64)
        ensures
            r as int == self@.n,
    {
        self.num
    }

    /// The (positive) denominator of the reduced fraction.
    pub fn den(&self) -> (r: i64)
        ensures
            r as int == self@.d,
    {
        self.den
    }

    /// The rational zero.
    pub fn zero() -> (r: Rational)
        ensures
            r@ == rat_zero(),
            r.wf(),
    {
        proof {
            lemma_gcd_one_right(0);
        }
        Rational { num: 0, den: 1 }
    }

    /// The rational one.
    pub fn one() -> (r: Rational)
        ensures
            r@ == rat_one(),
            r.wf(),
    {
        proof {
            lemma_gcd_one_right(1);
        }
        Rational { num: 1, den: 1 }
    }

    /// Build the canonical rational `num / den`; `None` when `den` is zero
    /// or the reduced fraction does not fit.
    pub fn new(num: i64, den: i64) -> (r: Option<Rational>)
        ensures
            r is Some <==> den != 0 && rat_fits(rat_norm_signed(num as int, den as int)),
            r is Some ==> r.unwrap()@ == rat_norm_signed(num as int, den as int)
                && r.unwrap().wf(),
    {
        if den == 0 {
            None
        } else {
            let mut n: i128 = num as i128;
            let mut d: i128 = den as i128;
            if d < 0 {
                n = -n;
                d = -d;
            }
            reduce(n, d)
        }
    }

    /// Build the canonical rational for a whole number.
    pub fn from_int(i: i64) -> (r: Option<Rational>)
        ensures
            r is Some <==> i != i64::MIN,
            r is Some ==> r.unwrap()@ == (Ratv { n: i as int, d: 1 }) && r.unwrap().wf(),
    {
        proof {
            lemma_gcd_one_right(int_abs(i as int));
            vstd::arithmetic::div_mod::lemma_div_basics(i as int);
            vstd::arithmetic::div_mod::lemma_div_basics(-(i as int));
            vstd::arithmetic::div_mod::lemma_div_basics(1int);
            if i != i64::MIN {
                assert(rat_norm(i as int, 1) == Ratv { n: i as int, d: 1 });
            }
        }
        Rational::new(i, 1)
    }

    /// Exact negation.
    pub fn neg(self) -> (r: Rational)
        requires
            self.wf(),
        ensures
            r@ == (Ratv { n: -self@.n, d: self@.d }),
            r.wf(),
    {
        Rational { num: -self.num, den: self.den }
    }

    /// Checked sum.
    pub fn add(self, other: Rational) -> (r: Option<Rational>)
        requires
            self.wf(),
            other.wf(),
        ensures
            opt_ratv(r) == spec_rat_add(self@, other@),
            r is Some ==> r.unwrap().wf(),
    {
        let an: i128 = self.num as i128;
        let ad: i128 = self.den as i128;
        let bn: i128 = other.num as i128;
        let bd: i128 = other.den as i128;
        proof {
            lemma_prod_bound(an as int, bd as int);
            lemma_prod_bound(bn as int, ad as int);
            lemma_prod_bound(ad as int, bd as int);
            lemma_prod_pos(ad as int, bd as int);
        }
        let n: i128 = an * bd + bn * ad;
        let d: i128 = ad * bd;
        reduce(n, d)
    }

    /// Checked difference.
    pub fn sub(self, other: Rational) -> (r: Option<Rational>)
        requires
            self.wf(),
            other.wf(),
        ensures
            opt_ratv(r) == spec_rat_sub(self@, other@),
            r is Some ==> r.unwrap().wf(),
    {
        let an: i128 = self.num as i128;
        let ad: i128 = self.den as i128;
        let bn: i128 = other.num as i128;
        let bd: i128 = other.den as i128;
        proof {
            lemma_prod_bound(an as int, bd as int);
            lemma_prod_bound(bn as int, ad as int);
            lemma_prod_bound(ad as int, bd as int);
            lemma_prod_pos(ad as int, bd as int);
        }
        let n: i128 = an * bd - bn * ad;
        let d: i128 = ad * bd;
        reduce(n, d)
    }

    /// Checked product.
    pub fn mul(self, other: Rational) -> (r: Option<Rational>)
        requires
            self.wf(),
            other.wf(),
        ensures
            opt_ratv(r) == spec_rat_mul(self@, other@),
            r is Some ==> r.unwrap().wf(),
    {
        let an: i128 = self.num as i128;
        let ad: i128 = self.den as i128;
        let bn: i128 = other.num as i128;
        let bd: i128 = other.den as i128;
        proof {
            lemma_prod_bound(an as int, bn as int);
            lemma_prod_bound(ad as int, bd as int);
            lemma_prod_pos(ad as int, bd as int);
        }
        let n: i128 = an * bn;
        let d: i128 = ad * bd;
        reduce(n, d)
    }

    /// Checked quotient; `None` on a zero divisor.
    pub fn div(self, other: Rational) -> (r: Option<Rational>)
        requires
            self.wf(),
            other.wf(),
        ensures
            opt_ratv(r) == spec_rat_div(self@, other@),
            r is Some ==> r.unwrap().wf(),
    {
        if other.num == 0 {
            None
        } else {
            let an: i128 = self.num as i128;
            let ad: i128 = self.den as i128;
            let bn: i128 = other.num as i128;
            let bd: i128 = other.den as i128;
            proof {
                lemma_prod_bound(an as int, bd as int);
                lemma_prod_bound(ad as int, bn as int);
                lemma_prod_pos(ad as int, bd as int);
            }
            let mut n: i128 = an * bd;
            let mut d: i128 = ad * bn;
            proof {
                assert(d != 0) by (nonlinear_arith)
                    requires
                        d == ad * bn,
                        ad >= 1,
                        bn != 0,
                ;
            }
            if d < 0 {
                n = -n;
                d = -d;
            }
            reduce(n, d)
        }
    }

    /// Exact absolute value.
    pub fn abs(self) -> (r: Rational)
        requires
            self.wf(),
        ensures
            r@ == rat_abs_v(self@),
            r.wf(),
    {
        if self.num < 0 {
            Rational { num: -self.num, den: self.den }
        } else {
            self
        }
    }

    /// Round half away from zero to the nearest whole number; exact and total.
    pub fn round_half_away(self) -> (r: Rational)
        requires
            self.wf(),
        ensures
            r@ == rat_round(self@),
            r.wf(),
    {
        let neg: bool = self.num < 0;
        let mag: u128 = if neg {
            (-self.num) as u128
        } else {
            self.num as u128
        };
        let d: u128 = self.den as u128;
        let k: u128 = (2 * mag + d) / (2 * d);
        proof {
            lemma_round_mag(mag as int, d as int);
            lemma_gcd_one_right(k as nat);
        }
        let num: i64 = if neg {
            -(k as i64)
        } else {
            k as i64
        };
        Rational { num, den: 1 }
    }

    /// The rational one half.
    pub fn one_half() -> (r: Rational)
        ensures
            r@ == (Ratv { n: 1, d: 2 }),
            r.wf(),
    {
        proof {
            lemma_gcd_one_left(2);
        }
        Rational { num: 1, den: 2 }
    }

    /// The rational one hundredth.
    pub fn one_hundredth() -> (r: Rational)
        ensures
            r@ == (Ratv { n: 1, d: 100 }),
            r.wf(),
    {
        proof {
            lemma_gcd_one_left(100);
        }
        Rational { num: 1, den: 100 }
    }

    /// Strict comparison of the denoted rational numbers.
    pub fn lt(self, other: Rational) -> (r: bool)
        requires
            self.wf(),
            other.wf(),
        ensures
            r == rat_lt(self@, other@),
    {
        let an: i128 = self.num as i128;
        let ad: i128 = self.den as i128;
        let bn: i128 = other.num as i128;
        let bd: i128 = other.den as i128;
        proof {
            lemma_prod_bound(an as int, bd as int);
            lemma_prod_bound(bn as int, ad as int);
        }
        an * bd < bn * ad
    }
}

/// Absolute value of a canonical fraction.
pub open spec fn rat_abs_v(a: Ratv) -> Ratv {
    if a.n >= 0 {
        a
    } else {
        Ratv { n: -a.n, d: a.d }
    }
}

/// Rounding half away from zero, as a whole number over denominator one.
pub open spec fn rat_round(a: Ratv) -> Ratv
    recommends
        a.d >= 1,
{
    if a.n >= 0 {
        Ratv { n: (2 * a.n + a.d) / (2 * a.d), d: 1 }
    } else {
        Ratv { n: -((2 * (-a.n) + a.d) / (2 * a.d)), d: 1 }
    }
}

/// The rounded magnitude never exceeds the numerator's magnitude.
proof fn lemma_round_mag(m: int, d: int)
    requires
        m >= 0,
        d >= 1,
    ensures
        0 <= (2 * m + d) / (2 * d) <= m,
{
    vstd::arithmetic::div_mod::lemma_div_pos_is_pos(2 * m + d, 2 * d);
    assert(2 * m + d < (2 * d) * (m + 1)) by (nonlinear_arith)
        requires
            m >= 0,
            d >= 1,
    ;
    vstd::arithmetic::div_mod::lemma_multiply_divide_lt(2 * m + d, 2 * d, m + 1);
}

/// gcd with 1 on the left is 1.
pub proof fn lemma_gcd_one_left(b: nat)
    ensures
        gcd(1, b) == 1,
{
    if b == 0 {
    } else if b == 1 {
        lemma_mod_self_0(1);
        assert(gcd(1, 1) == gcd(1, 1nat % 1nat));
    } else {
        lemma_small_mod(1, b);
        assert(gcd(1, b) == gcd(b, 1));
        lemma_gcd_one_right(b);
    }
}

/// A canonical form that fits is well formed: the reduced parts share no
/// divisor and the denominator stays positive.
pub proof fn lemma_norm_wf(n: int, d: int)
    requires
        d >= 1,
    ensures
        rat_norm(n, d).d >= 1,
        rat_fits(rat_norm(n, d)) ==> ratv_wf(rat_norm(n, d)),
{
    let m = int_abs(n);
    lemma_gcd_divides(m, d as nat);
    lemma_gcd_reduced(m, d as nat);
    let g = gcd(m, d as nat) as int;
    lemma_fundamental_div_mod(m as int, g);
    lemma_fundamental_div_mod(d, g);
    let qn = m as int / g;
    let qd = d / g;
    assert(qd >= 1) by (nonlinear_arith)
        requires
            g >= 1,
            d >= 1,
            d == g * qd,
    ;
    assert(qn >= 0) by {
        vstd::arithmetic::div_mod::lemma_div_pos_is_pos(m as int, g);
    }
    assert(int_abs(rat_norm(n, d).n) == qn as nat);
    assert(rat_norm(n, d).d == qd);
}

/// A checked sum that succeeds is well formed.
pub proof fn lemma_rat_add_wf(a: Ratv, b: Ratv)
    requires
        a.d >= 1,
        b.d >= 1,
    ensures
        spec_rat_add(a, b) is Some ==> ratv_wf(spec_rat_add(a, b).unwrap()),
{
    lemma_prod_pos(a.d, b.d);
    lemma_norm_wf(radd(a, b).n, radd(a, b).d);
}

/// A checked product that succeeds is well formed.
pub proof fn lemma_rat_mul_wf(a: Ratv, b: Ratv)
    requires
        a.d >= 1,
        b.d >= 1,
    ensures
        spec_rat_mul(a, b) is Some ==> ratv_wf(spec_rat_mul(a, b).unwrap()),
{
    lemma_prod_pos(a.d, b.d);
    lemma_norm_wf(rmul(a, b).n, rmul(a, b).d);
}

/// The canonical zero and one are well formed.
pub proof fn lemma_rat_zero_wf()
    ensures
        ratv_wf(rat_zero()),
        ratv_wf(rat_one()),
{
    lemma_gcd_one_right(0);
    lemma_gcd_one_right(1);
}

/// A well-formed fraction with numerator zero is the canonical zero.
pub proof fn lemma_wf_zero_num(x: Ratv)
    requires
        ratv_wf(x),
        x.n == 0,
    ensures
        x == rat_zero(),
{
    lemma_small_mod(0, x.d as nat);
    assert(gcd(0, x.d as nat) == gcd(x.d as nat, 0));
}

/// Checked addition is commutative, exactly.
pub proof fn lemma_rat_add_comm(a: Ratv, b: Ratv)
    ensures
        spec_rat_add(a, b) == spec_rat_add(b, a),
{
    lemma_radd_comm(a, b);
}

/// Checked multiplication is commutative, exactly.
pub proof fn lemma_rat_mul_comm(a: Ratv, b: Ratv)
    ensures
        spec_rat_mul(a, b) == spec_rat_mul(b, a),
{
    lemma_rmul_comm(a, b);
}

/// When both ways of bracketing a checked sum succeed, they denote the same
/// rational number.
pub proof fn lemma_rat_add_assoc_values(a: Ratv, b: Ratv, c: Ratv, ab: Ratv, abc: Ratv, bc: Ratv, a_bc: Ratv)
    requires
        a.d >= 1,
        b.d >= 1,
        c.d >= 1,
        spec_rat_add(a, b) == Some(ab),
        spec_rat_add(ab, c) == Some(abc),
        spec_rat_add(b, c) == Some(bc),
        spec_rat_add(a, bc) == Some(a_bc),
    ensures
        rat_eqv(abc, a_bc),
{
    lemma_prod_pos(a.d, b.d);
    lemma_prod_pos(b.d, c.d);
    lemma_norm_equiv(radd(a, b).n, radd(a, b).d);
    lemma_norm_equiv(radd(b, c).n, radd(b, c).d);
    lemma_prod_pos(ab.d, c.d);
    lemma_prod_pos(a.d, bc.d);
    lemma_prod_pos(a.d * b.d, c.d);
    lemma_prod_pos(a.d, b.d * c.d);
    lemma_norm_equiv(radd(ab, c).n, radd(ab, c).d);
    lemma_norm_equiv(radd(a, bc).n, radd(a, bc).d);
    lemma_radd_congruence(ab, c, radd(a, b), c);
    lemma_radd_assoc(a, b, c);
    lemma_radd_congruence(a, radd(b, c), a, bc);
    lemma_eqv_trans(abc, radd(ab, c), radd(radd(a, b), c));
    lemma_eqv_trans(abc, radd(radd(a, b), c), radd(a, bc));
    lemma_eqv_trans(abc, radd(a, bc), a_bc);
}

/// When both ways of bracketing a checked product succeed, they denote the
/// same rational number.
pub proof fn lemma_rat_mul_assoc_values(a: Ratv, b: Ratv, c: Ratv, ab: Ratv, abc: Ratv, bc: Ratv, a_bc: Ratv)
    requires
        a.d >= 1,
        b.d >= 1,
        c.d >= 1,
        spec_rat_mul(a, b) == Some(ab),
        spec_rat_mul(ab, c) == Some(abc),
        spec_rat_mul(b, c) == Some(bc),
        spec_rat_mul(a, bc) == Some(a_bc),
    ensures
        rat_eqv(abc, a_bc),
{
    lemma_prod_pos(a.d, b.d);
    lemma_prod_pos(b.d, c.d);
    lemma_norm_equiv(rmul(a, b).n, rmul(a, b).d);
    lemma_norm_equiv(rmul(b, c).n, rmul(b, c).d);
    lemma_prod_pos(ab.d, c.d);
    lemma_prod_pos(a.d, bc.d);
    lemma_prod_pos(a.d * b.d, c.d);
    lemma_prod_pos(a.d, b.d * c.d);
    lemma_norm_equiv(rmul(ab, c).n, rmul(ab, c).d);
    lemma_norm_equiv(rmul(a, bc).n, rmul(a, bc).d);
    lemma_rmul_congruence(ab, c, rmul(a, b), c);
    lemma_rmul_assoc(a, b, c);
    lemma_rmul_congruence(a, rmul(b, c), a, bc);
    lemma_eqv_trans(abc, rmul(ab, c), rmul(rmul(a, b), c));
    lemma_eqv_trans(abc, rmul(rmul(a, b), c), rmul(a, bc));
    lemma_eqv_trans(abc, rmul(a, bc), a_bc);
}

/// Reducing a fraction does not change the rational number it denotes.
pub proof fn lemma_norm_equiv(n: int, d: int)
    requires
        d >= 1,
    ensures
        rat_norm(n, d).d >= 1,
        rat_eqv(rat_norm(n, d), Ratv { n: n, d: d }),
{
    let m = int_abs(n);
    lemma_gcd_divides(m, d as nat);
    let g = gcd(m, d as nat) as int;
    lemma_fundamental_div_mod(m as int, g);
    lemma_fundamental_div_mod(d, g);
    let qn = m as int / g;
    let qd = d / g;
    assert(qd >= 1) by (nonlinear_arith)
        requires
            g >= 1,
            d >= 1,
            d == g * qd,
    ;
    if n >= 0 {
        assert(qn * d == n * qd) by (nonlinear_arith)
            requires
                n == g * qn,
                d == g * qd,
        ;
    } else {
        assert((-qn) * d == n * qd) by (nonlinear_arith)
            requires
                -n == g * qn,
                d == g * qd,
        ;
    }
}

/// A fraction already in canonical form is its own canonical form.
pub proof fn lemma_norm_of_wf(x: Ratv)
    requires
        ratv_wf(x),
    ensures
        rat_norm(x.n, x.d) == x,
{
    vstd::arithmetic::div_mod::lemma_div_basics(x.n);
    vstd::arithmetic::div_mod::lemma_div_basics(-x.n);
    vstd::arithmetic::div_mod::lemma_div_basics(x.d);
}

/// Denoting the same rational number is transitive (for positive denominators).
pub proof fn lemma_eqv_trans(a: Ratv, b: Ratv, c: Ratv)
    requires
        a.d >= 1,
        b.d >= 1,
        c.d >= 1,
        rat_eqv(a, b),
        rat_eqv(b, c),
    ensures
        rat_eqv(a, c),
{
    assert(a.n * c.d == c.n * a.d) by (nonlinear_arith)
        requires
            a.n * b.d == b.n * a.d,
            b.n * c.d == c.n * b.d,
            b.d >= 1,
    ;
}

/// Products of four factors can be re-paired.
proof fn lemma_mul_shuffle(x: int, y: int, z: int, w: int)
    ensures
        (x * y) * (z * w) == (x * z) * (y * w),
{
    assert((x * y) * (z * w) == (x * z) * (y * w)) by (nonlinear_arith);
}

/// The raw sum respects rational equality of its operands.
pub proof fn lemma_radd_congruence(a: Ratv, b: Ratv, a2: Ratv, b2: Ratv)
    requires
        rat_eqv(a, a2),
        rat_eqv(b, b2),
    ensures
        rat_eqv(radd(a, b), radd(a2, b2)),
{
    assert((a.n * b.d) * (a2.d * b2.d) == (a2.n * b2.d) * (a.d * b.d)) by {
        lemma_mul_shuffle(a.n, b.d, a2.d, b2.d);
        lemma_mul_is_commutative(b.d, b2.d);
        lemma_mul_shuffle(a2.n, a.d, b2.d, b.d);
    }
    assert((b.n * a.d) * (a2.d * b2.d) == (b2.n * a2.d) * (a.d * b.d)) by {
        lemma_mul_is_commutative(a2.d, b2.d);
        lemma_mul_shuffle(b.n, a.d, b2.d, a2.d);
        lemma_mul_is_commutative(a.d, a2.d);
        lemma_mul_shuffle(b2.n, b.d, a2.d, a.d);
        lemma_mul_is_commutative(b.d, a.d);
    }
    vstd::arithmetic::mul::lemma_mul_is_distributive_add_other_way(
        a2.d * b2.d,
        a.n * b.d,
        b.n * a.d,
    );
    vstd::arithmetic::mul::lemma_mul_is_distributive_add_other_way(
        a.d * b.d,
        a2.n * b2.d,
        b2.n * a2.d,
    );
}

/// The raw product respects rational equality of its operands.
pub proof fn lemma_rmul_congruence(a: Ratv, b: Ratv, a2: Ratv, b2: Ratv)
    requires
        rat_eqv(a, a2),
        rat_eqv(b, b2),
    ensures
        rat_eqv(rmul(a, b), rmul(a2, b2)),
{
    assert((a.n * b.n) * (a2.d * b2.d) == (a2.n * b2.n) * (a.d * b.d)) by (nonlinear_arith)
        requires
            a.n * a2.d == a2.n * a.d,
            b.n * b2.d == b2.n * b.d,
    ;
}

/// The raw sum is commutative, exactly.
pub proof fn lemma_radd_comm(a: Ratv, b: Ratv)
    ensures
        radd(a, b) == radd(b, a),
{
    lemma_mul_is_commutative(a.d, b.d);
}

/// The raw product is commutative, exactly.
pub proof fn lemma_rmul_comm(a: Ratv, b: Ratv)
    ensures
        rmul(a, b) == rmul(b, a),
{
    lemma_mul_is_commutative(a.n, b.n);
    lemma_mul_is_commutative(a.d, b.d);
}

/// The raw sum is associative, exactly.
pub proof fn lemma_radd_assoc(a: Ratv, b: Ratv, c: Ratv)
    ensures
        radd(radd(a, b), c) == radd(a, radd(b, c)),
{
    assert((a.n * b.d + b.n * a.d) * c.d == (a.n * b.d) * c.d + (b.n * a.d) * c.d) by {
        vstd::arithmetic::mul::lemma_mul_is_distributive_add_other_way(c.d, a.n * b.d, b.n * a.d);
    }
    assert((b.n * c.d + c.n * b.d) * a.d == (b.n * c.d) * a.d + (c.n * b.d) * a.d) by {
        vstd::arithmetic::mul::lemma_mul_is_distributive_add_other_way(a.d, b.n * c.d, c.n * b.d);
    }
    lemma_mul_is_associative(a.n, b.d, c.d);
    assert((b.n * a.d) * c.d == (b.n * c.d) * a.d) by {
        lemma_mul_is_associative(b.n, a.d, c.d);
        lemma_mul_is_commutative(a.d, c.d);
        lemma_mul_is_associative(b.n, c.d, a.d);
    }
    assert(c.n * (a.d * b.d) == (c.n * b.d) * a.d) by {
        lemma_mul_is_commutative(a.d, b.d);
        lemma_mul_is_associative(c.n, b.d, a.d);
    }
    lemma_mul_is_associative(a.d, b.d, c.d);
}

/// The raw product is associative, exactly.
pub proof fn lemma_rmul_assoc(a: Ratv, b: Ratv, c: Ratv)
    ensures
        rmul(rmul(a, b), c) == rmul(a, rmul(b, c)),
{
    lemma_mul_is_associative(a.n, b.n, c.n);
    lemma_mul_is_associative(a.d, b.d, c.d);
}

/// Multiplying by the canonical zero gives the canonical zero.
pub proof fn lemma_rat_mul_zero(x: Ratv)
    requires
        x.d >= 1,
    ensures
        spec_rat_mul(x, rat_zero()) == Some(rat_zero()),
        spec_rat_mul(rat_zero(), x) == Some(rat_zero()),
{
    assert(x.n * 0 == 0);
    assert(0 * x.n == 0);
    assert(x.d * 1 == x.d);
    assert(1 * x.d == x.d);
    lemma_small_mod(0, x.d as nat);
    assert(gcd(0, x.d as nat) == gcd(x.d as nat, 0));
    vstd::arithmetic::div_mod::lemma_div_of0(x.d);
    vstd::arithmetic::div_mod::lemma_div_by_self(x.d);
    assert(rat_norm(0, x.d) == rat_zero());
}

/// Adding the canonical zero returns the operand unchanged.
pub proof fn lemma_rat_add_zero(x: Ratv)
    requires
        ratv_wf(x),
    ensures
        spec_rat_add(x, rat_zero()) == Some(x),
        spec_rat_add(rat_zero(), x) == Some(x),
{
    assert(x.n * 1 == x.n);
    assert(0 * x.d == 0);
    assert(x.d * 1 == x.d);
    assert(1 * x.d == x.d);
    lemma_norm_of_wf(x);
}

/// gcd with 1 on the right is 1.
proof fn lemma_gcd_one_right(a: nat)
    ensures
        gcd(a, 1) == 1,
{
    lemma_small_mod(0, 1);
    assert(a % 1 == 0) by {
        lemma_mod_multiples_basic(a as int, 1int);
        lemma_mul_is_commutative(a as int, 1int);
    }
    assert(gcd(a, 1) == gcd(1, 0));
}

/// Product of two 64-bit-bounded values stays well inside `i128`.
proof fn lemma_prod_bound(a: int, b: int)
    requires
        -(i64::MAX as int) <= a <= i64::MAX as int,
        -(i64::MAX as int) <= b <= i64::MAX as int,
    ensures
        -(0x4000_0000_0000_0000_0000_0000_0000_0000int) < a * b
            < 0x4000_0000_0000_0000_0000_0000_0000_0000int,
{
    assert(-(0x4000_0000_0000_0000_0000_0000_0000_0000int) < a * b
        < 0x4000_0000_0000_0000_0000_0000_0000_0000int) by (nonlinear_arith)
        requires
            -(i64::MAX as int) <= a <= i64::MAX as int,
            -(i64::MAX as int) <= b <= i64::MAX as int,
    ;
}

/// Product of two positive values is positive.
pub proof fn lemma_prod_pos(a: int, b: int)
    requires
        a >= 1,
        b >= 1,
    ensures
        a * b >= 1,
{
    assert(a * b >= 1) by (nonlinear_arith)
        requires
            a >= 1,
            b >= 1,
    ;
}

/// Euclid's algorithm on machine words.
fn gcd_u128(a0: u128, b0: u128) -> (g: u128)
    ensures
        g as nat == gcd(a0 as nat, b0 as nat),
    decreases b0,
{
    let mut a: u128 = a0;
    let mut b: u128 = b0;
    while b != 0
        invariant
            gcd(a as nat, b as nat) == gcd(a0 as nat, b0 as nat),
        decreases b,
    {
        let t: u128 = a % b;
        a = b;
        b = t;
    }
    a
}

/// Reduce a fraction with a positive denominator to canonical form and pack
/// it into 64-bit fields; `None` exactly when the canonical form does not fit.
fn reduce(n: i128, d: i128) -> (r: Option<Rational>)
    requires
        1 <= d,
        n != i128::MIN,
    ensures
        r is Some <==> rat_fits(rat_norm(n as int, d as int)),
        r is Some ==> r.unwrap()@ == rat_norm(n as int, d as int) && r.unwrap().wf(),
{
    let neg: bool = n < 0;
    let mag: u128 = if neg {
        (-n) as u128
    } else {
        n as u128
    };
    let du: u128 = d as u128;
    proof {
        assert(mag as nat == int_abs(n as int));
    }
    let g = gcd_u128(mag, du);
    proof {
        lemma_gcd_reduced(mag as nat, du as nat);
        lemma_gcd_divides(mag as nat, du as nat);
        lemma_fundamental_div_mod(mag as int, g as int);
        lemma_fundamental_div_mod(du as int, g as int);
        assert(du as int / g as int >= 1) by {
            if du as int / g as int <= 0 {
                assert(g as int * (du as int / g as int) <= 0) by (nonlinear_arith)
                    requires
                        g as int > 0,
                        du as int / g as int <= 0,
                ;
            }
        }
    }
    let rn: u128 = mag / g;
    let rd: u128 = du / g;
    if rn <= i64::MAX as u128 && rd <= i64::MAX as u128 {
        let num: i64 = if neg {
            -(rn as i64)
        } else {
            rn as i64
        };
        let den: i64 = rd as i64;
        Some(Rational { num, den })
    } else {
        None
    }
}

} // verus!
