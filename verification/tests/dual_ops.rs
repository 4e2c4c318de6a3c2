use dualnet::dual_number::DualNumber;
use dualnet::rational::Rational;

fn r(n: i64, d: i64) -> Rational {
    Rational::new(n, d).unwrap()
}

fn dual(v: Rational, t: Rational) -> DualNumber {
    DualNumber { value: v, tangent: t }
}

fn as_f64(x: Rational) -> f64 {
    x.num() as f64 / x.den() as f64
}

#[test]
fn product_rule_holds_exactly() {
    // mul(a,b).tangent == a.tangent*b.value + b.tangent*a.value
    let a = dual(r(3, 2), r(1, 2));
    let b = dual(r(4, 3), r(1, 3));
    let p = a.mul(b).unwrap();
    assert_eq!(p.value, r(2, 1));
    let expected = a.tangent.mul(b.value).unwrap().add(b.tangent.mul(a.value).unwrap()).unwrap();
    assert_eq!(p.tangent, expected);
    assert_eq!(p.tangent, r(7, 6));
}

#[test]
fn product_rule_matches_finite_difference() {
    // d(x*x)/dx at x = 3/2 is 3; a finite difference approximates it.
    let x = DualNumber::new(r(3, 2)).select();
    let sq = x.mul(x).unwrap();
    let tangent = as_f64(sq.tangent);
    let xf: f64 = 1.5;
    let h: f64 = 1e-7;
    let approx = ((xf + h) * (xf + h) - xf * xf) / h;
    assert!((tangent - approx).abs() < 1e-5);
    assert_eq!(sq.tangent, r(3, 1));
}

#[test]
fn add_sub_mul_values_match_real_arithmetic() {
    let a = dual(r(1, 2), r(1, 1));
    let b = dual(r(1, 3), r(2, 1));
    let c = dual(r(1, 5), r(3, 1));
    // commutativity
    assert_eq!(a.add(b).unwrap(), b.add(a).unwrap());
    assert_eq!(a.mul(b).unwrap(), b.mul(a).unwrap());
    // associativity on the value component
    let ab_c = a.add(b).unwrap().add(c).unwrap();
    let a_bc = a.add(b.add(c).unwrap()).unwrap();
    assert_eq!(ab_c.value, a_bc.value);
    assert_eq!(ab_c.value, r(31, 30));
    let m1 = a.mul(b).unwrap().mul(c).unwrap();
    let m2 = a.mul(b.mul(c).unwrap()).unwrap();
    assert_eq!(m1.value, m2.value);
    assert_eq!(m1.value, r(1, 30));
    // subtraction value
    assert_eq!(a.sub(b).unwrap().value, r(1, 6));
}

#[test]
fn zero_tangent_operands_reduce_to_scalar_arithmetic() {
    let a = DualNumber::new(r(3, 1));
    let b = DualNumber::new(r(4, 1));
    let s = a.add(b).unwrap();
    assert_eq!(s.value, r(7, 1));
    assert_eq!(s.tangent, Rational::zero());
    let p = a.mul(b).unwrap();
    assert_eq!(p.value, r(12, 1));
    assert_eq!(p.tangent, Rational::zero());
    let d = a.sub(b).unwrap();
    assert_eq!(d.value, r(-1, 1));
    assert_eq!(d.tangent, Rational::zero());
}

#[test]
fn select_and_exclude_set_the_tangent() {
    let a = DualNumber::new(r(5, 1));
    let s = a.select();
    assert_eq!(s.value, r(5, 1));
    assert_eq!(s.tangent, Rational::one());
    let e = s.exclude();
    assert_eq!(e.value, r(5, 1));
    assert_eq!(e.tangent, Rational::zero());
}

#[test]
fn division_follows_the_quotient_rule() {
    let a = dual(r(1, 1), r(2, 1));
    let b = dual(r(2, 1), r(3, 1));
    let q = a.div(b).unwrap();
    assert_eq!(q.value, r(1, 2));
    // (a.t*b.v - b.t*a.v) / b.v^2 = (4 - 3) / 4
    assert_eq!(q.tangent, r(1, 4));
}

#[test]
fn division_by_zero_valued_dual_is_surfaced() {
    let a = dual(r(1, 1), r(1, 1));
    let z = dual(Rational::zero(), r(5, 1));
    assert!(a.div(z).is_none());
    assert!(z.recip().is_none());
}

#[test]
fn recip_matches_its_formula() {
    let a = dual(r(2, 1), r(3, 1));
    let q = a.recip().unwrap();
    assert_eq!(q.value, r(1, 2));
    // -a.t / a.v^2 = -3/4
    assert_eq!(q.tangent, r(-3, 4));
}

#[test]
fn neg_negates_both_components() {
    let a = dual(r(2, 3), r(-1, 2));
    let n = a.neg();
    assert_eq!(n.value, r(-2, 3));
    assert_eq!(n.tangent, r(1, 2));
}

#[test]
fn max_min_keep_the_winning_tangent_and_prefer_the_first_at_ties() {
    let a = dual(r(1, 1), r(5, 1));
    let b = dual(r(2, 1), r(7, 1));
    assert_eq!(a.max(b), b);
    assert_eq!(a.min(b), a);
    let t1 = dual(r(1, 1), r(5, 1));
    let t2 = dual(r(1, 1), r(7, 1));
    assert_eq!(t1.max(t2), t1);
    assert_eq!(t1.min(t2), t1);
}

#[test]
fn abs_resets_the_tangent() {
    let a = dual(r(-3, 2), r(4, 1));
    let x = a.abs();
    assert_eq!(x.value, r(3, 2));
    assert_eq!(x.tangent, Rational::zero());
}

#[test]
fn round_keeps_the_tangent() {
    let a = dual(r(5, 2), r(4, 1));
    let x = a.round();
    assert_eq!(x.value, r(3, 1));
    assert_eq!(x.tangent, r(4, 1));
}

#[test]
fn powi_on_positive_base() {
    let a = dual(r(3, 2), Rational::one());
    let p = a.powi(3).unwrap();
    assert_eq!(p.value, r(27, 8));
    // n * v^(n-1) * t = 3 * 9/4
    assert_eq!(p.tangent, r(27, 4));
}

#[test]
fn powi_zero_base_gives_the_dual_zero() {
    let a = dual(Rational::zero(), r(9, 1));
    let p = a.powi(5).unwrap();
    assert_eq!(p.value, Rational::zero());
    assert_eq!(p.tangent, Rational::zero());
}

#[test]
fn powi_zero_exponent_gives_one() {
    let a = dual(r(-7, 2), r(1, 1));
    let p = a.powi(0).unwrap();
    assert_eq!(p.value, Rational::one());
    assert_eq!(p.tangent, Rational::zero());
}

#[test]
fn powi_negative_exponent_is_the_reciprocal_power() {
    let a = dual(r(2, 1), Rational::zero());
    let p = a.powi(-2).unwrap();
    assert_eq!(p.value, r(1, 4));
    assert_eq!(p.tangent, Rational::zero());
}

#[test]
fn powi_odd_power_of_negative_base_keeps_the_sign() {
    let a = dual(r(-2, 1), Rational::zero());
    assert_eq!(a.powi(3).unwrap().value, r(-8, 1));
    assert_eq!(a.powi(2).unwrap().value, r(4, 1));
}
