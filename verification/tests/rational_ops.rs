use dualnet::rational::Rational;

fn r(n: i64, d: i64) -> Rational {
    Rational::new(n, d).unwrap()
}

#[test]
fn new_reduces_to_canonical_form() {
    let x = r(2, 4);
    assert_eq!(x.num(), 1);
    assert_eq!(x.den(), 2);
    let y = r(-6, -8);
    assert_eq!(y.num(), 3);
    assert_eq!(y.den(), 4);
    let z = r(3, -9);
    assert_eq!(z.num(), -1);
    assert_eq!(z.den(), 3);
    let zero = r(0, 7);
    assert_eq!(zero.num(), 0);
    assert_eq!(zero.den(), 1);
}

#[test]
fn new_rejects_zero_denominator() {
    assert!(Rational::new(1, 0).is_none());
}

#[test]
fn from_int_is_exact() {
    let x = Rational::from_int(-42).unwrap();
    assert_eq!(x.num(), -42);
    assert_eq!(x.den(), 1);
    assert!(Rational::from_int(i64::MIN).is_none());
}

#[test]
fn add_sub_mul_div_exact_values() {
    let a = r(1, 2);
    let b = r(1, 3);
    let s = a.add(b).unwrap();
    assert_eq!(s, r(5, 6));
    let d = a.sub(b).unwrap();
    assert_eq!(d, r(1, 6));
    let p = a.mul(b).unwrap();
    assert_eq!(p, r(1, 6));
    let q = a.div(b).unwrap();
    assert_eq!(q, r(3, 2));
}

#[test]
fn division_by_zero_value_is_surfaced() {
    let a = r(1, 2);
    assert!(a.div(Rational::zero()).is_none());
}

#[test]
fn addition_overflow_is_surfaced() {
    let big = Rational::from_int(i64::MAX).unwrap();
    let one = Rational::one();
    assert!(big.add(one).is_none());
    // The same sum toward zero is fine.
    assert!(big.sub(one).is_some());
}

#[test]
fn comparison_follows_cross_multiplication() {
    assert!(r(1, 3).lt(r(1, 2)));
    assert!(!r(1, 2).lt(r(1, 2)));
    assert!(r(-1, 2).lt(r(1, 1000)));
}

#[test]
fn neg_abs_round_exact() {
    assert_eq!(r(3, 2).neg(), r(-3, 2));
    assert_eq!(r(-3, 2).abs(), r(3, 2));
    assert_eq!(r(5, 2).round_half_away(), r(3, 1));
    assert_eq!(r(-5, 2).round_half_away(), r(-3, 1));
    assert_eq!(r(7, 3).round_half_away(), r(2, 1));
    assert_eq!(r(-7, 3).round_half_away(), r(-2, 1));
}

#[test]
fn named_constants() {
    assert_eq!(Rational::one_half(), r(1, 2));
    assert_eq!(Rational::one_hundredth(), r(1, 100));
    assert_eq!(Rational::zero(), r(0, 5));
    assert_eq!(Rational::one(), r(3, 3));
}
