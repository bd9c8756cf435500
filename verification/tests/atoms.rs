use semitone::ast::{ArithExpr, RealVar};
use semitone::atoms::Comparison;
use semitone::fraction::Fraction;
use semitone::lra_theory::LraTheory;
use semitone::rational::{InfRational, Rational};

fn rv(i: usize) -> ArithExpr {
    ArithExpr::RealVar(RealVar(i))
}

fn k(v: i32) -> ArithExpr {
    ArithExpr::from(v)
}

fn strict(v: i32, eps: i32) -> InfRational {
    InfRational::new(Rational::Finite(Fraction::from_int(v)), Fraction::from_int(eps))
}

#[test]
fn constant_comparisons_are_decided_at_once() {
    let mut lra = LraTheory::new();
    assert_eq!(lra.assert_comparison(Comparison::Lt, &k(1), &k(2), true), Ok(true));
    assert_eq!(lra.assert_comparison(Comparison::Lt, &k(1), &k(2), false), Ok(false));
    assert_eq!(lra.assert_comparison(Comparison::Ge, &k(1), &k(2), true), Ok(false));
    assert_eq!(lra.assert_comparison(Comparison::Le, &k(2), &k(2), true), Ok(true));
    assert_eq!(lra.assert_comparison(Comparison::Gt, &k(2), &k(2), true), Ok(false));
}

#[test]
fn one_variable_becomes_a_bound() {
    let mut lra = LraTheory::new();
    let x = lra.mk_real();
    // 2x <= 6  gives  x <= 3
    assert_eq!(lra.assert_comparison(Comparison::Le, &(k(2) * rv(x)), &k(6), true), Ok(true));
    assert_eq!(*lra.ub(x), InfRational::from_int(3));
    // not (x < 1)  gives  x >= 1
    assert_eq!(lra.assert_comparison(Comparison::Lt, &rv(x), &k(1), false), Ok(true));
    assert_eq!(*lra.lb(x), InfRational::from_int(1));
    // -x < -2  gives  x > 2, a strict lower bound
    assert_eq!(lra.assert_comparison(Comparison::Lt, &(-rv(x)), &k(-2), true), Ok(true));
    assert_eq!(*lra.lb(x), strict(2, 1));
    // x > 5 contradicts x <= 3
    assert_eq!(lra.assert_comparison(Comparison::Gt, &rv(x), &k(5), true), Ok(false));
}

#[test]
fn several_variables_bound_a_slack() {
    let mut lra = LraTheory::new();
    let x = lra.mk_real();
    let y = lra.mk_real();
    // x + y <= 5
    assert_eq!(lra.assert_comparison(Comparison::Le, &(rv(x) + rv(y)), &k(5), true), Ok(true));
    let s = 2;
    assert!(lra.is_basic(s));
    assert_eq!(*lra.ub(s), InfRational::from_int(5));
    // x + y >= 7 reuses the slack and contradicts its upper bound
    assert_eq!(lra.assert_comparison(Comparison::Ge, &(rv(x) + rv(y)), &k(7), true), Ok(false));
}

#[test]
fn equality_pins_the_variable() {
    let mut lra = LraTheory::new();
    let x = lra.mk_real();
    assert_eq!(lra.assert_arith_eq(&k(3), &k(3)), Ok(true));
    assert_eq!(lra.assert_arith_eq(&k(3), &k(4)), Ok(false));
    assert_eq!(lra.assert_arith_eq(&(k(2) * rv(x)), &k(6)), Ok(true));
    assert_eq!(*lra.lb(x), InfRational::from_int(3));
    assert_eq!(*lra.ub(x), InfRational::from_int(3));
    assert_eq!(lra.assert_arith_eq(&rv(x), &k(4)), Ok(false));
}

#[test]
fn equality_of_a_sum_pins_its_slack() {
    let mut lra = LraTheory::new();
    let x = lra.mk_real();
    let y = lra.mk_real();
    assert_eq!(lra.assert_arith_eq(&(rv(x) + rv(y)), &k(4)), Ok(true));
    let s = 2;
    assert_eq!(*lra.lb(s), InfRational::from_int(4));
    assert_eq!(*lra.ub(s), InfRational::from_int(4));
    assert_eq!(lra.assert_arith_eq(&(rv(x) + rv(y)), &k(5)), Ok(false));
}
