use semitone::fraction::Fraction;
use semitone::lit::Lit;
use semitone::lra_theory::{LraError, LraTheory};
use semitone::rational::InfRational;
use semitone::sparse_row::SparseRow;

fn real_val(val: i32) -> InfRational {
    InfRational::from_int(val)
}

fn frac(num: i64, den: i64) -> Fraction {
    Fraction::new(num, den).unwrap()
}

fn build_row(terms: &[(usize, i32)]) -> SparseRow {
    let mut row = SparseRow::new();
    for &(var, coeff) in terms {
        row.insert(var, Fraction::from_int(coeff));
    }
    row
}

fn add_test_row(theory: &mut LraTheory, basic_var: usize, terms: &[(usize, i32)]) {
    theory.add_row(basic_var, build_row(terms)).unwrap();
}

#[test]
fn test_pure_pivot_algebra() {
    let mut lra = LraTheory::new();

    let x = lra.mk_real();
    let y = lra.mk_real();
    let s = lra.mk_real();

    add_test_row(&mut lra, s, &[(x, 2), (y, -3)]);

    assert!(lra.is_basic(s));
    assert!(!lra.is_basic(x));
    assert!(lra.watches(x).contains(&s));

    lra.pivot(y, s).unwrap();

    assert!(!lra.is_basic(s));
    assert!(lra.is_basic(y));
    assert!(!lra.watches(y).contains(&s), "y should not be watching s after pivoting");
    assert!(lra.watches(x).contains(&y), "x should now be watched by y after pivoting");
    assert!(lra.watches(s).contains(&y), "s should now be watched by y after pivoting");

    let row_y = lra.row(y).expect("y must have a row in the tableau");
    assert_eq!(row_y.get(&x).unwrap(), &frac(2, 3));
    assert_eq!(row_y.get(&s).unwrap(), &frac(-1, 3));
}

#[test]
fn test_pivot_and_update_maintains_equality() {
    let mut lra = LraTheory::new();

    let x = lra.mk_real();
    let y = lra.mk_real();
    let s = lra.mk_real();

    add_test_row(&mut lra, s, &[(x, 1), (y, 1)]);

    lra.update(x, real_val(5)).unwrap();
    lra.update(y, real_val(3)).unwrap();
    assert_eq!(lra.value(s), &real_val(8));

    lra.set_lb(None, s, real_val(0)).expect("setting lower bound should succeed");
    lra.set_ub(None, s, real_val(10)).expect("setting upper bound should succeed");

    lra.pivot_and_update(y, s, real_val(6)).unwrap();

    assert_eq!(lra.value(s), &real_val(6));
    assert_eq!(lra.value(x), &real_val(5));
    assert_eq!(lra.value(y), &real_val(1), "y should have absorbed the delta of -2");
}

#[test]
fn test_check_resolves_out_of_bounds() {
    let mut lra = LraTheory::new();

    let x = lra.mk_real();
    let y = lra.mk_real();
    let s = lra.mk_real();

    add_test_row(&mut lra, s, &[(x, 1), (y, 1)]);

    lra.set_lb(None, x, real_val(0)).expect("setting lower bound should succeed");
    lra.set_ub(None, x, real_val(10)).expect("setting upper bound should succeed");
    lra.set_lb(None, y, real_val(-10)).expect("setting lower bound should succeed");
    lra.set_ub(None, y, real_val(10)).expect("setting upper bound should succeed");
    lra.set_ub(None, s, real_val(5)).expect("setting upper bound should succeed");

    lra.set_lb(None, x, real_val(6)).expect("setting lower bound should succeed");

    assert!(lra.ub(s).lt(lra.value(s)));

    let result = lra.check();

    assert!(result.is_ok(), "check should resolve the out-of-bounds situation");

    assert_eq!(lra.value(s), &real_val(5));
    assert_eq!(lra.value(y), &real_val(-1));

    assert!(!lra.is_basic(s));
    assert!(lra.value(s).le(lra.ub(s)));
}

#[test]
fn test_check_detects_conflict() {
    let mut lra = LraTheory::new();

    let x = lra.mk_real();
    let y = lra.mk_real();
    let s = lra.mk_real();

    add_test_row(&mut lra, s, &[(x, 1), (y, 1)]);

    lra.set_lb(Some(Lit::new(1, false)), x, real_val(3)).expect("setting lower bound should succeed");
    assert_eq!(lra.value(s), &real_val(3));

    lra.set_lb(Some(Lit::new(2, false)), y, real_val(4)).expect("setting lower bound should succeed");
    assert_eq!(lra.value(s), &real_val(7));

    lra.set_ub(Some(Lit::new(3, false)), s, real_val(5)).expect("setting upper bound should succeed");

    let result = lra.check();

    assert!(result.is_err());
    let conflict = match result.unwrap_err() {
        LraError::Conflict(c) => c,
        other => panic!("expected a conflict, got {:?}", other),
    };

    assert!(conflict.contains(&Lit::new(1, true)));
    assert!(conflict.contains(&Lit::new(2, true)));
    assert!(conflict.contains(&Lit::new(3, true)));
}

#[test]
fn test_sparse_row_add_scaled_cancellation() {
    // row1 = 2*v0 + 3*v1 - 1*v3
    let mut row1 = build_row(&[(0, 2), (1, 3), (3, -1)]);
    // row2 = 1*v1 + 4*v2 + 2*v3
    let row2 = build_row(&[(1, 1), (2, 4), (3, 2)]);

    let scale = Fraction::from_int(-3);
    row1.add_scaled(&row2, &scale).unwrap();

    assert_eq!(row1.len(), 3, "The row should have exactly 3 active terms");
    assert_eq!(row1.get(&0), Some(&Fraction::from_int(2)));
    assert_eq!(row1.get(&1), None, "v1 should have been removed from the row");
    assert_eq!(row1.get(&2), Some(&Fraction::from_int(-12)));
    assert_eq!(row1.get(&3), Some(&Fraction::from_int(-7)));

    // A variable is watched by a row exactly when it has an entry in it.
    assert!(row1.keys().contains(&0), "The watch for v0 should remain unchanged");
    assert!(!row1.keys().contains(&1), "The watch for v1 should have been removed because the coefficient became zero");
    assert!(row1.keys().contains(&2), "The watch for v2 should have been added dynamically");
    assert!(row1.keys().contains(&3), "The watch for v3 should remain unchanged after the coefficient update");
}

#[test]
fn test_tableau_pivot_nested_substitution() {
    let mut lra = LraTheory::new();

    let x = lra.mk_real();
    let y = lra.mk_real();
    let z = lra.mk_real();

    let s1 = lra.mk_real();
    let s2 = lra.mk_real();

    add_test_row(&mut lra, s1, &[(x, 2), (y, 1), (z, -1)]);
    add_test_row(&mut lra, s2, &[(x, 1), (y, -1), (z, 2)]);

    lra.pivot(x, s2).unwrap();

    let row_s1 = lra.row(s1).expect("s1 should still be present in the tableau");

    assert_eq!(row_s1.get(&s2), Some(&Fraction::from_int(2)));
    assert_eq!(row_s1.get(&y), Some(&Fraction::from_int(3)));
    assert_eq!(row_s1.get(&z), Some(&Fraction::from_int(-5)));

    assert_eq!(row_s1.get(&x), None, "x is now basic, so it cannot appear in s1");

    assert!(!lra.watches(x).contains(&s1), "s1 should no longer watch x");
    assert!(lra.watches(s2).contains(&s1), "s1 should now watch s2");
    assert!(lra.watches(y).contains(&s1));
    assert!(lra.watches(z).contains(&s1));
}

#[test]
fn test_optimize_maximize_simple_bound() {
    let mut lra = LraTheory::new();
    let x = lra.mk_real();

    lra.set_lb(None, x, real_val(0)).expect("setting lower bound should succeed");
    lra.set_ub(None, x, real_val(10)).expect("setting upper bound should succeed");

    let obj = build_row(&[(x, 1)]);
    let result = lra.optimize(obj, true).unwrap();

    assert_eq!(result, real_val(10));
    assert_eq!(lra.value(x), &real_val(10));
}

#[test]
fn test_optimize_minimize_simple_bound() {
    let mut lra = LraTheory::new();
    let x = lra.mk_real();

    lra.set_lb(None, x, real_val(-5)).expect("setting lower bound should succeed");
    lra.set_ub(None, x, real_val(10)).expect("setting upper bound should succeed");

    let obj = build_row(&[(x, 1)]);
    let result = lra.optimize(obj, false).unwrap();

    assert_eq!(result, real_val(-5));
    assert_eq!(lra.value(x), &real_val(-5));
}

#[test]
fn test_optimize_unbounded() {
    let mut lra = LraTheory::new();
    let x = lra.mk_real();

    lra.set_lb(None, x, real_val(0)).expect("setting lower bound should succeed");

    let obj = build_row(&[(x, 1)]);
    let result = lra.optimize(obj, true).unwrap();

    assert_eq!(result, LraTheory::positive_inf());
}

#[test]
fn test_optimize_requires_pivot() {
    let mut lra = LraTheory::new();
    let x = lra.mk_real();
    let y = lra.mk_real();
    let s = lra.mk_real();

    add_test_row(&mut lra, s, &[(x, 1), (y, 1)]);

    lra.set_lb(None, x, real_val(0)).expect("setting lower bound should succeed");
    lra.set_ub(None, x, real_val(100)).expect("setting upper bound should succeed");
    lra.set_lb(None, y, real_val(0)).expect("setting lower bound should succeed");
    lra.set_ub(None, y, real_val(100)).expect("setting upper bound should succeed");
    lra.set_lb(None, s, real_val(0)).expect("setting lower bound should succeed");
    lra.set_ub(None, s, real_val(5)).expect("setting upper bound should succeed");

    let obj = build_row(&[(x, 1)]);
    let result = lra.optimize(obj, true).unwrap();

    assert_eq!(result, real_val(5));
    assert_eq!(lra.value(x), &real_val(5));
    assert_eq!(lra.value(s), &real_val(5));
    assert_eq!(lra.value(y), &real_val(0), "y should have absorbed the delta to maintain s = x + y");
    assert!(lra.is_basic(x), "x should be basic after pivoting");
    assert!(!lra.is_basic(s), "s should no longer be basic after pivoting");
}

#[test]
fn test_optimize_objective_on_basic_variable() {
    let mut lra = LraTheory::new();
    let x = lra.mk_real();
    let y = lra.mk_real();
    let s = lra.mk_real();

    add_test_row(&mut lra, s, &[(x, 1), (y, 2)]);

    lra.set_lb(None, x, real_val(0)).expect("setting lower bound should succeed");
    lra.set_ub(None, x, real_val(3)).expect("setting upper bound should succeed");
    lra.set_lb(None, y, real_val(0)).expect("setting lower bound should succeed");
    lra.set_ub(None, y, real_val(3)).expect("setting upper bound should succeed");

    let obj = build_row(&[(s, 1)]);
    let result = lra.optimize(obj, true).unwrap();

    assert_eq!(result, real_val(9));
    assert_eq!(lra.value(x), &real_val(3));
    assert_eq!(lra.value(y), &real_val(3));
}

#[test]
fn test_optimize_degenerate_tie_picks_lowest_index() {
    let mut lra = LraTheory::new();
    let x = lra.mk_real();
    let s1 = lra.mk_real();
    let s2 = lra.mk_real();

    add_test_row(&mut lra, s1, &[(x, 1)]);
    add_test_row(&mut lra, s2, &[(x, 1)]);

    lra.set_lb(None, x, real_val(0)).expect("setting lower bound should succeed");
    lra.set_ub(None, s1, real_val(5)).expect("setting upper bound should succeed");
    lra.set_ub(None, s2, real_val(5)).expect("setting upper bound should succeed");

    let obj = build_row(&[(x, 1)]);
    let result = lra.optimize(obj, true).unwrap();

    assert_eq!(result, real_val(5));
    assert_eq!(lra.value(x), &real_val(5));
    assert_eq!(lra.value(s1), &real_val(5));
    assert_eq!(lra.value(s2), &real_val(5));
}

#[test]
fn test_canonicalize_substitutes_basic_variables() {
    let mut lra = LraTheory::new();
    let x = lra.mk_real();
    let y = lra.mk_real();
    let s = lra.mk_real();

    add_test_row(&mut lra, s, &[(x, 1), (y, 2)]);

    let row = build_row(&[(s, 3)]);
    let canon = lra.canonicalize(row).unwrap();

    assert_eq!(canon.get(&s), None, "s should be eliminated from the canonicalized row");
    assert_eq!(canon.get(&x), Some(&Fraction::from_int(3)));
    assert_eq!(canon.get(&y), Some(&Fraction::from_int(6)));
}

#[test]
fn lra_set_lb_above_ub_is_a_conflict_of_both_literals() {
    let mut lra = LraTheory::new();
    let x = lra.mk_real();
    lra.set_ub(Some(Lit::new(1, false)), x, real_val(2)).unwrap();
    let r = lra.set_lb(Some(Lit::new(2, true)), x, real_val(3));
    assert_eq!(r, Err(LraError::Conflict(vec![Lit::new(2, false), Lit::new(1, true)])));
    assert_eq!(lra.lb(x), &LraTheory::negative_inf());
}

#[test]
fn lra_weaker_bound_is_not_recorded() {
    let mut lra = LraTheory::new();
    let x = lra.mk_real();
    assert_eq!(lra.set_lb(None, x, real_val(3)), Ok(true));
    assert_eq!(lra.set_lb(None, x, real_val(1)), Ok(false));
    assert_eq!(lra.lb(x), &real_val(3));
    assert_eq!(lra.value(x), &real_val(3));
}

#[test]
fn lra_cancel_until_restores_bounds() {
    let mut lra = LraTheory::new();
    let x = lra.mk_real();
    lra.set_ub(None, x, real_val(10)).unwrap();
    lra.push();
    lra.set_ub(None, x, real_val(2)).unwrap();
    lra.set_lb(None, x, real_val(1)).unwrap();
    assert_eq!(lra.ub(x), &real_val(2));
    lra.cancel_until(0);
    assert_eq!(lra.ub(x), &real_val(10));
    assert_eq!(lra.lb(x), &LraTheory::negative_inf());
}

#[test]
fn lra_overflowing_row_value_is_reported() {
    let mut lra = LraTheory::new();
    let x = lra.mk_real();
    let s = lra.mk_real();
    lra.update(x, InfRational::from_int(i32::MAX)).unwrap();
    let mut row = SparseRow::new();
    row.insert(x, Fraction::from_i64(i64::MAX / 2));
    assert_eq!(lra.add_row(s, row), Err(LraError::Overflow));
    assert!(!lra.is_basic(s));
}

#[test]
fn lra_integer_check_reports_fractional_variable() {
    let mut lra = LraTheory::new();
    let n = lra.mk_int();
    assert_eq!(lra.check_ints(), Ok(()));
    let half = InfRational::from_rational(semitone::rational::Rational::Finite(frac(1, 2)));
    lra.update(n, half).unwrap();
    let r = lra.check_ints();
    assert!(matches!(r, Err((v, _)) if v == n));
}

#[test]
fn lra_basic_variables_keep_the_value_of_their_rows() {
    let mut lra = LraTheory::new();
    let x = lra.mk_real();
    let y = lra.mk_real();
    let s = lra.mk_real();
    add_test_row(&mut lra, s, &[(x, 2), (y, -1)]);
    lra.set_lb(None, x, real_val(1)).unwrap();
    lra.set_ub(None, y, real_val(-4)).unwrap();
    lra.set_lb(None, s, real_val(9)).unwrap();
    lra.set_ub(None, s, real_val(20)).unwrap();
    assert!(lra.value(s).lt(lra.lb(s)));
    lra.check().unwrap();
    let two_x = lra.value(x).checked_scale(&Fraction::from_int(2)).unwrap();
    let expected = two_x.checked_sub(lra.value(y)).unwrap();
    assert!(lra.value(s).eq_value(&expected));
    assert!(lra.value(s).le(lra.ub(s)));
    assert!(lra.lb(s).le(lra.value(s)));
    assert!(lra.lb(x).le(lra.value(x)));
    assert!(lra.value(y).le(lra.ub(y)));
}
