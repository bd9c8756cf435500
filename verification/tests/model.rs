use semitone::ast::{ArithExpr, BoolExpr, BoolVar, DlVar, EnumExpr, EnumVar, Expr, IntVar, RealVar};
use semitone::dl_theory::{DlEdge, DlTheory};
use semitone::fraction::Fraction;
use semitone::lra_theory::LraTheory;
use semitone::model::{get_arith_bounds, get_arith_val, get_bool_val, get_enum_val, get_time_bounds};
use semitone::rational::InfRational;

fn num(v: i32) -> InfRational {
    InfRational::from_int(v)
}

fn x() -> ArithExpr {
    ArithExpr::RealVar(RealVar(0))
}

fn y() -> ArithExpr {
    ArithExpr::IntVar(IntVar(1))
}

/// x in [1, 10] with value 3, y in (-inf, 4] with value 0.
fn theory() -> LraTheory {
    let mut lra = LraTheory::new();
    lra.mk_real();
    lra.mk_int();
    lra.set_lb(None, 0, num(1)).unwrap();
    lra.set_ub(None, 0, num(10)).unwrap();
    lra.update(0, num(3)).unwrap();
    lra.set_ub(None, 1, num(4)).unwrap();
    lra
}

#[test]
fn arith_value_of_sums_and_negations() {
    let lra = theory();
    let e = x() + -y() + ArithExpr::from(2);
    assert_eq!(get_arith_val(&lra, &e).unwrap(), Some(num(5)));
    assert_eq!(get_arith_val(&lra, &-x()).unwrap(), Some(num(-3)));
    assert_eq!(get_arith_val(&lra, &(x() * ArithExpr::from(2))).unwrap(), None);
    assert_eq!(get_arith_val(&lra, &(x() + x() / ArithExpr::from(2))).unwrap(), None);
}

#[test]
fn arith_bounds_follow_variable_bounds() {
    let lra = theory();
    let (lo, hi) = get_arith_bounds(&lra, &(x() + y())).unwrap().unwrap();
    assert_eq!(lo, LraTheory::negative_inf());
    assert_eq!(hi, num(14));
    let (lo, hi) = get_arith_bounds(&lra, &-x()).unwrap().unwrap();
    assert_eq!(lo, num(-10));
    assert_eq!(hi, num(-1));
    let (lo, hi) = get_arith_bounds(&lra, &ArithExpr::from(7)).unwrap().unwrap();
    assert_eq!((lo, hi), (num(7), num(7)));
    assert_eq!(get_arith_bounds(&lra, &(x() * y())).unwrap(), None);
}

#[test]
fn comparisons_are_decided_only_by_bounds() {
    let lra = theory();
    let none: Vec<Option<bool>> = vec![];
    let enums: Vec<Option<i32>> = vec![];
    let times = vec![];
    let val = |e: &BoolExpr| get_bool_val(&none, &enums, &lra, &times, e).unwrap();
    assert_eq!(val(&x().lt(ArithExpr::from(20))), Some(true));
    assert_eq!(val(&x().gt(ArithExpr::from(20))), Some(false));
    assert_eq!(val(&x().lt(ArithExpr::from(5))), None);
    assert_eq!(val(&x().ge(ArithExpr::from(1))), Some(true));
    assert_eq!(val(&x().le(ArithExpr::from(0))), Some(false));
    assert_eq!(val(&y().le(ArithExpr::from(4))), Some(true));
    assert_eq!(val(&y().ge(ArithExpr::from(4))), None);
    assert_eq!(val(&x().eq(ArithExpr::from(20))), Some(false));
    assert_eq!(val(&ArithExpr::from(3).eq(ArithExpr::from(3))), Some(true));
    assert_eq!(val(&x().eq(ArithExpr::from(3))), None);
}

#[test]
fn connectives_use_three_valued_logic() {
    let lra = LraTheory::new();
    let bools = vec![Some(true), Some(false), None];
    let enums = vec![Some(2), None];
    let times = vec![];
    let b = |i: usize| BoolExpr::Var(BoolVar(i));
    let val = |e: &BoolExpr| get_bool_val(&bools, &enums, &lra, &times, e).unwrap();
    assert_eq!(val(&b(0)), Some(true));
    assert_eq!(val(&!b(1)), Some(true));
    assert_eq!(val(&!b(2)), None);
    assert_eq!(val(&(b(0) & b(2))), None);
    assert_eq!(val(&(b(2) & b(1))), Some(false));
    assert_eq!(val(&(b(0) & b(0))), Some(true));
    assert_eq!(val(&(b(2) | b(0))), Some(true));
    assert_eq!(val(&(b(1) | b(2))), None);
    assert_eq!(val(&(b(1) | b(1))), Some(false));
    assert_eq!(val(&BoolExpr::And(vec![])), Some(true));
    assert_eq!(val(&BoolExpr::Or(vec![])), Some(false));
    assert_eq!(val(&b(0).eq(&b(1))), Some(false));
    assert_eq!(val(&b(0).eq(&b(2))), None);
    let e0 = EnumExpr::Var(EnumVar(0));
    let e1 = EnumExpr::Var(EnumVar(1));
    assert_eq!(val(&e0.eq(EnumExpr::from(2))), Some(true));
    assert_eq!(val(&e0.eq(EnumExpr::from(3))), Some(false));
    assert_eq!(val(&e1.eq(EnumExpr::from(3))), None);
    assert_eq!(get_enum_val(&enums, &e0), Some(2));
    assert_eq!(get_enum_val(&enums, &EnumExpr::Const(9)), Some(9));
    let mixed = BoolExpr::Eq(Box::new(Expr::Bool(b(0))), Box::new(Expr::Enum(e0)));
    assert_eq!(val(&mixed), None);
}

#[test]
fn difference_atoms_use_time_bounds() {
    let lra = LraTheory::new();
    let times = vec![Some((num(0), num(0))), Some((num(3), num(5))), None];
    let val = |e: &BoolExpr| get_bool_val(&vec![], &vec![], &lra, &times, e).unwrap();
    let (o, t, u) = (DlVar(0), DlVar(1), DlVar(2));
    let f = Fraction::from_int;
    assert_eq!(val(&BoolExpr::DlLe(o, t, f(5))), Some(true));
    assert_eq!(val(&BoolExpr::DlLt(o, t, f(5))), None);
    assert_eq!(val(&BoolExpr::DlLt(o, t, f(6))), Some(true));
    assert_eq!(val(&BoolExpr::DlLt(o, t, f(3))), Some(false));
    assert_eq!(val(&BoolExpr::DlGt(o, t, f(2))), Some(true));
    assert_eq!(val(&BoolExpr::DlGe(o, t, f(3))), Some(true));
    assert_eq!(val(&BoolExpr::DlGe(o, t, f(6))), Some(false));
    assert_eq!(val(&BoolExpr::DlEq(o, t, f(9))), Some(false));
    assert_eq!(val(&BoolExpr::DlEq(o, t, f(4))), None);
    assert_eq!(val(&BoolExpr::DlEq(o, o, f(0))), Some(true));
    assert_eq!(val(&BoolExpr::DlLe(o, u, f(0))), None);
}

#[test]
fn time_bounds_come_from_lightest_paths() {
    let mut dl = DlTheory::new();
    let zero = dl.new_var();
    let a = dl.new_var();
    dl.assert_edge(zero, DlEdge { to: a, weight: num(10), literal: 1 }).unwrap();
    dl.assert_edge(a, DlEdge { to: zero, weight: num(-3), literal: 2 }).unwrap();
    assert_eq!(get_time_bounds(&dl, a), Some((num(3), num(10))));
    assert_eq!(get_time_bounds(&dl, zero), Some((num(0), num(0))));
}

#[test]
fn unassigned_variable_is_decided_by_constants() {
    let lra = LraTheory::new();
    let bools: Vec<Option<bool>> = vec![None];
    let enums: Vec<Option<i32>> = vec![];
    let times = vec![];
    let a = BoolExpr::Var(BoolVar(0));
    let val = |e: &BoolExpr| get_bool_val(&bools, &enums, &lra, &times, e).unwrap();
    assert_eq!(val(&a), None);
    assert_eq!(val(&BoolExpr::Or(vec![a.clone(), BoolExpr::True])), Some(true));
    assert_eq!(val(&BoolExpr::And(vec![a.clone(), BoolExpr::False])), Some(false));
    assert_eq!(val(&BoolExpr::Or(vec![a.clone(), BoolExpr::False])), None);
    assert_eq!(val(&BoolExpr::Not(Box::new(BoolExpr::Or(vec![a.clone(), BoolExpr::True])))), Some(false));
}
