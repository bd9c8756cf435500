use semitone::ast::{ArithExpr, BoolExpr, DlVar, Expr, RealVar};
use semitone::engine::{AssertError, Engine};
use semitone::fraction::Fraction;
use semitone::formula_checks::{assert_term, TermError};
use semitone::rational::InfRational;
use semitone::smt::{SmtConstant, SmtTerm, TranslateError};

fn rv(i: usize) -> ArithExpr {
    ArithExpr::RealVar(RealVar(i))
}

fn k(v: i32) -> ArithExpr {
    ArithExpr::from(v)
}

#[test]
fn a_conjunction_of_comparisons_bounds_the_variable() {
    let mut e = Engine::new();
    let x = e.lra.mk_real();
    let f = BoolExpr::And(vec![BoolExpr::Le(rv(x), k(3)), BoolExpr::Ge(rv(x), k(1))]);
    assert_eq!(e.assert_expr(&f, true), Ok(true));
    assert_eq!(*e.lra.ub(x), InfRational::from_int(3));
    assert_eq!(*e.lra.lb(x), InfRational::from_int(1));
    assert_eq!(e.clauses.len(), 1);
}

#[test]
fn a_negated_disjunction_is_a_conjunction_of_negations() {
    let mut e = Engine::new();
    let x = e.lra.mk_real();
    let f = BoolExpr::Not(Box::new(BoolExpr::Or(vec![BoolExpr::Gt(rv(x), k(3)), BoolExpr::Lt(rv(x), k(1))])));
    assert_eq!(e.assert_expr(&f, true), Ok(true));
    assert_eq!(*e.lra.ub(x), InfRational::from_int(3));
    assert_eq!(*e.lra.lb(x), InfRational::from_int(1));
}

#[test]
fn contradicting_bounds_are_refused_at_once() {
    let mut e = Engine::new();
    let x = e.lra.mk_real();
    let f = BoolExpr::And(vec![BoolExpr::Le(rv(x), k(3)), BoolExpr::Ge(rv(x), k(5)), BoolExpr::Le(rv(x), k(1))]);
    assert_eq!(e.assert_expr(&f, true), Ok(false));
    // the leaf after the refused one is not asserted
    assert_eq!(*e.lra.ub(x), InfRational::from_int(3));
    let g = BoolExpr::Lt(k(1), k(0));
    assert_eq!(e.assert_expr(&g, true), Ok(false));
    assert_eq!(e.assert_expr(&g, false), Ok(true));
}

#[test]
fn an_arithmetic_equality_pins_the_variable() {
    let mut e = Engine::new();
    let x = e.lra.mk_real();
    let f = BoolExpr::Eq(Box::new(Expr::Arith(rv(x))), Box::new(Expr::Arith(k(2))));
    assert_eq!(e.assert_expr(&f, true), Ok(true));
    assert_eq!(*e.lra.ub(x), InfRational::from_int(2));
    assert_eq!(*e.lra.lb(x), InfRational::from_int(2));
}

#[test]
fn a_boolean_disjunction_becomes_clauses() {
    let mut e = Engine::new();
    let p = e.new_bool_var();
    let q = e.new_bool_var();
    assert_eq!(e.next_var, 3);
    let f = BoolExpr::Or(vec![BoolExpr::Var(p), BoolExpr::Var(q)]);
    assert_eq!(e.assert_expr(&f, true), Ok(true));
    // one fresh variable for the disjunction, its definition, and the unit clause
    assert_eq!(e.next_var, 4);
    let first = e.clauses.last().unwrap()[0];
    assert_eq!(e.clauses.last().unwrap().len(), 1);
    assert_eq!(first.var, 3);
    // asserted false, the unit clause holds the negation
    let g = BoolExpr::And(vec![BoolExpr::Var(p), BoolExpr::Var(q)]);
    assert_eq!(e.assert_expr(&g, false), Ok(true));
    let second = e.clauses.last().unwrap()[0];
    assert_eq!(second.var, 4);
    assert_ne!(first.sign, second.sign);
}

#[test]
fn leaves_without_an_encoding_are_refused_unchanged() {
    let mut e = Engine::new();
    let x = e.lra.mk_real();
    let dl = BoolExpr::DlLe(DlVar(0), DlVar(1), Fraction::from_int(3));
    assert_eq!(e.assert_expr(&dl, true), Err(AssertError::Unsupported));
    let mixed = BoolExpr::Or(vec![BoolExpr::Le(rv(x), k(3)), BoolExpr::Ge(rv(x), k(5))]);
    assert_eq!(e.assert_expr(&mixed, true), Err(AssertError::Unsupported));
    let ne = BoolExpr::Eq(Box::new(Expr::Arith(rv(x))), Box::new(Expr::Arith(k(2))));
    assert_eq!(e.assert_expr(&ne, false), Err(AssertError::Unsupported));
    assert_eq!(e.clauses.len(), 1);
    assert_eq!(*e.lra.ub(x), InfRational::positive_inf());
}

#[test]
fn a_double_negation_asserts_the_formula() {
    let mut e = Engine::new();
    let x = e.lra.mk_real();
    let f = BoolExpr::Not(Box::new(BoolExpr::Not(Box::new(BoolExpr::Le(rv(x), k(4))))));
    assert_eq!(e.assert_expr(&f, true), Ok(true));
    assert_eq!(*e.lra.ub(x), InfRational::from_int(4));
}

fn num(n: u64) -> SmtTerm {
    SmtTerm::Constant(SmtConstant::Numeral(n))
}

fn name(s: &str) -> SmtTerm {
    SmtTerm::Identifier(s.to_string())
}

fn app(op: &str, args: Vec<SmtTerm>) -> SmtTerm {
    SmtTerm::Application(op.to_string(), args)
}

#[test]
fn terms_are_translated_and_asserted() {
    let mut e = Engine::new();
    let x = e.lra.mk_real();
    let p = e.new_bool_var();
    let q = e.new_bool_var();
    let bools = vec![("p".to_string(), BoolExpr::Var(p)), ("q".to_string(), BoolExpr::Var(q))];
    let ariths = vec![("x".to_string(), rv(x))];
    let eufs: Vec<String> = vec![];
    let bounds = app("and", vec![app("<=", vec![name("x"), num(3)]), app(">=", vec![name("x"), num(1)])]);
    assert_eq!(assert_term(&mut e, &bools, &ariths, &eufs, &bounds), Ok(true));
    assert_eq!(*e.lra.ub(x), InfRational::from_int(3));
    assert_eq!(*e.lra.lb(x), InfRational::from_int(1));
    let implication = app("=>", vec![name("p"), name("q")]);
    let before = e.clauses.len();
    assert_eq!(assert_term(&mut e, &bools, &ariths, &eufs, &implication), Ok(true));
    assert!(e.clauses.len() > before);
    let too_big = app(">", vec![name("x"), num(7)]);
    assert_eq!(assert_term(&mut e, &bools, &ariths, &eufs, &too_big), Ok(false));
}

#[test]
fn terms_that_cannot_be_asserted() {
    let mut e = Engine::new();
    let x = e.lra.mk_real();
    let bools: Vec<(String, BoolExpr)> = vec![];
    let ariths = vec![("x".to_string(), rv(x)), ("w".to_string(), rv(5))];
    let eufs: Vec<String> = vec![];
    let square = app("<", vec![app("*", vec![name("x"), name("x")]), num(1)]);
    assert_eq!(assert_term(&mut e, &bools, &ariths, &eufs, &square), Err(TermError::NonLinear));
    let unknown = app("<", vec![name("w"), num(1)]);
    assert_eq!(assert_term(&mut e, &bools, &ariths, &eufs, &unknown), Err(TermError::NonLinear));
    let undeclared = app("<", vec![name("z"), num(1)]);
    assert_eq!(
        assert_term(&mut e, &bools, &ariths, &eufs, &undeclared),
        Err(TermError::Translate(TranslateError::Undeclared))
    );
    let either = app("or", vec![app("<", vec![name("x"), num(1)]), app(">", vec![name("x"), num(2)])]);
    assert_eq!(assert_term(&mut e, &bools, &ariths, &eufs, &either), Err(TermError::Unsupported));
    assert_eq!(e.clauses.len(), 1);
}
