use semitone::ast::{ArithExpr, BoolExpr, BoolVar, Expr, IntVar, RealVar};
use semitone::formulas::translate_bool_term;
use semitone::fraction::Fraction;
use semitone::smt::{translate_arith_term, SmtConstant, SmtTerm, TranslateError};

fn scope() -> Vec<(String, ArithExpr)> {
    vec![
        ("x".to_string(), ArithExpr::IntVar(IntVar(0))),
        ("y".to_string(), ArithExpr::RealVar(RealVar(1))),
    ]
}

fn num(n: u64) -> SmtTerm {
    SmtTerm::Constant(SmtConstant::Numeral(n))
}

fn name(s: &str) -> SmtTerm {
    SmtTerm::Identifier(s.to_string())
}

fn app(op: &str, args: Vec<SmtTerm>) -> SmtTerm {
    SmtTerm::Application(op.to_string(), args)
}

fn konst(n: i64, d: i64) -> ArithExpr {
    ArithExpr::Const(Fraction::new(n, d).unwrap())
}

#[test]
fn numerals_and_decimals_become_constants() {
    let s = scope();
    assert_eq!(translate_arith_term(&s, &num(7)), Ok(konst(7, 1)));
    let half = SmtTerm::Constant(SmtConstant::Decimal(5, 10));
    assert_eq!(translate_arith_term(&s, &half), Ok(konst(1, 2)));
    let other = SmtTerm::Constant(SmtConstant::Other);
    assert_eq!(translate_arith_term(&s, &other), Err(TranslateError::UnsupportedConstant));
}

#[test]
fn names_are_looked_up() {
    let s = scope();
    assert_eq!(translate_arith_term(&s, &name("y")), Ok(ArithExpr::RealVar(RealVar(1))));
    assert_eq!(translate_arith_term(&s, &name("z")), Err(TranslateError::Undeclared));
    assert_eq!(translate_arith_term(&s, &SmtTerm::Other), Err(TranslateError::UnsupportedTerm));
}

#[test]
fn sums_and_products() {
    let s = scope();
    let sum = app("+", vec![name("x"), num(2)]);
    assert_eq!(
        translate_arith_term(&s, &sum),
        Ok(ArithExpr::Add(vec![ArithExpr::IntVar(IntVar(0)), konst(2, 1)]))
    );
    let folded = app("*", vec![num(2), num(3)]);
    assert_eq!(translate_arith_term(&s, &folded), Ok(konst(6, 1)));
    let product = app("*", vec![num(2), name("y")]);
    assert_eq!(
        translate_arith_term(&s, &product),
        Ok(ArithExpr::Mul(vec![konst(2, 1), ArithExpr::RealVar(RealVar(1))]))
    );
}

#[test]
fn minus_negates_or_subtracts() {
    let s = scope();
    assert_eq!(translate_arith_term(&s, &app("-", vec![num(4)])), Ok(konst(-4, 1)));
    assert_eq!(
        translate_arith_term(&s, &app("-", vec![name("x")])),
        Ok(ArithExpr::Neg(Box::new(ArithExpr::IntVar(IntVar(0)))))
    );
    assert_eq!(
        translate_arith_term(&s, &app("-", vec![name("x"), num(3), name("y")])),
        Ok(ArithExpr::Add(vec![
            ArithExpr::IntVar(IntVar(0)),
            konst(-3, 1),
            ArithExpr::Neg(Box::new(ArithExpr::RealVar(RealVar(1)))),
        ]))
    );
    assert_eq!(translate_arith_term(&s, &app("-", vec![])), Err(TranslateError::Arity));
}

#[test]
fn division_of_constants_folds() {
    let s = scope();
    assert_eq!(translate_arith_term(&s, &app("/", vec![num(3), num(6)])), Ok(konst(1, 2)));
    assert_eq!(
        translate_arith_term(&s, &app("/", vec![num(3), num(0)])),
        Err(TranslateError::DivisionByZero)
    );
    assert_eq!(
        translate_arith_term(&s, &app("/", vec![name("y"), num(2)])),
        Ok(ArithExpr::Div(Box::new(ArithExpr::RealVar(RealVar(1))), Box::new(konst(2, 1))))
    );
    assert_eq!(translate_arith_term(&s, &app("/", vec![num(1)])), Err(TranslateError::Arity));
}

#[test]
fn div_and_mod_are_euclidean() {
    let s = scope();
    let minus_seven = app("-", vec![num(7)]);
    let q = app("div", vec![app("-", vec![num(7)]), num(2)]);
    let r = app("mod", vec![minus_seven, num(2)]);
    assert_eq!(translate_arith_term(&s, &q), Ok(konst(-4, 1)));
    assert_eq!(translate_arith_term(&s, &r), Ok(konst(1, 1)));
    let q2 = app("div", vec![num(7), app("-", vec![num(2)])]);
    assert_eq!(translate_arith_term(&s, &q2), Ok(konst(-3, 1)));
}

#[test]
fn div_and_mod_errors() {
    let s = scope();
    let half = SmtTerm::Constant(SmtConstant::Decimal(1, 2));
    assert_eq!(
        translate_arith_term(&s, &app("div", vec![half, num(2)])),
        Err(TranslateError::NotInteger)
    );
    assert_eq!(
        translate_arith_term(&s, &app("mod", vec![num(5), num(0)])),
        Err(TranslateError::DivisionByZero)
    );
    assert_eq!(
        translate_arith_term(&s, &app("div", vec![name("x"), num(2)])),
        Err(TranslateError::NonConstantDivMod)
    );
}

#[test]
fn other_operators_are_refused() {
    let s = scope();
    assert_eq!(
        translate_arith_term(&s, &app("and", vec![name("x")])),
        Err(TranslateError::UnsupportedOperator)
    );
    assert_eq!(
        translate_arith_term(&s, &app("+", vec![name("w"), num(1)])),
        Err(TranslateError::Undeclared)
    );
}

fn bools() -> Vec<(String, BoolExpr)> {
    vec![
        ("p".to_string(), BoolExpr::Var(BoolVar(0))),
        ("q".to_string(), BoolExpr::Var(BoolVar(1))),
        ("r".to_string(), BoolExpr::Var(BoolVar(2))),
    ]
}

fn eufs() -> Vec<String> {
    vec!["a".to_string(), "f".to_string()]
}

fn bv(i: usize) -> BoolExpr {
    BoolExpr::Var(BoolVar(i))
}

fn tb(t: &SmtTerm) -> Result<BoolExpr, TranslateError> {
    translate_bool_term(&bools(), &scope(), &eufs(), t)
}

#[test]
fn truth_values_and_names() {
    assert_eq!(tb(&name("true")), Ok(BoolExpr::True));
    assert_eq!(tb(&name("false")), Ok(BoolExpr::False));
    assert_eq!(tb(&name("q")), Ok(bv(1)));
    assert_eq!(tb(&name("s")), Err(TranslateError::Undeclared));
    assert_eq!(tb(&num(1)), Err(TranslateError::UnsupportedTerm));
}

#[test]
fn connectives() {
    assert_eq!(
        tb(&app("and", vec![name("p"), app("not", vec![name("q")])])),
        Ok(BoolExpr::And(vec![bv(0), BoolExpr::Not(Box::new(bv(1)))]))
    );
    assert_eq!(tb(&app("or", vec![name("p"), name("r")])), Ok(BoolExpr::Or(vec![bv(0), bv(2)])));
    assert_eq!(tb(&app("not", vec![])), Err(TranslateError::Arity));
    assert_eq!(tb(&app("xor", vec![name("p"), name("q")])), Err(TranslateError::UnsupportedOperator));
}

#[test]
fn implication_is_a_flattened_disjunction() {
    assert_eq!(
        tb(&app("=>", vec![name("p"), name("q")])),
        Ok(BoolExpr::Or(vec![BoolExpr::Not(Box::new(bv(0))), bv(1)]))
    );
    assert_eq!(
        tb(&app("=>", vec![name("p"), app("or", vec![name("q"), name("r")])])),
        Ok(BoolExpr::Or(vec![BoolExpr::Not(Box::new(bv(0))), bv(1), bv(2)]))
    );
    assert_eq!(
        tb(&app("=>", vec![name("p"), app("=>", vec![name("q"), name("r")])])),
        Ok(BoolExpr::Or(vec![BoolExpr::Not(Box::new(bv(0))), BoolExpr::Not(Box::new(bv(1))), bv(2)]))
    );
    assert_eq!(tb(&app("=>", vec![name("p")])), Err(TranslateError::Arity));
}

#[test]
fn comparisons_of_arithmetic_terms() {
    assert_eq!(
        tb(&app("<", vec![name("x"), num(3)])),
        Ok(BoolExpr::Lt(ArithExpr::IntVar(IntVar(0)), konst(3, 1)))
    );
    assert_eq!(tb(&app(">=", vec![name("y"), num(0)])), Ok(BoolExpr::Ge(ArithExpr::RealVar(RealVar(1)), konst(0, 1))));
    assert_eq!(tb(&app("<=", vec![name("z"), num(0)])), Err(TranslateError::Undeclared));
}

#[test]
fn equalities_by_the_first_argument() {
    assert_eq!(
        tb(&app("=", vec![name("p"), name("q")])),
        Ok(BoolExpr::Eq(Box::new(Expr::Bool(bv(0))), Box::new(Expr::Bool(bv(1)))))
    );
    assert_eq!(
        tb(&app("=", vec![name("x"), num(2)])),
        Ok(BoolExpr::Eq(
            Box::new(Expr::Arith(ArithExpr::IntVar(IntVar(0)))),
            Box::new(Expr::Arith(konst(2, 1)))
        ))
    );
    assert_eq!(
        tb(&app("=", vec![app("f", vec![name("a")]), name("a")])),
        Err(TranslateError::UninterpretedEquality)
    );
    assert_eq!(tb(&app("=", vec![name("x")])), Err(TranslateError::Arity));
}
