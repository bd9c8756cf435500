use semitone::ast::{ArithExpr, BoolExpr, BoolVar, DlVar, EnumExpr, EnumVar, EufExpr, EufVar, Expr, FuncId, IntVar, RealVar};
use semitone::fraction::Fraction;

// --- BoolExpr Display ---

#[test]
fn bool_display_lit() {
    assert_eq!(BoolExpr::True.to_text(), "true");
    assert_eq!(BoolExpr::False.to_text(), "false");
}

#[test]
fn bool_display_var() {
    assert_eq!(BoolExpr::Var(BoolVar(3)).to_text(), "b3");
}

#[test]
fn bool_display_not() {
    assert_eq!((!BoolExpr::Var(BoolVar(0))).to_text(), "¬b0");
}

#[test]
fn bool_display_and() {
    assert_eq!((BoolExpr::Var(BoolVar(0)) & BoolExpr::Var(BoolVar(1))).to_text(), "(b0 ∧ b1)");
}

#[test]
fn bool_display_or() {
    assert_eq!((BoolExpr::Var(BoolVar(0)) | BoolExpr::Var(BoolVar(1))).to_text(), "(b0 ∨ b1)");
}

#[test]
fn bool_display_comparisons() {
    assert_eq!(BoolExpr::Lt(ArithExpr::IntVar(IntVar(0)), ArithExpr::IntVar(IntVar(1))).to_text(), "i0 < i1");
    assert_eq!(BoolExpr::Le(ArithExpr::IntVar(IntVar(0)), ArithExpr::IntVar(IntVar(1))).to_text(), "i0 ≤ i1");
    assert_eq!(BoolExpr::Ge(ArithExpr::IntVar(IntVar(0)), ArithExpr::IntVar(IntVar(1))).to_text(), "i0 ≥ i1");
    assert_eq!(BoolExpr::Gt(ArithExpr::IntVar(IntVar(0)), ArithExpr::IntVar(IntVar(1))).to_text(), "i0 > i1");
}

#[test]
fn bool_display_eq() {
    let e = BoolExpr::Eq(Box::new(Expr::Bool(BoolExpr::Var(BoolVar(0)))), Box::new(Expr::Bool(BoolExpr::Var(BoolVar(1)))));
    assert_eq!(e.to_text(), "b0 = b1");
}

// --- ArithExpr Display ---

#[test]
fn arith_display_lit() {
    assert_eq!(ArithExpr::Const(Fraction::from_int(5)).to_text(), "5");
}

#[test]
fn arith_display_int_real() {
    assert_eq!(ArithExpr::IntVar(IntVar(2)).to_text(), "i2");
    assert_eq!(ArithExpr::RealVar(RealVar(5)).to_text(), "r5");
}

#[test]
fn arith_display_add() {
    let e = ArithExpr::IntVar(IntVar(0)) + ArithExpr::IntVar(IntVar(1));
    assert_eq!(e.to_text(), "(i0 + i1)");
}

#[test]
fn arith_display_sub() {
    let e = ArithExpr::IntVar(IntVar(0)) - ArithExpr::IntVar(IntVar(1));
    assert_eq!(e.to_text(), "(i0 - i1)");
}

#[test]
fn arith_display_mul() {
    let e = ArithExpr::IntVar(IntVar(0)) * ArithExpr::IntVar(IntVar(1));
    assert_eq!(e.to_text(), "(i0 * i1)");
}

#[test]
fn arith_display_div() {
    let e = ArithExpr::Div(Box::new(ArithExpr::IntVar(IntVar(0))), Box::new(ArithExpr::IntVar(IntVar(1))));
    assert_eq!(e.to_text(), "(i0 / i1)");
}

#[test]
fn display_fractions_enums_terms_and_differences() {
    let half = ArithExpr::Const(Fraction::new(-1, 2).unwrap());
    assert_eq!(half.to_text(), "-1/2");
    assert_eq!(EnumExpr::Var(EnumVar(4)).to_text(), "e4");
    assert_eq!(EnumExpr::Const(-7).to_text(), "#-7");
    let app = EufExpr::App(FuncId(3), vec![Expr::Euf(EufExpr::Var(EufVar(1))), Expr::Arith(ArithExpr::IntVar(IntVar(2)))]);
    assert_eq!(app.to_text(), "f3(u1, i2)");
    let d = BoolExpr::DlLe(DlVar(1), DlVar(2), Fraction::from_int(10));
    assert_eq!(d.to_text(), "d2 - d1 ≤ 10");
    let sum = ArithExpr::IntVar(IntVar(0)) - ArithExpr::IntVar(IntVar(1)) + ArithExpr::from(3);
    assert_eq!(sum.to_text(), "(i0 - i1 + 3)");
    assert_eq!(ArithExpr::Add(vec![]).to_text(), "()");
    assert_eq!((ArithExpr::IntVar(IntVar(0)) * ArithExpr::from(2) * ArithExpr::from(5)).to_text(), "(i0 * 2 * 5)");
    assert_eq!(BoolExpr::And(vec![]).to_text(), "()");
    assert_eq!(Expr::Bool(BoolExpr::False).to_text(), "false");
}
