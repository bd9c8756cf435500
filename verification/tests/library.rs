use semitone::ast::{max, min, ArithExpr, BoolExpr, BoolVar, EnumExpr, EnumVar, Expr, IntVar, RealVar};
use semitone::fraction::{euclidean_div_mod, Fraction};
use semitone::lit::Lit;
use semitone::lra_theory::LraTheory;
use semitone::proxy::{ProxyRegistry, TheoryConstraint};
use semitone::rational::InfRational;

fn b(i: usize) -> BoolExpr {
    BoolExpr::Var(BoolVar(i))
}

fn iv(i: usize) -> ArithExpr {
    ArithExpr::IntVar(IntVar(i))
}

#[test]
fn proxy_lookup_returns_latest_registration() {
    let mut reg = ProxyRegistry::new();
    let c = TheoryConstraint::LraLb(0, InfRational::from_int(3));
    assert_eq!(reg.get_proxy(&c), None);
    reg.register(c, Lit::new(1, false));
    reg.register(TheoryConstraint::EnumEq(2, 5), Lit::new(2, false));
    assert_eq!(reg.get_proxy(&c), Some(Lit::new(1, false)));
    assert_eq!(reg.get_constraint(Lit::new(2, false)), Some(TheoryConstraint::EnumEq(2, 5)));
    assert_eq!(reg.get_constraint(Lit::new(2, true)), None);
    reg.register(TheoryConstraint::LraLb(0, InfRational::from_int(3)), Lit::new(7, true));
    assert_eq!(reg.get_proxy(&c), Some(Lit::new(7, true)));
}

#[test]
fn operators_flatten_nested_connectives() {
    assert_eq!((b(0) & b(1)) & (b(2) & b(3)), BoolExpr::And(vec![b(0), b(1), b(2), b(3)]));
    assert_eq!(b(0) | (b(1) | b(2)), BoolExpr::Or(vec![b(0), b(1), b(2)]));
    assert_eq!(!b(4), BoolExpr::Not(Box::new(b(4))));
    assert_eq!((iv(0) + iv(1)) + iv(2), ArithExpr::Add(vec![iv(0), iv(1), iv(2)]));
    assert_eq!(iv(0) - iv(1), ArithExpr::Add(vec![iv(0), ArithExpr::Neg(Box::new(iv(1)))]));
    assert_eq!(iv(0) * ArithExpr::from(3), ArithExpr::Mul(vec![iv(0), ArithExpr::Const(Fraction::from_int(3))]));
    assert_eq!(iv(0) / iv(1), ArithExpr::Div(Box::new(iv(0)), Box::new(iv(1))));
    assert_eq!(BoolExpr::from(true), BoolExpr::True);
    assert_eq!(Expr::from(false), Expr::Bool(BoolExpr::False));
    assert_eq!(EnumExpr::from(4), EnumExpr::Const(4));
}

#[test]
fn builders_make_the_expected_atoms() {
    assert_eq!(iv(0).lt(iv(1)), BoolExpr::Lt(iv(0), iv(1)));
    assert_eq!(iv(0).ge(ArithExpr::from(2)), BoolExpr::Ge(iv(0), ArithExpr::from(2)));
    assert_eq!(
        iv(0).eq(iv(1)),
        BoolExpr::Eq(Box::new(Expr::Arith(iv(0))), Box::new(Expr::Arith(iv(1))))
    );
    let e = EnumExpr::Var(EnumVar(1));
    assert_eq!(
        e.eq(EnumExpr::from(2)),
        BoolExpr::Eq(Box::new(Expr::Enum(e)), Box::new(Expr::Enum(EnumExpr::Const(2))))
    );
    assert_eq!(b(0).eq(&b(1)), BoolExpr::Eq(Box::new(Expr::Bool(b(0))), Box::new(Expr::Bool(b(1)))));
}

#[test]
fn min_constrains_below_all_and_equal_to_one() {
    let z = ArithExpr::RealVar(RealVar(9));
    let r = min(z.clone(), vec![iv(0), iv(1)]);
    let eq = |a: ArithExpr| BoolExpr::Eq(Box::new(Expr::Arith(z.clone())), Box::new(Expr::Arith(a)));
    assert_eq!(
        r,
        BoolExpr::And(vec![
            BoolExpr::Le(z.clone(), iv(0)),
            BoolExpr::Le(z.clone(), iv(1)),
            BoolExpr::Or(vec![eq(iv(0)), eq(iv(1))]),
        ])
    );
    let r = max(z.clone(), vec![iv(3)]);
    assert_eq!(r, BoolExpr::And(vec![BoolExpr::Ge(z.clone(), iv(3)), BoolExpr::Or(vec![eq(iv(3))])]));
}

#[test]
fn linear_difference_substitutes_basic_variables() {
    let mut lra = LraTheory::new();
    let x = lra.mk_real();
    let y = lra.mk_real();
    let s = lra.mk_real();
    let mut row = semitone::sparse_row::SparseRow::new();
    row.insert(x, Fraction::from_int(1));
    row.insert(y, Fraction::from_int(2));
    lra.add_row(s, row).unwrap();
    // (2*s + 3) - (x + 1) = x + 4y + 2
    let e1 = ArithExpr::Mul(vec![ArithExpr::from(2), iv(s)]) + ArithExpr::from(3);
    let e2 = iv(x) + ArithExpr::from(1);
    let (vars, c) = lra.diff(&e1, &e2).unwrap();
    assert_eq!(vars.len(), 2);
    assert_eq!(vars.get(&x), Some(&Fraction::from_int(1)));
    assert_eq!(vars.get(&y), Some(&Fraction::from_int(4)));
    assert_eq!(vars.get(&s), None);
    assert_eq!(c, Fraction::from_int(2));
}

#[test]
fn linear_difference_drops_cancelled_variables() {
    let lra = {
        let mut l = LraTheory::new();
        l.mk_real();
        l
    };
    let e1 = iv(0) + ArithExpr::from(5);
    let e2 = iv(0) / ArithExpr::from(1);
    let (vars, c) = lra.diff(&e1, &e2).unwrap();
    assert!(vars.is_empty());
    assert_eq!(c, Fraction::from_int(5));
}

#[test]
fn euclidean_division_has_a_non_negative_remainder() {
    assert_eq!(euclidean_div_mod(7, 2), (3, 1));
    assert_eq!(euclidean_div_mod(-7, 2), (-4, 1));
    assert_eq!(euclidean_div_mod(7, -2), (-3, 1));
    assert_eq!(euclidean_div_mod(-7, -2), (4, 1));
    assert_eq!(euclidean_div_mod(-8, 2), (-4, 0));
    assert_eq!(euclidean_div_mod(i64::MIN, 1), (i64::MIN as i128, 0));
    assert_eq!(euclidean_div_mod(i64::MIN, -1), (1i128 << 63, 0));
    assert_eq!(euclidean_div_mod(i64::MIN, i64::MAX), (-2, i64::MAX - 1));
}
