use semitone::ast::{distribute, push_negations, to_cnf, ArithExpr, BoolExpr, BoolVar, Expr, IntVar};

// --- push_negations ---

#[test]
fn push_negations_literal_unchanged() {
    assert_eq!(push_negations(&BoolExpr::True), BoolExpr::True);
}

#[test]
fn push_negations_var_unchanged() {
    assert_eq!(push_negations(&BoolExpr::Var(BoolVar(0))), BoolExpr::Var(BoolVar(0)));
}

#[test]
fn push_negations_not_var_becomes_not_var() {
    // Not(var) has no inner Not, so stays as Not(var)
    assert_eq!(push_negations(&!BoolExpr::Var(BoolVar(0))), !BoolExpr::Var(BoolVar(0)));
}

#[test]
fn push_negations_double_not_eliminates() {
    // Not(Not(x)) => x
    assert_eq!(push_negations(&!(!BoolExpr::Var(BoolVar(0)))), BoolExpr::Var(BoolVar(0)));
}

#[test]
fn push_negations_triple_not() {
    // Not(Not(Not(x))) => Not(x)
    assert_eq!(push_negations(&!(!(!BoolExpr::Var(BoolVar(0))))), !BoolExpr::Var(BoolVar(0)));
}

#[test]
fn push_negations_recurses_into_and() {
    let expr = !(!BoolExpr::Var(BoolVar(0))) & !(!BoolExpr::Var(BoolVar(1)));
    assert_eq!(push_negations(&expr), BoolExpr::Var(BoolVar(0)) & BoolExpr::Var(BoolVar(1)));
}

#[test]
fn push_negations_recurses_into_or() {
    let expr = !(!BoolExpr::Var(BoolVar(0))) | BoolExpr::Var(BoolVar(1));
    assert_eq!(push_negations(&expr), BoolExpr::Var(BoolVar(0)) | BoolExpr::Var(BoolVar(1)));
}

#[test]
fn push_negations_not_and_demorgan() {
    // Not(And(a, b)) => Or(Not(a), Not(b))
    let expr = !(BoolExpr::Var(BoolVar(0)) & BoolExpr::Var(BoolVar(1)));
    assert_eq!(push_negations(&expr), !BoolExpr::Var(BoolVar(0)) | !BoolExpr::Var(BoolVar(1)));
}

#[test]
fn push_negations_not_or_demorgan() {
    // Not(Or(a, b)) => And(Not(a), Not(b))
    let expr = !(BoolExpr::Var(BoolVar(0)) | BoolExpr::Var(BoolVar(1)));
    assert_eq!(push_negations(&expr), !BoolExpr::Var(BoolVar(0)) & !BoolExpr::Var(BoolVar(1)));
}

#[test]
fn push_negations_not_lt_becomes_ge() {
    let expr = !BoolExpr::Lt(ArithExpr::IntVar(IntVar(0)), ArithExpr::IntVar(IntVar(1)));
    assert_eq!(push_negations(&expr), BoolExpr::Ge(ArithExpr::IntVar(IntVar(0)), ArithExpr::IntVar(IntVar(1))));
}

#[test]
fn push_negations_not_le_becomes_gt() {
    let expr = !BoolExpr::Le(ArithExpr::IntVar(IntVar(0)), ArithExpr::IntVar(IntVar(1)));
    assert_eq!(push_negations(&expr), BoolExpr::Gt(ArithExpr::IntVar(IntVar(0)), ArithExpr::IntVar(IntVar(1))));
}

#[test]
fn push_negations_not_ge_becomes_lt() {
    let expr = !BoolExpr::Ge(ArithExpr::IntVar(IntVar(0)), ArithExpr::IntVar(IntVar(1)));
    assert_eq!(push_negations(&expr), BoolExpr::Lt(ArithExpr::IntVar(IntVar(0)), ArithExpr::IntVar(IntVar(1))));
}

#[test]
fn push_negations_not_gt_becomes_le() {
    let expr = !BoolExpr::Gt(ArithExpr::IntVar(IntVar(0)), ArithExpr::IntVar(IntVar(1)));
    assert_eq!(push_negations(&expr), BoolExpr::Le(ArithExpr::IntVar(IntVar(0)), ArithExpr::IntVar(IntVar(1))));
}

#[test]
fn push_negations_not_eq_stays_not_eq() {
    let inner = BoolExpr::Eq(Box::new(Expr::Bool(BoolExpr::Var(BoolVar(0)))), Box::new(Expr::Bool(BoolExpr::Var(BoolVar(1)))));
    let expr = !inner.clone();
    assert_eq!(push_negations(&expr), !inner);
}

// --- distribute ---

#[test]
fn distribute_atom_unchanged() {
    assert_eq!(distribute(&BoolExpr::Var(BoolVar(0))), BoolExpr::Var(BoolVar(0)));
    assert_eq!(distribute(&BoolExpr::True), BoolExpr::True);
}

#[test]
fn distribute_and_of_atoms() {
    let expr = BoolExpr::Var(BoolVar(0)) & BoolExpr::Var(BoolVar(1));
    assert_eq!(distribute(&expr), BoolExpr::Var(BoolVar(0)) & BoolExpr::Var(BoolVar(1)));
}

#[test]
fn distribute_or_of_atoms() {
    let expr = BoolExpr::Var(BoolVar(0)) | BoolExpr::Var(BoolVar(1));
    // Or(a, b) with no And inside stays as-is (wrapped in And with one element, unwrapped)
    assert_eq!(distribute(&expr), BoolExpr::Var(BoolVar(0)) | BoolExpr::Var(BoolVar(1)));
}

#[test]
fn distribute_or_over_and() {
    // Or(a, And(b, c)) => And(Or(a, b), Or(a, c))
    let expr = BoolExpr::Var(BoolVar(0)) | (BoolExpr::Var(BoolVar(1)) & BoolExpr::Var(BoolVar(2)));
    let expected = (BoolExpr::Var(BoolVar(0)) | BoolExpr::Var(BoolVar(1))) & (BoolExpr::Var(BoolVar(0)) | BoolExpr::Var(BoolVar(2)));
    assert_eq!(distribute(&expr), expected);
}

#[test]
fn distribute_flattens_nested_or() {
    // Or(Or(a, b), c) => Or(a, b, c)
    let expr = (BoolExpr::Var(BoolVar(0)) | BoolExpr::Var(BoolVar(1))) | BoolExpr::Var(BoolVar(2));
    assert_eq!(distribute(&expr), BoolExpr::Var(BoolVar(0)) | BoolExpr::Var(BoolVar(1)) | BoolExpr::Var(BoolVar(2)));
}

#[test]
fn distribute_flattens_nested_and() {
    // And(And(a, b), c) => And(a, b, c)
    let expr = BoolExpr::Var(BoolVar(0)) & (BoolExpr::Var(BoolVar(1)) & BoolExpr::Var(BoolVar(2)));
    assert_eq!(distribute(&expr), BoolExpr::Var(BoolVar(0)) & BoolExpr::Var(BoolVar(1)) & BoolExpr::Var(BoolVar(2)));
}

#[test]
fn distribute_and_inside_and_flattened() {
    let expr = BoolExpr::Var(BoolVar(0)) & (BoolExpr::Var(BoolVar(1)) & BoolExpr::Var(BoolVar(2)));
    assert_eq!(distribute(&expr), BoolExpr::Var(BoolVar(0)) & BoolExpr::Var(BoolVar(1)) & BoolExpr::Var(BoolVar(2)));
}

#[test]
fn distribute_cartesian_product_two_ands() {
    // Or(And(a, b), And(c, d)) => And(Or(a,c), Or(a,d), Or(b,c), Or(b,d))
    let expr = (BoolExpr::Var(BoolVar(0)) & BoolExpr::Var(BoolVar(1))) | (BoolExpr::Var(BoolVar(2)) & BoolExpr::Var(BoolVar(3)));
    let result = distribute(&expr);
    // Should be an And of four Or clauses
    if let BoolExpr::And(clauses) = result {
        assert_eq!(clauses.len(), 4);
        for clause in &clauses {
            assert!(matches!(clause, BoolExpr::Or(_)));
        }
    } else {
        panic!("expected And");
    }
}

// --- to_cnf ---

#[test]
fn to_cnf_atom_unchanged() {
    assert_eq!(to_cnf(&BoolExpr::Var(BoolVar(0))), BoolExpr::Var(BoolVar(0)));
}

#[test]
fn to_cnf_already_cnf() {
    // And(Or(a, b), Or(c, d)) is already CNF
    let expr = (BoolExpr::Var(BoolVar(0)) | BoolExpr::Var(BoolVar(1))) & (BoolExpr::Var(BoolVar(2)) | BoolExpr::Var(BoolVar(3)));
    assert_eq!(to_cnf(&expr), expr);
}

#[test]
fn to_cnf_double_negation() {
    assert_eq!(to_cnf(&!(!BoolExpr::Var(BoolVar(0)))), BoolExpr::Var(BoolVar(0)));
}

#[test]
fn to_cnf_not_and_demorgan_then_distribute() {
    // Not(And(a, b)) => Or(Not(a), Not(b)) — already a single clause
    let expr = !(BoolExpr::Var(BoolVar(0)) & BoolExpr::Var(BoolVar(1)));
    assert_eq!(to_cnf(&expr), !BoolExpr::Var(BoolVar(0)) | !BoolExpr::Var(BoolVar(1)));
}

#[test]
fn to_cnf_not_or_demorgan() {
    // Not(Or(a, b)) => And(Not(a), Not(b))
    let expr = !(BoolExpr::Var(BoolVar(0)) | BoolExpr::Var(BoolVar(1)));
    assert_eq!(to_cnf(&expr), !BoolExpr::Var(BoolVar(0)) & !BoolExpr::Var(BoolVar(1)));
}

#[test]
fn to_cnf_or_over_and_distributes() {
    // Or(a, And(b, c)) => And(Or(a, b), Or(a, c))
    let expr = BoolExpr::Var(BoolVar(0)) | (BoolExpr::Var(BoolVar(1)) & BoolExpr::Var(BoolVar(2)));
    let expected = (BoolExpr::Var(BoolVar(0)) | BoolExpr::Var(BoolVar(1))) & (BoolExpr::Var(BoolVar(0)) | BoolExpr::Var(BoolVar(2)));
    assert_eq!(to_cnf(&expr), expected);
}

#[test]
fn to_cnf_not_comparison_flipped() {
    assert_eq!(to_cnf(&!(BoolExpr::Lt(ArithExpr::from(0), ArithExpr::from(1)))), BoolExpr::Ge(ArithExpr::from(0), ArithExpr::from(1)));
    assert_eq!(to_cnf(&!(BoolExpr::Ge(ArithExpr::from(0), ArithExpr::from(1)))), BoolExpr::Lt(ArithExpr::from(0), ArithExpr::from(1)));
}

#[test]
fn to_cnf_nested_not_and_or() {
    // Not(Or(And(a,b), c)) => And(Or(Not(a), Not(c)), Or(Not(b), Not(c)))
    let expr = !(BoolExpr::Var(BoolVar(0)) | (BoolExpr::Var(BoolVar(1)) & BoolExpr::Var(BoolVar(2))));
    // push_negations: And(Or(Not(a), Not(b)), Not(c))
    // distribute: And of Or(Not(a),Not(b)) and Not(c) — already flat
    let result = to_cnf(&expr);
    if let BoolExpr::And(clauses) = result {
        assert_eq!(clauses.len(), 2);
    } else {
        panic!("expected And, got: {:?}", result);
    }
}

#[test]
fn to_cnf_keeps_clauses_flat() {
    let v = |i: u32| BoolExpr::Var(BoolVar(i as _));
    let inner = BoolExpr::Or(vec![v(1), BoolExpr::And(vec![v(2), v(3)])]);
    let expr = BoolExpr::Or(vec![v(0), inner]);
    let expected = BoolExpr::And(vec![
        BoolExpr::Or(vec![v(0), v(1), v(2)]),
        BoolExpr::Or(vec![v(0), v(1), v(3)]),
    ]);
    assert_eq!(to_cnf(&expr), expected);
}
