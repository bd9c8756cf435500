use semitone::ast::{BoolExpr, BoolVar};
use semitone::encode::encode_bool;
use semitone::lit::Lit;

fn pos(v: usize) -> Lit {
    Lit::new(v, false)
}

fn neg(v: usize) -> Lit {
    Lit::new(v, true)
}

#[test]
fn conjunction_gets_a_defined_proxy() {
    let tru = pos(2);
    let mut next = 3usize;
    let mut clauses: Vec<Vec<Lit>> = Vec::new();
    let e = BoolExpr::And(vec![BoolExpr::Var(BoolVar(0)), BoolExpr::Var(BoolVar(1))]);
    let r = encode_bool(&e, tru, &mut next, &mut clauses);
    assert_eq!(r, pos(3));
    assert_eq!(next, 4);
    assert_eq!(clauses, vec![vec![neg(3), pos(0)], vec![neg(3), pos(1)], vec![neg(0), neg(1), pos(3)]]);
}

#[test]
fn disjunction_gets_a_defined_proxy() {
    let tru = pos(2);
    let mut next = 3usize;
    let mut clauses: Vec<Vec<Lit>> = Vec::new();
    let e = BoolExpr::Or(vec![BoolExpr::Var(BoolVar(0)), BoolExpr::Not(Box::new(BoolExpr::Var(BoolVar(1))))]);
    let r = encode_bool(&e, tru, &mut next, &mut clauses);
    assert_eq!(r, pos(3));
    assert_eq!(next, 4);
    assert_eq!(clauses, vec![vec![neg(0), pos(3)], vec![pos(1), pos(3)], vec![pos(0), neg(1), neg(3)]]);
}

#[test]
fn constants_and_variables_need_no_clause() {
    let tru = pos(0);
    let mut next = 2usize;
    let mut clauses: Vec<Vec<Lit>> = Vec::new();
    assert_eq!(encode_bool(&BoolExpr::True, tru, &mut next, &mut clauses), pos(0));
    assert_eq!(encode_bool(&BoolExpr::False, tru, &mut next, &mut clauses), neg(0));
    assert_eq!(encode_bool(&BoolExpr::Var(BoolVar(1)), tru, &mut next, &mut clauses), pos(1));
    assert_eq!(encode_bool(&BoolExpr::Not(Box::new(BoolExpr::Var(BoolVar(1)))), tru, &mut next, &mut clauses), neg(1));
    assert_eq!(next, 2);
    assert!(clauses.is_empty());
}

#[test]
fn nested_gates_number_operands_first() {
    let tru = pos(1);
    let mut next = 2usize;
    let mut clauses: Vec<Vec<Lit>> = Vec::new();
    let inner = BoolExpr::Or(vec![BoolExpr::Var(BoolVar(0)), BoolExpr::False]);
    let e = BoolExpr::And(vec![inner, BoolExpr::True]);
    let r = encode_bool(&e, tru, &mut next, &mut clauses);
    assert_eq!(r, pos(3));
    assert_eq!(next, 4);
    assert_eq!(clauses.len(), 3 + 3);
    assert_eq!(clauses[2], vec![pos(0), neg(1), neg(2)]);
    assert_eq!(clauses[5], vec![neg(2), neg(1), pos(3)]);
}
