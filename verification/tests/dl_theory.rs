use semitone::dl_theory::{DlEdge, DlError, DlTheory};
use semitone::rational::{InfRational, Rational};

fn edge(to: usize, weight: InfRational, literal: usize) -> DlEdge {
    DlEdge { to, weight, literal }
}

#[test]
fn test_initialization_and_vars() {
    let mut dl = DlTheory::new();

    let zero = dl.new_var();
    let x = dl.new_var();

    assert_eq!(zero, 0, "First variable should have ID 0");
    assert_eq!(x, 1);
    assert_eq!(dl.node_count(), 2);
    assert_eq!(dl.potential_len(), 2);
}

#[test]
fn test_simple_bounds_extraction() {
    let mut dl = DlTheory::new();
    let zero = dl.new_var();
    let x = dl.new_var();
    let y = dl.new_var();

    assert!(dl.assert_edge(zero, edge(x, InfRational::from_int(10), 100)).is_ok());

    assert!(dl.assert_edge(x, edge(y, InfRational::from_int(5), 101)).is_ok());

    assert_eq!(dl.ub(x).unwrap(), InfRational::from_int(10));
    assert_eq!(dl.ub(y).unwrap(), InfRational::from_int(15));

    assert!(dl.assert_edge(x, edge(zero, InfRational::from_int(-3), 102)).is_ok());

    assert_eq!(dl.lb(x).unwrap(), InfRational::from_int(3));

    let ubs = dl.ubs().unwrap();
    let lbs = dl.lbs().unwrap();
    assert_eq!(ubs[x], InfRational::from_int(10));
    assert_eq!(ubs[y], InfRational::from_int(15));
    assert_eq!(lbs[x], InfRational::from_int(3));
}

#[test]
fn test_negative_cycle_detection() {
    let mut dl = DlTheory::new();
    let zero = dl.new_var();
    let x = dl.new_var();

    assert!(dl.assert_edge(zero, edge(x, InfRational::from_int(5), 1)).is_ok());

    let res = dl.assert_edge(x, edge(zero, InfRational::from_int(-10), 2));

    assert!(res.is_err(), "Should detect a negative cycle");

    let nogood = match res.unwrap_err() {
        DlError::NegativeCycle(n) => n,
        DlError::Unresolved => panic!("expected a negative cycle"),
    };
    assert_eq!(nogood.len(), 2);
    assert!(nogood.contains(&1));
    assert!(nogood.contains(&2));
}

#[test]
fn test_strict_inequality_infinitesimal_cycle() {
    let mut dl = DlTheory::new();
    let zero = dl.new_var();
    let x = dl.new_var();

    assert!(dl.assert_edge(zero, edge(x, InfRational::from_int(5), 1)).is_ok());

    let res = dl.assert_edge(x, edge(zero, InfRational::with_eps(Rational::from_int(-5), -1), 2));

    assert!(res.is_err(), "Should detect a negative cycle with infinitesimal weight");
}

#[test]
fn test_backtracking_cancel_until() {
    let mut dl = DlTheory::new();
    let zero = dl.new_var();
    let x = dl.new_var();

    assert!(dl.assert_edge(zero, edge(x, InfRational::from_int(10), 1)).is_ok());
    let target_len = dl.trail_len();

    assert!(dl.assert_edge(zero, edge(x, InfRational::from_int(2), 2)).is_ok());
    assert_eq!(dl.ub(x).unwrap(), InfRational::from_int(2), "UB should be updated to 2 after the second edge is added");

    dl.cancel_until(target_len);

    assert_eq!(dl.out_degree(zero), 1);
    assert_eq!(dl.ub(x).unwrap(), InfRational::from_int(10), "UB should revert to 10 after backtracking");
}

#[test]
fn dl_zero_weight_cycle_is_consistent() {
    let mut dl = DlTheory::new();
    let a = dl.new_var();
    let b = dl.new_var();
    assert!(dl.assert_edge(a, edge(b, InfRational::from_int(0), 1)).is_ok());
    assert!(dl.assert_edge(b, edge(a, InfRational::from_int(0), 2)).is_ok());
    assert_eq!(dl.ub(b).unwrap(), InfRational::from_int(0));
    assert_eq!(dl.lb(b).unwrap(), InfRational::from_int(0));
}

#[test]
fn dl_unreachable_node_has_infinite_bounds() {
    let mut dl = DlTheory::new();
    let _zero = dl.new_var();
    let x = dl.new_var();
    assert_eq!(dl.ub(x).unwrap(), InfRational::positive_inf());
    assert_eq!(dl.lb(x).unwrap(), InfRational::negative_inf());
    assert_eq!(dl.exact_distance(x, x).unwrap(), InfRational::from_int(0));
}

#[test]
fn dl_cancel_beyond_trail_is_noop() {
    let mut dl = DlTheory::new();
    let zero = dl.new_var();
    let x = dl.new_var();
    assert!(dl.assert_edge(zero, edge(x, InfRational::from_int(4), 7)).is_ok());
    dl.cancel_until(5);
    assert_eq!(dl.trail_len(), 1);
    dl.cancel_until(0);
    assert_eq!(dl.trail_len(), 0);
    assert_eq!(dl.ub(x).unwrap(), InfRational::positive_inf());
}
