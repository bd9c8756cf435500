//! Reading the current model: the values and bounds of arithmetic
//! expressions, and the truth of formulas where the assignment and the bounds
//! already decide it.
use crate::ast::{
    ariths_model, bools_model, lemma_ariths_model, lemma_bools_model, ArithExpr, BoolExpr, EnumExpr, Expr, SArith, SBool, SExpr,
};
use crate::fraction::{Fraction, Ratio};
use crate::dl_theory::{is_shortest, DlTheory};
use crate::lra_theory::{LraError, LraTheory};
use crate::rational::{
    lemma_inf_rational_wf, lemma_iratio_add_eqv, lemma_iratio_add_monotone, lemma_iratio_eqv, lemma_iratio_le_trans, ExtRatio, IRatio,
    InfRational, Rational,
};
use vstd::prelude::*;

verus! {

broadcast use lemma_inf_rational_wf, crate::fraction::lemma_fraction_fits;

/// Every variable of `e` is below `n`.
pub open spec fn vars_below(e: SArith, n: nat) -> bool
    decreases e, 1int,
{
    match e {
        SArith::Const(_) => true,
        SArith::IntVar(v) => v.0 < n,
        SArith::RealVar(v) => v.0 < n,
        SArith::Add(ts) => all_vars_below(ts, n),
        SArith::Mul(ts) => all_vars_below(ts, n),
        SArith::Div(a, b) => vars_below(*a, n) && vars_below(*b, n),
        SArith::Neg(a) => vars_below(*a, n),
    }
}

pub open spec fn all_vars_below(ts: Seq<SArith>, n: nat) -> bool
    decreases ts, 0int,
{
    if ts.len() == 0 {
        true
    } else {
        all_vars_below(ts.drop_last(), n) && vars_below(ts.last(), n)
    }
}

/// The constant `c` as a value.
pub open spec fn const_value(c: Fraction) -> IRatio {
    IRatio { real: ExtRatio::Fin(c@), eps: Ratio::zero() }
}

/// The current values of the arithmetic variables.
pub open spec fn values_of(lra: LraTheory) -> Seq<IRatio> {
    Seq::new(lra.num_vars(), |v: int| lra.val(v))
}

/// The current lower bounds of the arithmetic variables.
pub open spec fn lower_of(lra: LraTheory) -> Seq<IRatio> {
    Seq::new(lra.num_vars(), |v: int| lra.lb_of(v))
}

/// The current upper bounds of the arithmetic variables.
pub open spec fn upper_of(lra: LraTheory) -> Seq<IRatio> {
    Seq::new(lra.num_vars(), |v: int| lra.ub_of(v))
}

/// The value of `e` under `vals`, when `e` is built from constants,
/// variables, sums and negations.
pub open spec fn arith_value(vals: Seq<IRatio>, e: SArith) -> Option<IRatio>
    decreases e, 1int,
{
    match e {
        SArith::Const(c) => Some(const_value(c)),
        SArith::IntVar(v) => Some(vals[v.0 as int]),
        SArith::RealVar(v) => Some(vals[v.0 as int]),
        SArith::Add(ts) => sum_value(vals, ts),
        SArith::Neg(a) => match arith_value(vals, *a) {
            Some(x) => Some(x.neg()),
            None => None,
        },
        _ => None,
    }
}

/// The sum of the values of `ts`, from zero, left to right.
pub open spec fn sum_value(vals: Seq<IRatio>, ts: Seq<SArith>) -> Option<IRatio>
    decreases ts, 0int,
{
    if ts.len() == 0 {
        Some(IRatio::of_int(0))
    } else {
        match (sum_value(vals, ts.drop_last()), arith_value(vals, ts.last())) {
            (Some(s), Some(x)) => Some(s.add(x)),
            _ => None,
        }
    }
}

/// The bounds `(low, high)` of `e` obtained from the bounds `lbs` and `ubs`
/// of its variables, when `e` is built from constants, variables, sums and
/// negations.
pub open spec fn arith_bounds(lbs: Seq<IRatio>, ubs: Seq<IRatio>, e: SArith) -> Option<(IRatio, IRatio)>
    decreases e, 1int,
{
    match e {
        SArith::Const(c) => Some((const_value(c), const_value(c))),
        SArith::IntVar(v) => Some((lbs[v.0 as int], ubs[v.0 as int])),
        SArith::RealVar(v) => Some((lbs[v.0 as int], ubs[v.0 as int])),
        SArith::Add(ts) => sum_bounds(lbs, ubs, ts),
        SArith::Neg(a) => match arith_bounds(lbs, ubs, *a) {
            Some((lo, hi)) => Some((hi.neg(), lo.neg())),
            None => None,
        },
        _ => None,
    }
}

/// The sums of the bounds of `ts`, from zero, left to right.
pub open spec fn sum_bounds(lbs: Seq<IRatio>, ubs: Seq<IRatio>, ts: Seq<SArith>) -> Option<(IRatio, IRatio)>
    decreases ts, 0int,
{
    if ts.len() == 0 {
        Some((IRatio::of_int(0), IRatio::of_int(0)))
    } else {
        match (sum_bounds(lbs, ubs, ts.drop_last()), arith_bounds(lbs, ubs, ts.last())) {
            (Some((l, h)), Some((lo, hi))) => Some((l.add(lo), h.add(hi))),
            _ => None,
        }
    }
}

/// Every value of `vals` is well-formed.
pub open spec fn all_wf(vals: Seq<IRatio>) -> bool {
    forall|v: int| 0 <= v < vals.len() ==> (#[trigger] vals[v]).wf()
}

/// Values and sums of well-formed values are well-formed.
proof fn lemma_value_wf(vals: Seq<IRatio>, e: SArith)
    requires
        all_wf(vals),
        vars_below(e, vals.len()),
    ensures
        arith_value(vals, e) matches Some(x) ==> x.wf(),
    decreases e, 1int,
{
    match e {
        SArith::Add(ts) => lemma_sum_wf(vals, ts),
        SArith::Neg(a) => {
            lemma_value_wf(vals, *a);
            if let Some(x) = arith_value(vals, *a) {
                crate::fraction::lemma_ops_wf(x.eps, x.eps);
                if let ExtRatio::Fin(r) = x.real {
                    crate::fraction::lemma_ops_wf(r, r);
                }
            }
        },
        SArith::IntVar(v) => {
            assert(vals[v.0 as int].wf());
        },
        SArith::RealVar(v) => {
            assert(vals[v.0 as int].wf());
        },
        SArith::Const(c) => {
            assert(c@.fits());
        },
        _ => {},
    }
}

proof fn lemma_sum_wf(vals: Seq<IRatio>, ts: Seq<SArith>)
    requires
        all_wf(vals),
        all_vars_below(ts, vals.len()),
    ensures
        sum_value(vals, ts) matches Some(x) ==> x.wf(),
    decreases ts, 0int,
{
    if ts.len() > 0 {
        lemma_sum_wf(vals, ts.drop_last());
        lemma_value_wf(vals, ts.last());
        if let (Some(s), Some(x)) = (sum_value(vals, ts.drop_last()), arith_value(vals, ts.last())) {
            lemma_add_wf(s, x);
        }
    }
}

/// Bounds built from well-formed bounds are well-formed.
proof fn lemma_bounds_wf(lbs: Seq<IRatio>, ubs: Seq<IRatio>, e: SArith)
    requires
        all_wf(lbs),
        all_wf(ubs),
        lbs.len() == ubs.len(),
        vars_below(e, lbs.len()),
    ensures
        arith_bounds(lbs, ubs, e) matches Some((lo, hi)) ==> lo.wf() && hi.wf(),
    decreases e, 1int,
{
    match e {
        SArith::Add(ts) => lemma_sum_bounds_wf(lbs, ubs, ts),
        SArith::Neg(a) => {
            lemma_bounds_wf(lbs, ubs, *a);
            if let Some((lo, hi)) = arith_bounds(lbs, ubs, *a) {
                lemma_neg_wf(lo);
                lemma_neg_wf(hi);
            }
        },
        SArith::IntVar(v) => {
            assert(lbs[v.0 as int].wf() && ubs[v.0 as int].wf());
        },
        SArith::RealVar(v) => {
            assert(lbs[v.0 as int].wf() && ubs[v.0 as int].wf());
        },
        SArith::Const(c) => {
            assert(c@.fits());
        },
        _ => {},
    }
}

proof fn lemma_sum_bounds_wf(lbs: Seq<IRatio>, ubs: Seq<IRatio>, ts: Seq<SArith>)
    requires
        all_wf(lbs),
        all_wf(ubs),
        lbs.len() == ubs.len(),
        all_vars_below(ts, lbs.len()),
    ensures
        sum_bounds(lbs, ubs, ts) matches Some((lo, hi)) ==> lo.wf() && hi.wf(),
    decreases ts, 0int,
{
    if ts.len() > 0 {
        lemma_sum_bounds_wf(lbs, ubs, ts.drop_last());
        lemma_bounds_wf(lbs, ubs, ts.last());
        if let (Some((l, h)), Some((lo, hi))) = (sum_bounds(lbs, ubs, ts.drop_last()), arith_bounds(lbs, ubs, ts.last())) {
            lemma_add_wf(l, lo);
            lemma_add_wf(h, hi);
        }
    }
}

/// Sums of well-formed values are well-formed.
pub proof fn lemma_add_wf(a: IRatio, b: IRatio)
    requires
        a.wf(),
        b.wf(),
    ensures
        a.add(b).wf(),
{
    crate::fraction::lemma_ops_wf(a.eps, b.eps);
    if let (ExtRatio::Fin(x), ExtRatio::Fin(y)) = (a.real, b.real) {
        crate::fraction::lemma_ops_wf(x, y);
    }
}

/// Negations of well-formed values are well-formed.
pub proof fn lemma_neg_wf(a: IRatio)
    requires
        a.wf(),
    ensures
        a.neg().wf(),
{
    crate::fraction::lemma_ops_wf(a.eps, a.eps);
    if let ExtRatio::Fin(x) = a.real {
        crate::fraction::lemma_ops_wf(x, x);
    }
}

/// Negation respects `eqv`.
pub proof fn lemma_neg_eqv(a: IRatio, b: IRatio)
    requires
        a.eqv(b),
    ensures
        a.neg().eqv(b.neg()),
{
    if let (ExtRatio::Fin(x), ExtRatio::Fin(y)) = (a.real, b.real) {
        assert(x.neg().eqv(y.neg())) by (nonlinear_arith)
            requires
                x.num * y.den == y.num * x.den,
        ;
        assert(a.eps.neg().eqv(b.eps.neg())) by (nonlinear_arith)
            requires
                a.eps.num * b.eps.den == b.eps.num * a.eps.den,
        ;
    }
}

/// `e` has no sum outside the operands of products and quotients (whose
/// value and bounds are not computed): the only operation that can leave
/// 64-bit fractions is a sum.
pub open spec fn sum_free(e: SArith) -> bool
    decreases e,
{
    match e {
        SArith::Add(_) => false,
        SArith::Neg(x) => sum_free(*x),
        _ => true,
    }
}

/// The value of `expr` under the current assignment, when it is built from
/// constants, variables, sums and negations; `None` for products and
/// quotients.
pub fn get_arith_val(lra: &LraTheory, expr: &ArithExpr) -> (r: Result<Option<InfRational>, LraError>)
    requires
        lra.wf(),
        vars_below(expr@, lra.num_vars()),
    ensures
        r is Err ==> r == Err::<Option<InfRational>, LraError>(LraError::Overflow),
        r matches Ok(Some(x)) ==> arith_value(values_of(*lra), expr@) matches Some(y) && x@.eqv(y),
        r matches Ok(None) ==> arith_value(values_of(*lra), expr@) is None,
        sum_free(expr@) ==> r is Ok,
    decreases expr,
{
    let ghost vals = values_of(*lra);
    proof {
        assert forall|v: int| 0 <= v < vals.len() implies (#[trigger] vals[v]).wf() by {
            lra.lemma_val_finite(v);
        }
        lemma_value_wf(vals, expr@);
    }
    match expr {
        ArithExpr::Const(c) => {
            let x = InfRational::new(Rational::Finite(*c), Fraction::zero());
            proof {
                lemma_iratio_eqv(x@, x@, x@);
            }
            Ok(Some(x))
        },
        ArithExpr::IntVar(v) => {
            let x = *lra.value(v.0);
            proof {
                lemma_iratio_eqv(x@, x@, x@);
            }
            Ok(Some(x))
        },
        ArithExpr::RealVar(v) => {
            let x = *lra.value(v.0);
            proof {
                lemma_iratio_eqv(x@, x@, x@);
            }
            Ok(Some(x))
        },
        ArithExpr::Add(terms) => {
            let ghost ts = ariths_model(terms@);
            proof {
                lemma_ariths_model(terms@);
                assert(ts.take(0) =~= Seq::<SArith>::empty());
            }
            let mut sum = InfRational::zero();
            proof {
                lemma_iratio_eqv(sum@, sum@, sum@);
            }
            let mut i: usize = 0;
            while i < terms.len()
                invariant
                    lra.wf(),
                    vals == values_of(*lra),
                    all_wf(vals),
                    *expr is Add,
                    expr->Add_0 == *terms,
                    ts == ariths_model(terms@),
                    ts.len() == terms.len(),
                    forall|k: int| 0 <= k < terms.len() ==> #[trigger] ts[k] == terms@[k]@,
                    all_vars_below(ts, lra.num_vars()),
                    expr@ == SArith::Add(ts),
                    i <= terms.len(),
                    sum_value(vals, ts.take(i as int)) matches Some(s) && sum@.eqv(s),
                decreases terms.len() - i,
            {
                proof {
                    vstd::std_specs::vec::axiom_vec_index_decreases(*terms, i as int);
                    lemma_all_below_elem(ts, i as int, lra.num_vars());
                    assert(ts.take(i + 1).drop_last() =~= ts.take(i as int));
                    assert(ts.take(i + 1).last() == ts[i as int]);
                }
                let x = match get_arith_val(lra, &terms[i]) {
                    Ok(Some(x)) => x,
                    Ok(None) => {
                        proof {
                            lemma_sum_none(vals, ts, i as int);
                        }
                        return Ok(None);
                    },
                    Err(e) => {
                        return Err(e);
                    },
                };
                let next = match sum.checked_add(&x) {
                    Some(s) => s,
                    None => {
                        return Err(LraError::Overflow);
                    },
                };
                proof {
                    let s = sum_value(vals, ts.take(i as int))->Some_0;
                    let y = arith_value(vals, ts[i as int])->Some_0;
                    lemma_all_below_take(ts, i as int, lra.num_vars());
                    lemma_sum_wf(vals, ts.take(i as int));
                    lemma_value_wf(vals, ts[i as int]);
                    lemma_add_wf(s, y);
                    lemma_add_wf(sum@, x@);
                    lemma_iratio_add_eqv(sum@, s, x@, y);
                    lemma_iratio_eqv(next@, sum@.add(x@), s.add(y));
                }
                sum = next;
                i += 1;
            }
            proof {
                assert(ts.take(terms.len() as int) =~= ts);
            }
            Ok(Some(sum))
        },
        ArithExpr::Neg(a) => {
            match get_arith_val(lra, a) {
                Ok(Some(x)) => {
                    proof {
                        lemma_neg_eqv(x@, arith_value(vals, a@)->Some_0);
                    }
                    Ok(Some(x.neg()))
                },
                Ok(None) => Ok(None),
                Err(e) => Err(e),
            }
        },
        _ => Ok(None),
    }
}

/// The bounds of `expr` implied by the bounds of its variables, when it is
/// built from constants, variables, sums and negations; `None` for products
/// and quotients.
pub fn get_arith_bounds(lra: &LraTheory, expr: &ArithExpr) -> (r: Result<Option<(InfRational, InfRational)>, LraError>)
    requires
        lra.wf(),
        vars_below(expr@, lra.num_vars()),
    ensures
        r is Err ==> r == Err::<Option<(InfRational, InfRational)>, LraError>(LraError::Overflow),
        r matches Ok(Some((lo, hi))) ==> arith_bounds(lower_of(*lra), upper_of(*lra), expr@) matches Some((l, h)) && lo@.eqv(l)
            && hi@.eqv(h),
        r matches Ok(None) ==> arith_bounds(lower_of(*lra), upper_of(*lra), expr@) is None,
        sum_free(expr@) ==> r is Ok,
    decreases expr,
{
    let ghost lbs = lower_of(*lra);
    let ghost ubs = upper_of(*lra);
    proof {
        assert forall|v: int| 0 <= v < lbs.len() implies (#[trigger] lbs[v]).wf() by {
            assert(lra.lower_bounds()[v].1@.wf());
        }
        assert forall|v: int| 0 <= v < ubs.len() implies (#[trigger] ubs[v]).wf() by {
            assert(lra.upper_bounds()[v].1@.wf());
        }
    }
    match expr {
        ArithExpr::Const(c) => {
            let x = InfRational::new(Rational::Finite(*c), Fraction::zero());
            proof {
                lemma_iratio_eqv(x@, x@, x@);
            }
            Ok(Some((x, x)))
        },
        ArithExpr::IntVar(v) => {
            let lo = *lra.lb(v.0);
            let hi = *lra.ub(v.0);
            proof {
                lemma_iratio_eqv(lo@, lo@, lo@);
                lemma_iratio_eqv(hi@, hi@, hi@);
            }
            Ok(Some((lo, hi)))
        },
        ArithExpr::RealVar(v) => {
            let lo = *lra.lb(v.0);
            let hi = *lra.ub(v.0);
            proof {
                lemma_iratio_eqv(lo@, lo@, lo@);
                lemma_iratio_eqv(hi@, hi@, hi@);
            }
            Ok(Some((lo, hi)))
        },
        ArithExpr::Add(terms) => {
            let ghost ts = ariths_model(terms@);
            proof {
                lemma_ariths_model(terms@);
                assert(ts.take(0) =~= Seq::<SArith>::empty());
            }
            let mut sum_lo = InfRational::zero();
            let mut sum_hi = InfRational::zero();
            proof {
                lemma_iratio_eqv(sum_lo@, sum_lo@, sum_lo@);
            }
            let mut i: usize = 0;
            while i < terms.len()
                invariant
                    lra.wf(),
                    lbs == lower_of(*lra),
                    ubs == upper_of(*lra),
                    all_wf(lbs),
                    all_wf(ubs),
                    *expr is Add,
                    expr->Add_0 == *terms,
                    ts == ariths_model(terms@),
                    ts.len() == terms.len(),
                    forall|k: int| 0 <= k < terms.len() ==> #[trigger] ts[k] == terms@[k]@,
                    all_vars_below(ts, lra.num_vars()),
                    expr@ == SArith::Add(ts),
                    i <= terms.len(),
                    sum_bounds(lbs, ubs, ts.take(i as int)) matches Some((l, h)) && sum_lo@.eqv(l) && sum_hi@.eqv(h),
                decreases terms.len() - i,
            {
                proof {
                    vstd::std_specs::vec::axiom_vec_index_decreases(*terms, i as int);
                    lemma_all_below_elem(ts, i as int, lra.num_vars());
                    assert(ts.take(i + 1).drop_last() =~= ts.take(i as int));
                    assert(ts.take(i + 1).last() == ts[i as int]);
                }
                let (lo, hi) = match get_arith_bounds(lra, &terms[i]) {
                    Ok(Some(b)) => b,
                    Ok(None) => {
                        proof {
                            lemma_sum_bounds_none(lbs, ubs, ts, i as int);
                        }
                        return Ok(None);
                    },
                    Err(e) => {
                        return Err(e);
                    },
                };
                let next_lo = match sum_lo.checked_add(&lo) {
                    Some(s) => s,
                    None => {
                        return Err(LraError::Overflow);
                    },
                };
                let next_hi = match sum_hi.checked_add(&hi) {
                    Some(s) => s,
                    None => {
                        return Err(LraError::Overflow);
                    },
                };
                proof {
                    let (l, h) = sum_bounds(lbs, ubs, ts.take(i as int))->Some_0;
                    let (bl, bh) = arith_bounds(lbs, ubs, ts[i as int])->Some_0;
                    lemma_all_below_take(ts, i as int, lra.num_vars());
                    lemma_sum_bounds_wf(lbs, ubs, ts.take(i as int));
                    lemma_bounds_wf(lbs, ubs, ts[i as int]);
                    lemma_add_wf(l, bl);
                    lemma_add_wf(h, bh);
                    lemma_add_wf(sum_lo@, lo@);
                    lemma_add_wf(sum_hi@, hi@);
                    lemma_iratio_add_eqv(sum_lo@, l, lo@, bl);
                    lemma_iratio_add_eqv(sum_hi@, h, hi@, bh);
                    lemma_iratio_eqv(next_lo@, sum_lo@.add(lo@), l.add(bl));
                    lemma_iratio_eqv(next_hi@, sum_hi@.add(hi@), h.add(bh));
                }
                sum_lo = next_lo;
                sum_hi = next_hi;
                i += 1;
            }
            proof {
                assert(ts.take(terms.len() as int) =~= ts);
            }
            Ok(Some((sum_lo, sum_hi)))
        },
        ArithExpr::Neg(a) => {
            match get_arith_bounds(lra, a) {
                Ok(Some((lo, hi))) => {
                    proof {
                        let (l, h) = arith_bounds(lbs, ubs, a@)->Some_0;
                        lemma_neg_eqv(lo@, l);
                        lemma_neg_eqv(hi@, h);
                    }
                    Ok(Some((hi.neg(), lo.neg())))
                },
                Ok(None) => Ok(None),
                Err(e) => Err(e),
            }
        },
        _ => Ok(None),
    }
}

/// `a + b` and `b + a` are written alike.
proof fn lemma_iratio_add_comm(a: IRatio, b: IRatio)
    requires
        a.real is Fin,
        b.real is Fin,
    ensures
        a.add(b) == b.add(a),
{
    crate::dot::lemma_add_comm(a.eps, b.eps);
    crate::dot::lemma_add_comm(a.real->Fin_0, b.real->Fin_0);
}

/// Lower bounds add up: `a <= b` and `c <= d` for finite `b` and `d` give
/// `a + c <= b + d`.
proof fn lemma_add_le_lower(a: IRatio, b: IRatio, c: IRatio, d: IRatio)
    requires
        a.wf(),
        b.wf(),
        c.wf(),
        d.wf(),
        b.real is Fin,
        d.real is Fin,
        a.le(b),
        c.le(d),
    ensures
        a.add(c).le(b.add(d)),
{
    lemma_add_wf(a, c);
    lemma_add_wf(b, d);
    if a.real is Fin && c.real is Fin {
        lemma_iratio_add_monotone(a, b, c);
        lemma_iratio_add_monotone(c, d, b);
        lemma_iratio_add_comm(c, b);
        lemma_iratio_add_comm(d, b);
        lemma_add_wf(b, c);
        lemma_iratio_le_trans(a.add(c), b.add(c), b.add(d));
    }
}

/// Upper bounds add up: `b <= a` and `d <= c` for finite `b` and `d` give
/// `b + d <= a + c`.
proof fn lemma_add_le_upper(a: IRatio, b: IRatio, c: IRatio, d: IRatio)
    requires
        a.wf(),
        b.wf(),
        c.wf(),
        d.wf(),
        b.real is Fin,
        d.real is Fin,
        b.le(a),
        d.le(c),
    ensures
        b.add(d).le(a.add(c)),
{
    lemma_add_wf(a, c);
    lemma_add_wf(b, d);
    if a.real is Fin && c.real is Fin {
        lemma_iratio_add_monotone(b, a, d);
        lemma_iratio_add_monotone(d, c, a);
        lemma_iratio_add_comm(d, a);
        lemma_iratio_add_comm(c, a);
        lemma_add_wf(a, d);
        lemma_iratio_le_trans(b.add(d), a.add(d), a.add(c));
    }
}

/// Negation reverses the order.
proof fn lemma_neg_le(a: IRatio, b: IRatio)
    requires
        a.wf(),
        b.wf(),
        a.le(b),
    ensures
        b.neg().le(a.neg()),
{
    match (a.real, b.real) {
        (ExtRatio::Fin(x), ExtRatio::Fin(y)) => {
            crate::fraction::lemma_trichotomy(x, y);
            crate::fraction::lemma_trichotomy(a.eps, b.eps);
            assert((-y.num) * x.den <= (-x.num) * y.den) by (nonlinear_arith)
                requires
                    x.num * y.den <= y.num * x.den,
            ;
            if x.eqv(y) {
                assert(y.neg().eqv(x.neg())) by (nonlinear_arith)
                    requires
                        x.num * y.den == y.num * x.den,
                ;
                if a.eps.lt(b.eps) {
                    assert(b.eps.neg().lt(a.eps.neg())) by (nonlinear_arith)
                        requires
                            a.eps.num * b.eps.den < b.eps.num * a.eps.den,
                    ;
                } else {
                    assert(b.eps.neg().eqv(a.eps.neg())) by (nonlinear_arith)
                        requires
                            a.eps.num * b.eps.den == b.eps.num * a.eps.den,
                    ;
                }
            } else {
                assert(y.neg().lt(x.neg())) by (nonlinear_arith)
                    requires
                        x.num * y.den < y.num * x.den,
                ;
            }
        },
        _ => {},
    }
}

/// The bounds are sound: under every finite assignment `xs` within the
/// bounds `lbs` and `ubs` of the variables, an expression with bounds has a
/// value, and the value lies within them.
pub proof fn lemma_bounds_sound(lbs: Seq<IRatio>, ubs: Seq<IRatio>, xs: Seq<IRatio>, e: SArith)
    requires
        lbs.len() == xs.len(),
        ubs.len() == xs.len(),
        all_wf(lbs),
        all_wf(ubs),
        all_wf(xs),
        forall|v: int| 0 <= v < xs.len() ==> (#[trigger] xs[v]).real is Fin && lbs[v].le(xs[v]) && xs[v].le(ubs[v]),
        vars_below(e, xs.len()),
        arith_bounds(lbs, ubs, e) is Some,
    ensures
        arith_value(xs, e) matches Some(x) && x.real is Fin && x.wf() && arith_bounds(lbs, ubs, e)->Some_0.0.le(x) && x.le(
            arith_bounds(lbs, ubs, e)->Some_0.1,
        ),
    decreases e, 1int,
{
    lemma_bounds_wf(lbs, ubs, e);
    match e {
        SArith::Const(c) => {
            assert(c@.fits());
            let x = const_value(c);
            crate::rational::lemma_iratio_trichotomy(x, x);
            lemma_iratio_eqv(x, x, x);
        },
        SArith::IntVar(v) => {
            assert(xs[v.0 as int].real is Fin);
        },
        SArith::RealVar(v) => {
            assert(xs[v.0 as int].real is Fin);
        },
        SArith::Add(ts) => {
            lemma_sum_bounds_sound(lbs, ubs, xs, ts);
        },
        SArith::Neg(a) => {
            lemma_bounds_sound(lbs, ubs, xs, *a);
            let x = arith_value(xs, *a)->Some_0;
            let (lo, hi) = arith_bounds(lbs, ubs, *a)->Some_0;
            lemma_bounds_wf(lbs, ubs, *a);
            lemma_neg_le(lo, x);
            lemma_neg_le(x, hi);
            lemma_neg_wf(x);
        },
        _ => {},
    }
}

proof fn lemma_sum_bounds_sound(lbs: Seq<IRatio>, ubs: Seq<IRatio>, xs: Seq<IRatio>, ts: Seq<SArith>)
    requires
        lbs.len() == xs.len(),
        ubs.len() == xs.len(),
        all_wf(lbs),
        all_wf(ubs),
        all_wf(xs),
        forall|v: int| 0 <= v < xs.len() ==> (#[trigger] xs[v]).real is Fin && lbs[v].le(xs[v]) && xs[v].le(ubs[v]),
        all_vars_below(ts, xs.len()),
        sum_bounds(lbs, ubs, ts) is Some,
    ensures
        sum_value(xs, ts) matches Some(x) && x.real is Fin && x.wf() && sum_bounds(lbs, ubs, ts)->Some_0.0.le(x) && x.le(
            sum_bounds(lbs, ubs, ts)->Some_0.1,
        ),
    decreases ts, 0int,
{
    lemma_sum_bounds_wf(lbs, ubs, ts);
    if ts.len() == 0 {
        let z = IRatio::of_int(0);
        lemma_iratio_eqv(z, z, z);
    } else {
        let p = ts.drop_last();
        lemma_sum_bounds_sound(lbs, ubs, xs, p);
        lemma_bounds_sound(lbs, ubs, xs, ts.last());
        lemma_sum_bounds_wf(lbs, ubs, p);
        lemma_bounds_wf(lbs, ubs, ts.last());
        let s = sum_value(xs, p)->Some_0;
        let x = arith_value(xs, ts.last())->Some_0;
        let (l, h) = sum_bounds(lbs, ubs, p)->Some_0;
        let (lo, hi) = arith_bounds(lbs, ubs, ts.last())->Some_0;
        lemma_add_le_lower(l, s, lo, x);
        lemma_add_le_upper(h, s, hi, x);
        lemma_add_wf(s, x);
    }
}

/// Bounds of a sum with a term without bounds are undefined.
proof fn lemma_sum_bounds_none(lbs: Seq<IRatio>, ubs: Seq<IRatio>, ts: Seq<SArith>, i: int)
    requires
        0 <= i < ts.len(),
        arith_bounds(lbs, ubs, ts[i]) is None,
    ensures
        sum_bounds(lbs, ubs, ts) is None,
    decreases ts.len(),
{
    if i < ts.len() - 1 {
        lemma_sum_bounds_none(lbs, ubs, ts.drop_last(), i);
    }
}

pub proof fn lemma_all_below_elem(ts: Seq<SArith>, i: int, n: nat)
    requires
        all_vars_below(ts, n),
        0 <= i < ts.len(),
    ensures
        vars_below(ts[i], n),
    decreases ts.len(),
{
    if i < ts.len() - 1 {
        lemma_all_below_elem(ts.drop_last(), i, n);
    }
}

proof fn lemma_all_below_take(ts: Seq<SArith>, i: int, n: nat)
    requires
        all_vars_below(ts, n),
        0 <= i <= ts.len(),
    ensures
        all_vars_below(ts.take(i), n),
    decreases ts.len(),
{
    if i == ts.len() {
        assert(ts.take(i) =~= ts);
    } else {
        lemma_all_below_take(ts.drop_last(), i, n);
        assert(ts.drop_last().take(i) =~= ts.take(i));
    }
}

/// A sum with an undefined term is undefined.
proof fn lemma_sum_none(vals: Seq<IRatio>, ts: Seq<SArith>, i: int)
    requires
        0 <= i < ts.len(),
        arith_value(vals, ts[i]) is None,
    ensures
        sum_value(vals, ts) is None,
    decreases ts.len(),
{
    if i < ts.len() - 1 {
        lemma_sum_none(vals, ts.drop_last(), i);
    }
}

/// The value of an enum expression: the constant, or the value assigned
/// to the variable, if any.
pub open spec fn enum_value(enums: Seq<Option<i32>>, e: EnumExpr) -> Option<i32> {
    match e {
        EnumExpr::Const(c) => Some(c),
        EnumExpr::Var(v) => enums[v.0 as int],
    }
}

/// The value of `expr`: the constant, or the value assigned to the variable
/// in `enums`, if any.
pub fn get_enum_val(enums: &Vec<Option<i32>>, expr: &EnumExpr) -> (r: Option<i32>)
    requires
        expr matches EnumExpr::Var(v) ==> v.0 < enums.len(),
    ensures
        r == enum_value(enums@, *expr),
{
    match expr {
        EnumExpr::Const(c) => Some(*c),
        EnumExpr::Var(v) => enums[v.0],
    }
}

/// `Some(true)` when `t`, else `Some(false)` when `f`, else `None`.
pub open spec fn decide(t: bool, f: bool) -> Option<bool> {
    if t {
        Some(true)
    } else if f {
        Some(false)
    } else {
        None
    }
}

/// Every variable of `e` is below the bound of its kind: `nb` Boolean,
/// `ne` enum, `na` arithmetic and `nt` time-point variables.
pub open spec fn bool_vars_ok(e: SBool, nb: nat, ne: nat, na: nat, nt: nat) -> bool
    decreases e, 1int,
{
    match e {
        SBool::Var(v) => v.0 < nb,
        SBool::Not(x) => bool_vars_ok(*x, nb, ne, na, nt),
        SBool::And(ts) => all_bool_vars_ok(ts, nb, ne, na, nt),
        SBool::Or(ts) => all_bool_vars_ok(ts, nb, ne, na, nt),
        SBool::Lt(a, b) => vars_below(a, na) && vars_below(b, na),
        SBool::Le(a, b) => vars_below(a, na) && vars_below(b, na),
        SBool::Ge(a, b) => vars_below(a, na) && vars_below(b, na),
        SBool::Gt(a, b) => vars_below(a, na) && vars_below(b, na),
        SBool::Eq(x, y) => match (*x, *y) {
            (SExpr::Arith(a), SExpr::Arith(b)) => vars_below(a, na) && vars_below(b, na),
            (SExpr::Bool(p), SExpr::Bool(q)) => bool_vars_ok(p, nb, ne, na, nt) && bool_vars_ok(q, nb, ne, na, nt),
            (SExpr::Enum(p), SExpr::Enum(q)) => (p matches EnumExpr::Var(v) ==> v.0 < ne) && (q matches EnumExpr::Var(v)
                ==> v.0 < ne),
            _ => true,
        },
        SBool::DlLt(f, t, _) => f.0 < nt && t.0 < nt,
        SBool::DlLe(f, t, _) => f.0 < nt && t.0 < nt,
        SBool::DlEq(f, t, _) => f.0 < nt && t.0 < nt,
        SBool::DlGe(f, t, _) => f.0 < nt && t.0 < nt,
        SBool::DlGt(f, t, _) => f.0 < nt && t.0 < nt,
        _ => true,
    }
}

pub open spec fn all_bool_vars_ok(ts: Seq<SBool>, nb: nat, ne: nat, na: nat, nt: nat) -> bool
    decreases ts, 0int,
{
    if ts.len() == 0 {
        true
    } else {
        all_bool_vars_ok(ts.drop_last(), nb, ne, na, nt) && bool_vars_ok(ts.last(), nb, ne, na, nt)
    }
}

/// The bounds of the time points, as values.
pub open spec fn times_view(t: Seq<Option<(InfRational, InfRational)>>) -> Seq<Option<(IRatio, IRatio)>> {
    Seq::new(
        t.len(),
        |i: int|
            match t[i] {
                Some((a, b)) => Some((a@, b@)),
                None => None,
            },
    )
}

/// The truth of `e` where the Boolean assignment `bools`, the enum
/// assignment `enums`, the arithmetic bounds `lbs` and `ubs` and the time
/// bounds `times` decide it: a comparison holds when it holds for all values
/// within the bounds, fails when it fails for all of them, and is undecided
/// otherwise.
pub open spec fn bool_value(
    bools: Seq<Option<bool>>,
    enums: Seq<Option<i32>>,
    lbs: Seq<IRatio>,
    ubs: Seq<IRatio>,
    times: Seq<Option<(IRatio, IRatio)>>,
    e: SBool,
) -> Option<bool>
    decreases e, 1int,
{
    match e {
        SBool::True => Some(true),
        SBool::False => Some(false),
        SBool::Var(v) => bools[v.0 as int],
        SBool::Not(x) => match bool_value(bools, enums, lbs, ubs, times, *x) {
            Some(b) => Some(!b),
            None => None,
        },
        SBool::And(ts) => and_value(bools, enums, lbs, ubs, times, ts),
        SBool::Or(ts) => or_value(bools, enums, lbs, ubs, times, ts),
        SBool::Lt(a, b) => match (arith_bounds(lbs, ubs, a), arith_bounds(lbs, ubs, b)) {
            (Some((l1, u1)), Some((l2, u2))) => decide(u1.lt(l2), u2.le(l1)),
            _ => None,
        },
        SBool::Le(a, b) => match (arith_bounds(lbs, ubs, a), arith_bounds(lbs, ubs, b)) {
            (Some((l1, u1)), Some((l2, u2))) => decide(u1.le(l2), u2.lt(l1)),
            _ => None,
        },
        SBool::Ge(a, b) => match (arith_bounds(lbs, ubs, a), arith_bounds(lbs, ubs, b)) {
            (Some((l1, u1)), Some((l2, u2))) => decide(u2.le(l1), u1.lt(l2)),
            _ => None,
        },
        SBool::Gt(a, b) => match (arith_bounds(lbs, ubs, a), arith_bounds(lbs, ubs, b)) {
            (Some((l1, u1)), Some((l2, u2))) => decide(u2.lt(l1), u1.le(l2)),
            _ => None,
        },
        SBool::DlLt(f, t, c) => match (times[f.0 as int], times[t.0 as int]) {
            (Some((lf, uf)), Some((lt, ut))) => decide(ut.sub(lf).lt(const_value(c)), const_value(c).le(lt.sub(uf))),
            _ => None,
        },
        SBool::DlLe(f, t, c) => match (times[f.0 as int], times[t.0 as int]) {
            (Some((lf, uf)), Some((lt, ut))) => decide(ut.sub(lf).le(const_value(c)), const_value(c).lt(lt.sub(uf))),
            _ => None,
        },
        SBool::DlGt(f, t, c) => match (times[f.0 as int], times[t.0 as int]) {
            (Some((lf, uf)), Some((lt, ut))) => decide(const_value(c).lt(lt.sub(uf)), ut.sub(lf).le(const_value(c))),
            _ => None,
        },
        SBool::DlGe(f, t, c) => match (times[f.0 as int], times[t.0 as int]) {
            (Some((lf, uf)), Some((lt, ut))) => decide(const_value(c).le(lt.sub(uf)), ut.sub(lf).lt(const_value(c))),
            _ => None,
        },
        SBool::DlEq(f, t, c) => match (times[f.0 as int], times[t.0 as int]) {
            (Some((lf, uf)), Some((lt, ut))) => decide(
                ut.sub(lf).eqv(const_value(c)) && lt.sub(uf).eqv(const_value(c)),
                ut.sub(lf).lt(const_value(c)) || const_value(c).lt(lt.sub(uf)),
            ),
            _ => None,
        },
        SBool::Eq(x, y) => match (*x, *y) {
            (SExpr::Arith(a), SExpr::Arith(b)) => match (arith_bounds(lbs, ubs, a), arith_bounds(lbs, ubs, b)) {
                (Some((l1, u1)), Some((l2, u2))) => if u1.lt(l2) || u2.lt(l1) {
                    Some(false)
                } else if l1.eqv(u1) && l2.eqv(u2) && l1.eqv(l2) {
                    Some(true)
                } else {
                    None
                },
                _ => None,
            },
            (SExpr::Bool(p), SExpr::Bool(q)) => match (
                bool_value(bools, enums, lbs, ubs, times, p),
                bool_value(bools, enums, lbs, ubs, times, q),
            ) {
                (Some(v1), Some(v2)) => Some(v1 == v2),
                _ => None,
            },
            (SExpr::Enum(p), SExpr::Enum(q)) => match (enum_value(enums, p), enum_value(enums, q)) {
                (Some(v1), Some(v2)) => Some(v1 == v2),
                _ => None,
            },
            _ => None,
        },
    }
}

/// A conjunction is false when a conjunct is, true when all are, and
/// undecided otherwise.
pub open spec fn and_value(
    bools: Seq<Option<bool>>,
    enums: Seq<Option<i32>>,
    lbs: Seq<IRatio>,
    ubs: Seq<IRatio>,
    times: Seq<Option<(IRatio, IRatio)>>,
    ts: Seq<SBool>,
) -> Option<bool>
    decreases ts, 0int,
{
    if ts.len() == 0 {
        Some(true)
    } else {
        match (and_value(bools, enums, lbs, ubs, times, ts.drop_last()), bool_value(bools, enums, lbs, ubs, times, ts.last())) {
            (Some(false), _) => Some(false),
            (_, Some(false)) => Some(false),
            (Some(true), Some(true)) => Some(true),
            _ => None,
        }
    }
}

/// A disjunction is true when a disjunct is, false when all are, and
/// undecided otherwise.
pub open spec fn or_value(
    bools: Seq<Option<bool>>,
    enums: Seq<Option<i32>>,
    lbs: Seq<IRatio>,
    ubs: Seq<IRatio>,
    times: Seq<Option<(IRatio, IRatio)>>,
    ts: Seq<SBool>,
) -> Option<bool>
    decreases ts, 0int,
{
    if ts.len() == 0 {
        Some(false)
    } else {
        match (or_value(bools, enums, lbs, ubs, times, ts.drop_last()), bool_value(bools, enums, lbs, ubs, times, ts.last())) {
            (Some(true), _) => Some(true),
            (_, Some(true)) => Some(true),
            (Some(false), Some(false)) => Some(false),
            _ => None,
        }
    }
}

/// Comparing values of the same values gives the same answers.
proof fn lemma_order_eqv(a: IRatio, a2: IRatio, b: IRatio, b2: IRatio)
    requires
        a.wf(),
        a2.wf(),
        b.wf(),
        b2.wf(),
        a.eqv(a2),
        b.eqv(b2),
    ensures
        a.lt(b) == a2.lt(b2),
        a.le(b) == a2.le(b2),
        a.eqv(b) == a2.eqv(b2),
{
    crate::rational::lemma_iratio_eqv_order(a, a2, b);
    crate::rational::lemma_iratio_eqv_order(b, b2, a2);
    lemma_iratio_eqv(a, a2, b);
    lemma_iratio_eqv(a2, a, b);
    lemma_iratio_eqv(a2, b, b2);
    lemma_iratio_eqv(b, b2, a2);
    lemma_iratio_eqv(b2, b, a2);
    lemma_iratio_eqv(a, b, b2);
    lemma_iratio_eqv(b2, a2, a);
    lemma_iratio_eqv(a2, b2, b);
    lemma_iratio_eqv(b, a2, a);
    lemma_iratio_eqv(a, a2, b2);
}

/// `Some(true)` when `t`, else `Some(false)` when `f`, else `None`.
fn decide_exec(t: bool, f: bool) -> (r: Option<bool>)
    ensures
        r == decide(t, f),
{
    if t {
        Some(true)
    } else if f {
        Some(false)
    } else {
        None
    }
}

/// The bounds of `a` and of `b`, when both have bounds.
fn both_bounds(lra: &LraTheory, a: &ArithExpr, b: &ArithExpr) -> (r: Result<
    Option<(InfRational, InfRational, InfRational, InfRational)>,
    LraError,
>)
    requires
        lra.wf(),
        vars_below(a@, lra.num_vars()),
        vars_below(b@, lra.num_vars()),
    ensures
        r is Err ==> r == Err::<Option<(InfRational, InfRational, InfRational, InfRational)>, LraError>(LraError::Overflow),
        r matches Ok(Some((l1, u1, l2, u2))) ==> {
            &&& arith_bounds(lower_of(*lra), upper_of(*lra), a@) matches Some((x1, y1)) && l1@.eqv(x1) && u1@.eqv(y1)
                && x1.wf() && y1.wf()
            &&& arith_bounds(lower_of(*lra), upper_of(*lra), b@) matches Some((x2, y2)) && l2@.eqv(x2) && u2@.eqv(y2)
                && x2.wf() && y2.wf()
        },
        r matches Ok(None) ==> arith_bounds(lower_of(*lra), upper_of(*lra), a@) is None || arith_bounds(
            lower_of(*lra),
            upper_of(*lra),
            b@,
        ) is None,
        sum_free(a@) && sum_free(b@) ==> r is Ok,
{
    proof {
        let lbs = lower_of(*lra);
        let ubs = upper_of(*lra);
        assert forall|v: int| 0 <= v < lbs.len() implies (#[trigger] lbs[v]).wf() by {
            assert(lra.lower_bounds()[v].1@.wf());
        }
        assert forall|v: int| 0 <= v < ubs.len() implies (#[trigger] ubs[v]).wf() by {
            assert(lra.upper_bounds()[v].1@.wf());
        }
        lemma_bounds_wf(lbs, ubs, a@);
        lemma_bounds_wf(lbs, ubs, b@);
    }
    let (l1, u1) = match get_arith_bounds(lra, a) {
        Ok(Some(p)) => p,
        Ok(None) => {
            return Ok(None);
        },
        Err(e) => {
            return Err(e);
        },
    };
    let (l2, u2) = match get_arith_bounds(lra, b) {
        Ok(Some(p)) => p,
        Ok(None) => {
            return Ok(None);
        },
        Err(e) => {
            return Err(e);
        },
    };
    Ok(Some((l1, u1, l2, u2)))
}

/// The largest and the smallest possible distance `to - from` between two
/// time points, when both have bounds.
fn dl_span(times: &Vec<Option<(InfRational, InfRational)>>, from: usize, to: usize) -> (r: Result<
    Option<(InfRational, InfRational)>,
    LraError,
>)
    requires
        from < times.len(),
        to < times.len(),
    ensures
        r is Err ==> r == Err::<Option<(InfRational, InfRational)>, LraError>(LraError::Overflow),
        r matches Ok(Some((mx, mn))) ==> {
            &&& times_view(times@)[from as int] matches Some((lf, uf))
            &&& times_view(times@)[to as int] matches Some((lt, ut))
            &&& mx@.eqv(ut.sub(lf)) && mn@.eqv(lt.sub(uf))
            &&& ut.sub(lf).wf() && lt.sub(uf).wf()
        },
        r matches Ok(None) ==> times_view(times@)[from as int] is None || times_view(times@)[to as int] is None,
        span_fits(times_view(times@), from as int, to as int) ==> r is Ok,
{
    let (lf, uf) = match &times[from] {
        Some(p) => *p,
        None => {
            return Ok(None);
        },
    };
    let (lt, ut) = match &times[to] {
        Some(p) => *p,
        None => {
            return Ok(None);
        },
    };
    let mx = match ut.checked_sub(&lf) {
        Some(x) => x,
        None => {
            return Err(LraError::Overflow);
        },
    };
    let mn = match lt.checked_sub(&uf) {
        Some(x) => x,
        None => {
            return Err(LraError::Overflow);
        },
    };
    proof {
        lemma_neg_wf(lf@);
        lemma_neg_wf(uf@);
        lemma_add_wf(ut@, lf@.neg());
        lemma_add_wf(lt@, uf@.neg());
    }
    Ok(Some((mx, mn)))
}

/// A conjunction with a false conjunct is false.
proof fn lemma_and_false(
    bools: Seq<Option<bool>>,
    enums: Seq<Option<i32>>,
    lbs: Seq<IRatio>,
    ubs: Seq<IRatio>,
    times: Seq<Option<(IRatio, IRatio)>>,
    ts: Seq<SBool>,
    i: int,
)
    requires
        0 <= i < ts.len(),
        bool_value(bools, enums, lbs, ubs, times, ts[i]) == Some(false),
    ensures
        and_value(bools, enums, lbs, ubs, times, ts) == Some(false),
    decreases ts.len(),
{
    if i < ts.len() - 1 {
        lemma_and_false(bools, enums, lbs, ubs, times, ts.drop_last(), i);
    }
}

/// A disjunction with a true disjunct is true.
proof fn lemma_or_true(
    bools: Seq<Option<bool>>,
    enums: Seq<Option<i32>>,
    lbs: Seq<IRatio>,
    ubs: Seq<IRatio>,
    times: Seq<Option<(IRatio, IRatio)>>,
    ts: Seq<SBool>,
    i: int,
)
    requires
        0 <= i < ts.len(),
        bool_value(bools, enums, lbs, ubs, times, ts[i]) == Some(true),
    ensures
        or_value(bools, enums, lbs, ubs, times, ts) == Some(true),
    decreases ts.len(),
{
    if i < ts.len() - 1 {
        lemma_or_true(bools, enums, lbs, ubs, times, ts.drop_last(), i);
    }
}

proof fn lemma_all_bool_ok_elem(ts: Seq<SBool>, i: int, nb: nat, ne: nat, na: nat, nt: nat)
    requires
        all_bool_vars_ok(ts, nb, ne, na, nt),
        0 <= i < ts.len(),
    ensures
        bool_vars_ok(ts[i], nb, ne, na, nt),
    decreases ts.len(),
{
    if i < ts.len() - 1 {
        lemma_all_bool_ok_elem(ts.drop_last(), i, nb, ne, na, nt);
    }
}

/// The two spans between time points `f` and `t` that a time comparison
/// reads (`ut - lf` and `lt - uf`) fit in 64-bit fractions, or a bound is
/// missing.
pub open spec fn span_fits(tv: Seq<Option<(IRatio, IRatio)>>, f: int, t: int) -> bool {
    match (tv[f], tv[t]) {
        (Some((lf, uf)), Some((lt, ut))) => ut.sub(lf).fits() && lt.sub(uf).fits(),
        _ => true,
    }
}

/// A formula whose reading stays within 64-bit fractions: built from
/// constants, Boolean variables, connectives, equalities of Boolean formulas
/// or of enum terms (or of operands of different sorts), arithmetic
/// comparisons and equalities between [`sum_free`] expressions, and time
/// comparisons whose spans fit ([`span_fits`]) under the time bounds `tv`.
pub open spec fn readable(e: SBool, tv: Seq<Option<(IRatio, IRatio)>>) -> bool
    decreases e, 1int,
{
    match e {
        SBool::True => true,
        SBool::False => true,
        SBool::Var(_) => true,
        SBool::Not(x) => readable(*x, tv),
        SBool::And(ts) => all_readable(ts, tv),
        SBool::Or(ts) => all_readable(ts, tv),
        SBool::Lt(a, b) => sum_free(a) && sum_free(b),
        SBool::Le(a, b) => sum_free(a) && sum_free(b),
        SBool::Ge(a, b) => sum_free(a) && sum_free(b),
        SBool::Gt(a, b) => sum_free(a) && sum_free(b),
        SBool::Eq(x, y) => match (*x, *y) {
            (SExpr::Arith(a), SExpr::Arith(b)) => sum_free(a) && sum_free(b),
            (SExpr::Bool(p), SExpr::Bool(q)) => readable(p, tv) && readable(q, tv),
            _ => true,
        },
        SBool::DlLt(f, t, _) => span_fits(tv, f.0 as int, t.0 as int),
        SBool::DlLe(f, t, _) => span_fits(tv, f.0 as int, t.0 as int),
        SBool::DlEq(f, t, _) => span_fits(tv, f.0 as int, t.0 as int),
        SBool::DlGe(f, t, _) => span_fits(tv, f.0 as int, t.0 as int),
        SBool::DlGt(f, t, _) => span_fits(tv, f.0 as int, t.0 as int),
    }
}

pub open spec fn all_readable(ts: Seq<SBool>, tv: Seq<Option<(IRatio, IRatio)>>) -> bool
    decreases ts, 0int,
{
    if ts.len() == 0 {
        true
    } else {
        all_readable(ts.drop_last(), tv) && readable(ts.last(), tv)
    }
}

/// Law: the three-valued truth of a negation is the negated truth, and it
/// is undecided exactly when the formula is.
pub proof fn lemma_negation_value(
    bools: Seq<Option<bool>>,
    enums: Seq<Option<i32>>,
    lbs: Seq<IRatio>,
    ubs: Seq<IRatio>,
    times: Seq<Option<(IRatio, IRatio)>>,
    e: SBool,
)
    ensures
        bool_value(bools, enums, lbs, ubs, times, SBool::Not(Box::new(e))) == match bool_value(bools, enums, lbs, ubs, times, e) {
            Some(b) => Some(!b),
            None => None,
        },
{
}

proof fn lemma_all_readable_elem(ts: Seq<SBool>, i: int, tv: Seq<Option<(IRatio, IRatio)>>)
    requires
        all_readable(ts, tv),
        0 <= i < ts.len(),
    ensures
        readable(ts[i], tv),
    decreases ts.len(),
{
    if i < ts.len() - 1 {
        lemma_all_readable_elem(ts.drop_last(), i, tv);
    }
}

/// The truth of `expr` where the current Boolean assignment `bools`, the
/// enum values `enums`, the arithmetic bounds of `lra` and the time bounds
/// `times` decide it, `None` where they do not. Only a sum in an arithmetic
/// comparison or a span in a time comparison can leave 64-bit fractions, so
/// a [`readable`]
/// formula always gets an answer.
pub fn get_bool_val(
    bools: &Vec<Option<bool>>,
    enums: &Vec<Option<i32>>,
    lra: &LraTheory,
    times: &Vec<Option<(InfRational, InfRational)>>,
    expr: &BoolExpr,
) -> (r: Result<Option<bool>, LraError>)
    requires
        lra.wf(),
        bool_vars_ok(expr@, bools@.len(), enums@.len(), lra.num_vars(), times@.len()),
    ensures
        r is Err ==> r == Err::<Option<bool>, LraError>(LraError::Overflow),
        r matches Ok(b) ==> b == bool_value(bools@, enums@, lower_of(*lra), upper_of(*lra), times_view(times@), expr@),
        readable(expr@, times_view(times@)) ==> r is Ok,
    decreases expr,
{
    let ghost lbs = lower_of(*lra);
    let ghost ubs = upper_of(*lra);
    let ghost tv = times_view(times@);
    match expr {
        BoolExpr::True => Ok(Some(true)),
        BoolExpr::False => Ok(Some(false)),
        BoolExpr::Var(v) => Ok(bools[v.0]),
        BoolExpr::Not(x) => match get_bool_val(bools, enums, lra, times, x) {
            Ok(Some(b)) => Ok(Some(!b)),
            Ok(None) => Ok(None),
            Err(e) => Err(e),
        },
        BoolExpr::And(args) => {
            let ghost ts = bools_model(args@);
            proof {
                lemma_bools_model(args@);
                assert(ts.take(0) =~= Seq::<SBool>::empty());
            }
            let mut result: Option<bool> = Some(true);
            let mut i: usize = 0;
            while i < args.len()
                invariant
                    lra.wf(),
                    *expr is And,
                    expr->And_0 == *args,
                    ts == bools_model(args@),
                    ts.len() == args.len(),
                    forall|k: int| 0 <= k < args.len() ==> #[trigger] ts[k] == args@[k]@,
                    all_bool_vars_ok(ts, bools@.len(), enums@.len(), lra.num_vars(), times@.len()),
                    expr@ == SBool::And(ts),
                    readable(expr@, tv) ==> all_readable(ts, tv),
                    lbs == lower_of(*lra),
                    ubs == upper_of(*lra),
                    tv == times_view(times@),
                    i <= args.len(),
                    result == and_value(bools@, enums@, lbs, ubs, tv, ts.take(i as int)),
                    result != Some(false),
                decreases args.len() - i,
            {
                proof {
                    vstd::std_specs::vec::axiom_vec_index_decreases(*args, i as int);
                    lemma_all_bool_ok_elem(ts, i as int, bools@.len(), enums@.len(), lra.num_vars(), times@.len());
                    if readable(expr@, tv) {
                        lemma_all_readable_elem(ts, i as int, tv);
                    }
                    assert(ts.take(i + 1).drop_last() =~= ts.take(i as int));
                    assert(ts.take(i + 1).last() == ts[i as int]);
                }
                match get_bool_val(bools, enums, lra, times, &args[i]) {
                    Ok(Some(v)) => {
                        if !v {
                            proof {
                                lemma_and_false(bools@, enums@, lbs, ubs, tv, ts, i as int);
                            }
                            return Ok(Some(false));
                        }
                    },
                    Ok(None) => {
                        result = None;
                    },
                    Err(e) => {
                        return Err(e);
                    },
                }
                i += 1;
            }
            proof {
                assert(ts.take(args.len() as int) =~= ts);
            }
            Ok(result)
        },
        BoolExpr::Or(args) => {
            let ghost ts = bools_model(args@);
            proof {
                lemma_bools_model(args@);
                assert(ts.take(0) =~= Seq::<SBool>::empty());
            }
            let mut result: Option<bool> = Some(false);
            let mut i: usize = 0;
            while i < args.len()
                invariant
                    lra.wf(),
                    *expr is Or,
                    expr->Or_0 == *args,
                    ts == bools_model(args@),
                    ts.len() == args.len(),
                    forall|k: int| 0 <= k < args.len() ==> #[trigger] ts[k] == args@[k]@,
                    all_bool_vars_ok(ts, bools@.len(), enums@.len(), lra.num_vars(), times@.len()),
                    expr@ == SBool::Or(ts),
                    readable(expr@, tv) ==> all_readable(ts, tv),
                    lbs == lower_of(*lra),
                    ubs == upper_of(*lra),
                    tv == times_view(times@),
                    i <= args.len(),
                    result == or_value(bools@, enums@, lbs, ubs, tv, ts.take(i as int)),
                    result != Some(true),
                decreases args.len() - i,
            {
                proof {
                    vstd::std_specs::vec::axiom_vec_index_decreases(*args, i as int);
                    lemma_all_bool_ok_elem(ts, i as int, bools@.len(), enums@.len(), lra.num_vars(), times@.len());
                    if readable(expr@, tv) {
                        lemma_all_readable_elem(ts, i as int, tv);
                    }
                    assert(ts.take(i + 1).drop_last() =~= ts.take(i as int));
                    assert(ts.take(i + 1).last() == ts[i as int]);
                }
                match get_bool_val(bools, enums, lra, times, &args[i]) {
                    Ok(Some(v)) => {
                        if v {
                            proof {
                                lemma_or_true(bools@, enums@, lbs, ubs, tv, ts, i as int);
                            }
                            return Ok(Some(true));
                        }
                    },
                    Ok(None) => {
                        result = None;
                    },
                    Err(e) => {
                        return Err(e);
                    },
                }
                i += 1;
            }
            proof {
                assert(ts.take(args.len() as int) =~= ts);
            }
            Ok(result)
        },
        BoolExpr::Lt(a, b) => match both_bounds(lra, a, b) {
            Ok(Some((l1, u1, l2, u2))) => {
                proof {
                    let (x1, y1) = arith_bounds(lbs, ubs, a@)->Some_0;
                    let (x2, y2) = arith_bounds(lbs, ubs, b@)->Some_0;
                    lemma_order_eqv(u1@, y1, l2@, x2);
                    lemma_order_eqv(u2@, y2, l1@, x1);
                }
                Ok(decide_exec(u1.lt(&l2), u2.le(&l1)))
            },
            Ok(None) => Ok(None),
            Err(e) => Err(e),
        },
        BoolExpr::Le(a, b) => match both_bounds(lra, a, b) {
            Ok(Some((l1, u1, l2, u2))) => {
                proof {
                    let (x1, y1) = arith_bounds(lbs, ubs, a@)->Some_0;
                    let (x2, y2) = arith_bounds(lbs, ubs, b@)->Some_0;
                    lemma_order_eqv(u1@, y1, l2@, x2);
                    lemma_order_eqv(u2@, y2, l1@, x1);
                }
                Ok(decide_exec(u1.le(&l2), u2.lt(&l1)))
            },
            Ok(None) => Ok(None),
            Err(e) => Err(e),
        },
        BoolExpr::Ge(a, b) => match both_bounds(lra, a, b) {
            Ok(Some((l1, u1, l2, u2))) => {
                proof {
                    let (x1, y1) = arith_bounds(lbs, ubs, a@)->Some_0;
                    let (x2, y2) = arith_bounds(lbs, ubs, b@)->Some_0;
                    lemma_order_eqv(u1@, y1, l2@, x2);
                    lemma_order_eqv(u2@, y2, l1@, x1);
                }
                Ok(decide_exec(u2.le(&l1), u1.lt(&l2)))
            },
            Ok(None) => Ok(None),
            Err(e) => Err(e),
        },
        BoolExpr::Gt(a, b) => match both_bounds(lra, a, b) {
            Ok(Some((l1, u1, l2, u2))) => {
                proof {
                    let (x1, y1) = arith_bounds(lbs, ubs, a@)->Some_0;
                    let (x2, y2) = arith_bounds(lbs, ubs, b@)->Some_0;
                    lemma_order_eqv(u1@, y1, l2@, x2);
                    lemma_order_eqv(u2@, y2, l1@, x1);
                }
                Ok(decide_exec(u2.lt(&l1), u1.le(&l2)))
            },
            Ok(None) => Ok(None),
            Err(e) => Err(e),
        },
        BoolExpr::DlLt(f, t, c) => match dl_span(times, f.0, t.0) {
            Ok(Some((mx, mn))) => {
                let k = InfRational::new(Rational::Finite(*c), Fraction::zero());
                proof {
                    let (lf, uf) = tv[f.0 as int]->Some_0;
                    let (lt, ut) = tv[t.0 as int]->Some_0;
                    lemma_iratio_eqv(k@, k@, k@);
                    lemma_order_eqv(mx@, ut.sub(lf), k@, const_value(*c));
                    lemma_order_eqv(k@, const_value(*c), mn@, lt.sub(uf));
                }
                Ok(decide_exec(mx.lt(&k), k.le(&mn)))
            },
            Ok(None) => Ok(None),
            Err(e) => Err(e),
        },
        BoolExpr::DlLe(f, t, c) => match dl_span(times, f.0, t.0) {
            Ok(Some((mx, mn))) => {
                let k = InfRational::new(Rational::Finite(*c), Fraction::zero());
                proof {
                    let (lf, uf) = tv[f.0 as int]->Some_0;
                    let (lt, ut) = tv[t.0 as int]->Some_0;
                    lemma_iratio_eqv(k@, k@, k@);
                    lemma_order_eqv(mx@, ut.sub(lf), k@, const_value(*c));
                    lemma_order_eqv(k@, const_value(*c), mn@, lt.sub(uf));
                }
                Ok(decide_exec(mx.le(&k), k.lt(&mn)))
            },
            Ok(None) => Ok(None),
            Err(e) => Err(e),
        },
        BoolExpr::DlGt(f, t, c) => match dl_span(times, f.0, t.0) {
            Ok(Some((mx, mn))) => {
                let k = InfRational::new(Rational::Finite(*c), Fraction::zero());
                proof {
                    let (lf, uf) = tv[f.0 as int]->Some_0;
                    let (lt, ut) = tv[t.0 as int]->Some_0;
                    lemma_iratio_eqv(k@, k@, k@);
                    lemma_order_eqv(mx@, ut.sub(lf), k@, const_value(*c));
                    lemma_order_eqv(k@, const_value(*c), mn@, lt.sub(uf));
                }
                Ok(decide_exec(k.lt(&mn), mx.le(&k)))
            },
            Ok(None) => Ok(None),
            Err(e) => Err(e),
        },
        BoolExpr::DlGe(f, t, c) => match dl_span(times, f.0, t.0) {
            Ok(Some((mx, mn))) => {
                let k = InfRational::new(Rational::Finite(*c), Fraction::zero());
                proof {
                    let (lf, uf) = tv[f.0 as int]->Some_0;
                    let (lt, ut) = tv[t.0 as int]->Some_0;
                    lemma_iratio_eqv(k@, k@, k@);
                    lemma_order_eqv(mx@, ut.sub(lf), k@, const_value(*c));
                    lemma_order_eqv(k@, const_value(*c), mn@, lt.sub(uf));
                }
                Ok(decide_exec(k.le(&mn), mx.lt(&k)))
            },
            Ok(None) => Ok(None),
            Err(e) => Err(e),
        },
        BoolExpr::DlEq(f, t, c) => match dl_span(times, f.0, t.0) {
            Ok(Some((mx, mn))) => {
                let k = InfRational::new(Rational::Finite(*c), Fraction::zero());
                proof {
                    let (lf, uf) = tv[f.0 as int]->Some_0;
                    let (lt, ut) = tv[t.0 as int]->Some_0;
                    lemma_iratio_eqv(k@, k@, k@);
                    lemma_order_eqv(mx@, ut.sub(lf), k@, const_value(*c));
                    lemma_order_eqv(mn@, lt.sub(uf), k@, const_value(*c));
                    lemma_order_eqv(k@, const_value(*c), mn@, lt.sub(uf));
                }
                Ok(decide_exec(mx.eq_value(&k) && mn.eq_value(&k), mx.lt(&k) || k.lt(&mn)))
            },
            Ok(None) => Ok(None),
            Err(e) => Err(e),
        },
        BoolExpr::Eq(x, y) => match (&**x, &**y) {
            (Expr::Arith(a), Expr::Arith(b)) => {
                proof {
                    assert((**x)@ == SExpr::Arith(a@));
                    assert((**y)@ == SExpr::Arith(b@));
                    assert(expr@ == SBool::Eq(Box::new((**x)@), Box::new((**y)@)));
                }
                match both_bounds(lra, a, b) {
                Ok(Some((l1, u1, l2, u2))) => {
                    proof {
                        let (x1, y1) = arith_bounds(lbs, ubs, a@)->Some_0;
                        let (x2, y2) = arith_bounds(lbs, ubs, b@)->Some_0;
                        lemma_order_eqv(u1@, y1, l2@, x2);
                        lemma_order_eqv(u2@, y2, l1@, x1);
                        lemma_order_eqv(l1@, x1, u1@, y1);
                        lemma_order_eqv(l2@, x2, u2@, y2);
                        lemma_order_eqv(l1@, x1, l2@, x2);
                    }
                    if u1.lt(&l2) || u2.lt(&l1) {
                        Ok(Some(false))
                    } else if l1.eq_value(&u1) && l2.eq_value(&u2) && l1.eq_value(&l2) {
                        Ok(Some(true))
                    } else {
                        Ok(None)
                    }
                },
                Ok(None) => Ok(None),
                Err(e) => Err(e),
            }
            },
            (Expr::Bool(p), Expr::Bool(q)) => {
                proof {
                    assert((**x)@ == SExpr::Bool(p@));
                    assert((**y)@ == SExpr::Bool(q@));
                    assert(expr@ == SBool::Eq(Box::new((**x)@), Box::new((**y)@)));
                }
                let v1 = match get_bool_val(bools, enums, lra, times, p) {
                    Ok(v) => v,
                    Err(e) => {
                        return Err(e);
                    },
                };
                let v2 = match get_bool_val(bools, enums, lra, times, q) {
                    Ok(v) => v,
                    Err(e) => {
                        return Err(e);
                    },
                };
                match (v1, v2) {
                    (Some(a), Some(b)) => Ok(Some(a == b)),
                    _ => Ok(None),
                }
            },
            (Expr::Enum(p), Expr::Enum(q)) => {
                proof {
                    assert((**x)@ == SExpr::Enum(*p));
                    assert((**y)@ == SExpr::Enum(*q));
                    assert(expr@ == SBool::Eq(Box::new((**x)@), Box::new((**y)@)));
                }
                let v1 = get_enum_val(enums, p);
                let v2 = get_enum_val(enums, q);
                match (v1, v2) {
                    (Some(a), Some(b)) => Ok(Some(a == b)),
                    _ => Ok(None),
                }
            },
            _ => Ok(None),
        },
    }
}

/// The lower and upper bound of time point `tp`, when both searches finish:
/// minus the lightest distance from `tp` to the origin, and the lightest
/// distance from the origin to `tp`.
pub fn get_time_bounds(dl: &DlTheory, tp: usize) -> (r: Option<(InfRational, InfRational)>)
    requires
        dl.wf(),
        tp < dl.num_nodes(),
    ensures
        r matches Some((lo, hi)) ==> is_shortest(dl.edges(), tp as int, 0, lo@.neg()) && is_shortest(
            dl.edges(),
            0,
            tp as int,
            hi@,
        ),
{
    let lo = match dl.lb(tp) {
        Some(x) => x,
        None => {
            return None;
        },
    };
    let hi = match dl.ub(tp) {
        Some(x) => x,
        None => {
            return None;
        },
    };
    Some((lo, hi))
}

/// A comparison that the bounds decide is decided the same way by every
/// finite assignment `xs` within the bounds of the variables: `Some(t)` for
/// `a < b`, `a <= b`, `a >= b` or `a > b` means that the comparison of the
/// values of `a` and `b` under `xs` is `t`.
pub proof fn lemma_comparison_sound(lbs: Seq<IRatio>, ubs: Seq<IRatio>, xs: Seq<IRatio>, a: SArith, b: SArith)
    requires
        lbs.len() == xs.len(),
        ubs.len() == xs.len(),
        all_wf(lbs),
        all_wf(ubs),
        all_wf(xs),
        forall|v: int| 0 <= v < xs.len() ==> (#[trigger] xs[v]).real is Fin && lbs[v].le(xs[v]) && xs[v].le(ubs[v]),
        vars_below(a, xs.len()),
        vars_below(b, xs.len()),
        arith_bounds(lbs, ubs, a) is Some,
        arith_bounds(lbs, ubs, b) is Some,
    ensures
        ({
            let (l1, u1) = arith_bounds(lbs, ubs, a)->Some_0;
            let (l2, u2) = arith_bounds(lbs, ubs, b)->Some_0;
            let x1 = arith_value(xs, a)->Some_0;
            let x2 = arith_value(xs, b)->Some_0;
            &&& arith_value(xs, a) is Some && arith_value(xs, b) is Some
            &&& decide(u1.lt(l2), u2.le(l1)) matches Some(t) ==> x1.lt(x2) == t
            &&& decide(u1.le(l2), u2.lt(l1)) matches Some(t) ==> x1.le(x2) == t
            &&& decide(u2.le(l1), u1.lt(l2)) matches Some(t) ==> x2.le(x1) == t
            &&& decide(u2.lt(l1), u1.le(l2)) matches Some(t) ==> x2.lt(x1) == t
        }),
{
    lemma_bounds_sound(lbs, ubs, xs, a);
    lemma_bounds_sound(lbs, ubs, xs, b);
    lemma_bounds_wf(lbs, ubs, a);
    lemma_bounds_wf(lbs, ubs, b);
    let (l1, u1) = arith_bounds(lbs, ubs, a)->Some_0;
    let (l2, u2) = arith_bounds(lbs, ubs, b)->Some_0;
    let x1 = arith_value(xs, a)->Some_0;
    let x2 = arith_value(xs, b)->Some_0;
    // x1 <= u1 ? l2 <= x2, and x2 <= u2 ? l1 <= x1
    lemma_iratio_le_trans(x1, u1, l2);
    lemma_iratio_le_trans(x1, l2, x2);
    lemma_iratio_le_trans(x2, u2, l1);
    lemma_iratio_le_trans(x2, l1, x1);
    crate::rational::lemma_iratio_trichotomy(x1, x2);
    crate::rational::lemma_iratio_trichotomy(x2, x1);
    crate::rational::lemma_iratio_trichotomy(u1, l2);
    crate::rational::lemma_iratio_trichotomy(u2, l1);
    if u1.lt(l2) {
        lemma_iratio_le_trans(x1, u1, l2);
        assert(x1.lt(l2));
        lemma_iratio_le_trans(x1, l2, x2);
    }
    if u1.le(l2) {
        assert(x1.le(l2));
        lemma_iratio_le_trans(x1, l2, x2);
    }
    if u2.lt(l1) {
        assert(x2.lt(l1));
    }
    if u2.le(l1) {
        assert(x2.le(l1));
    }
}

/// What a decided comparison means: when the model's bounds decide `e`, a
/// comparison `a < b`, `a <= b`, `a >= b` or `a > b`, to `t`, then every
/// finite assignment `xs` of the arithmetic variables within those bounds
/// gives `a` and `b` values that compare as `e` says exactly when `t`.
pub proof fn law_comparison_value_sound(
    bools: Seq<Option<bool>>,
    enums: Seq<Option<i32>>,
    lbs: Seq<IRatio>,
    ubs: Seq<IRatio>,
    times: Seq<Option<(IRatio, IRatio)>>,
    xs: Seq<IRatio>,
    e: SBool,
    t: bool,
)
    requires
        lbs.len() == xs.len(),
        ubs.len() == xs.len(),
        all_wf(lbs),
        all_wf(ubs),
        all_wf(xs),
        forall|v: int| 0 <= v < xs.len() ==> (#[trigger] xs[v]).real is Fin && lbs[v].le(xs[v]) && xs[v].le(ubs[v]),
        bool_vars_ok(e, bools.len(), enums.len(), xs.len(), times.len()),
        bool_value(bools, enums, lbs, ubs, times, e) == Some(t),
    ensures
        e matches SBool::Lt(a, b) ==> arith_value(xs, a) matches Some(x) && arith_value(xs, b) matches Some(y) && x.lt(y)
            == t,
        e matches SBool::Le(a, b) ==> arith_value(xs, a) matches Some(x) && arith_value(xs, b) matches Some(y) && x.le(y)
            == t,
        e matches SBool::Ge(a, b) ==> arith_value(xs, a) matches Some(x) && arith_value(xs, b) matches Some(y) && y.le(x)
            == t,
        e matches SBool::Gt(a, b) ==> arith_value(xs, a) matches Some(x) && arith_value(xs, b) matches Some(y) && y.lt(x)
            == t,
{
    match e {
        SBool::Lt(a, b) => lemma_comparison_sound(lbs, ubs, xs, a, b),
        SBool::Le(a, b) => lemma_comparison_sound(lbs, ubs, xs, a, b),
        SBool::Ge(a, b) => lemma_comparison_sound(lbs, ubs, xs, a, b),
        SBool::Gt(a, b) => lemma_comparison_sound(lbs, ubs, xs, a, b),
        _ => {},
    }
}


/// `bf`, `ef`, `xs` and `tf` complete the model: they give every Boolean,
/// enum, arithmetic and time-point variable a value, agreeing with the
/// assigned Boolean and enum variables and lying within the bounds of the
/// others.
pub open spec fn completes(
    bools: Seq<Option<bool>>,
    enums: Seq<Option<i32>>,
    lbs: Seq<IRatio>,
    ubs: Seq<IRatio>,
    times: Seq<Option<(IRatio, IRatio)>>,
    bf: Seq<bool>,
    ef: Seq<i32>,
    xs: Seq<IRatio>,
    tf: Seq<IRatio>,
) -> bool {
    &&& bf.len() == bools.len()
    &&& ef.len() == enums.len()
    &&& lbs.len() == xs.len()
    &&& ubs.len() == xs.len()
    &&& tf.len() == times.len()
    &&& all_wf(lbs)
    &&& all_wf(ubs)
    &&& all_wf(xs)
    &&& all_wf(tf)
    &&& forall|v: int| 0 <= v < bools.len() ==> (#[trigger] bools[v] matches Some(b) ==> bf[v] == b)
    &&& forall|v: int| 0 <= v < enums.len() ==> (#[trigger] enums[v] matches Some(k) ==> ef[v] == k)
    &&& forall|v: int| 0 <= v < xs.len() ==> (#[trigger] xs[v]).real is Fin && lbs[v].le(xs[v]) && xs[v].le(ubs[v])
    &&& forall|v: int|
        0 <= v < tf.len() ==> (#[trigger] tf[v]).real is Fin && (times[v] matches Some((l, u)) ==> l.wf() && u.wf() && l.le(
            tf[v],
        ) && tf[v].le(u))
}

/// The value of an enum expression under the full assignment `ef`.
pub open spec fn enum_full(ef: Seq<i32>, e: EnumExpr) -> i32 {
    match e {
        EnumExpr::Const(c) => c,
        EnumExpr::Var(v) => ef[v.0 as int],
    }
}

/// The truth of `e` under a full assignment: Boolean variables by `bf`,
/// enum variables by `ef`, arithmetic variables by `xs` and time points by
/// `tf`. `a < b` holds when the value of `a` is below that of `b`, and
/// `t - f < c` when the difference of the time points is below `c`.
pub open spec fn eval(bf: Seq<bool>, ef: Seq<i32>, xs: Seq<IRatio>, tf: Seq<IRatio>, e: SBool) -> bool
    decreases e, 1int,
{
    match e {
        SBool::True => true,
        SBool::False => false,
        SBool::Var(v) => bf[v.0 as int],
        SBool::Not(x) => !eval(bf, ef, xs, tf, *x),
        SBool::And(ts) => all_eval(bf, ef, xs, tf, ts),
        SBool::Or(ts) => any_eval(bf, ef, xs, tf, ts),
        SBool::Lt(a, b) => match (arith_value(xs, a), arith_value(xs, b)) {
            (Some(x), Some(y)) => x.lt(y),
            _ => false,
        },
        SBool::Le(a, b) => match (arith_value(xs, a), arith_value(xs, b)) {
            (Some(x), Some(y)) => x.le(y),
            _ => false,
        },
        SBool::Ge(a, b) => match (arith_value(xs, a), arith_value(xs, b)) {
            (Some(x), Some(y)) => y.le(x),
            _ => false,
        },
        SBool::Gt(a, b) => match (arith_value(xs, a), arith_value(xs, b)) {
            (Some(x), Some(y)) => y.lt(x),
            _ => false,
        },
        SBool::DlLt(f, t, c) => tf[t.0 as int].sub(tf[f.0 as int]).lt(const_value(c)),
        SBool::DlLe(f, t, c) => tf[t.0 as int].sub(tf[f.0 as int]).le(const_value(c)),
        SBool::DlGt(f, t, c) => const_value(c).lt(tf[t.0 as int].sub(tf[f.0 as int])),
        SBool::DlGe(f, t, c) => const_value(c).le(tf[t.0 as int].sub(tf[f.0 as int])),
        SBool::DlEq(f, t, c) => tf[t.0 as int].sub(tf[f.0 as int]).eqv(const_value(c)),
        SBool::Eq(x, y) => match (*x, *y) {
            (SExpr::Arith(a), SExpr::Arith(b)) => match (arith_value(xs, a), arith_value(xs, b)) {
                (Some(p), Some(q)) => p.eqv(q),
                _ => false,
            },
            (SExpr::Bool(p), SExpr::Bool(q)) => eval(bf, ef, xs, tf, p) == eval(bf, ef, xs, tf, q),
            (SExpr::Enum(p), SExpr::Enum(q)) => enum_full(ef, p) == enum_full(ef, q),
            _ => false,
        },
    }
}

pub open spec fn all_eval(bf: Seq<bool>, ef: Seq<i32>, xs: Seq<IRatio>, tf: Seq<IRatio>, ts: Seq<SBool>) -> bool
    decreases ts, 0int,
{
    if ts.len() == 0 {
        true
    } else {
        all_eval(bf, ef, xs, tf, ts.drop_last()) && eval(bf, ef, xs, tf, ts.last())
    }
}

pub open spec fn any_eval(bf: Seq<bool>, ef: Seq<i32>, xs: Seq<IRatio>, tf: Seq<IRatio>, ts: Seq<SBool>) -> bool
    decreases ts, 0int,
{
    if ts.len() == 0 {
        false
    } else {
        any_eval(bf, ef, xs, tf, ts.drop_last()) || eval(bf, ef, xs, tf, ts.last())
    }
}

/// A value squeezed between two equal values equals them.
proof fn lemma_squeeze(l: IRatio, x: IRatio, u: IRatio)
    requires
        l.wf(),
        x.wf(),
        u.wf(),
        l.le(x),
        x.le(u),
        l.eqv(u),
    ensures
        x.eqv(l),
{
    lemma_iratio_eqv(l, u, x);
    crate::rational::lemma_iratio_eqv_order(u, l, x);
    crate::rational::lemma_iratio_trichotomy(l, x);
    crate::rational::lemma_iratio_trichotomy(x, l);
    lemma_iratio_eqv(l, x, u);
}

/// The difference of two time points lies within the difference of their
/// bounds.
proof fn lemma_diff_bounds(lf: IRatio, uf: IRatio, lt: IRatio, ut: IRatio, xf: IRatio, xt: IRatio)
    requires
        lf.wf(),
        uf.wf(),
        lt.wf(),
        ut.wf(),
        xf.wf(),
        xt.wf(),
        xf.real is Fin,
        xt.real is Fin,
        lf.le(xf),
        xf.le(uf),
        lt.le(xt),
        xt.le(ut),
    ensures
        lt.sub(uf).le(xt.sub(xf)),
        xt.sub(xf).le(ut.sub(lf)),
        lt.sub(uf).wf(),
        xt.sub(xf).wf(),
        ut.sub(lf).wf(),
{
    lemma_neg_le(lf, xf);
    lemma_neg_le(xf, uf);
    lemma_neg_wf(lf);
    lemma_neg_wf(uf);
    lemma_neg_wf(xf);
    lemma_add_le_upper(ut, xt, lf.neg(), xf.neg());
    lemma_add_le_lower(lt, xt, uf.neg(), xf.neg());
    lemma_add_wf(lt, uf.neg());
    lemma_add_wf(xt, xf.neg());
    lemma_add_wf(ut, lf.neg());
}

/// A decided arithmetic equality is decided the same way by every finite
/// assignment within the bounds.
proof fn lemma_arith_eq_sound(lbs: Seq<IRatio>, ubs: Seq<IRatio>, xs: Seq<IRatio>, a: SArith, b: SArith)
    requires
        lbs.len() == xs.len(),
        ubs.len() == xs.len(),
        all_wf(lbs),
        all_wf(ubs),
        all_wf(xs),
        forall|v: int| 0 <= v < xs.len() ==> (#[trigger] xs[v]).real is Fin && lbs[v].le(xs[v]) && xs[v].le(ubs[v]),
        vars_below(a, xs.len()),
        vars_below(b, xs.len()),
        arith_bounds(lbs, ubs, a) is Some,
        arith_bounds(lbs, ubs, b) is Some,
    ensures
        ({
            let (l1, u1) = arith_bounds(lbs, ubs, a)->Some_0;
            let (l2, u2) = arith_bounds(lbs, ubs, b)->Some_0;
            let x1 = arith_value(xs, a)->Some_0;
            let x2 = arith_value(xs, b)->Some_0;
            &&& arith_value(xs, a) is Some && arith_value(xs, b) is Some
            &&& (u1.lt(l2) || u2.lt(l1)) ==> !x1.eqv(x2)
            &&& (l1.eqv(u1) && l2.eqv(u2) && l1.eqv(l2)) ==> x1.eqv(x2)
        }),
{
    lemma_comparison_sound(lbs, ubs, xs, a, b);
    lemma_bounds_sound(lbs, ubs, xs, a);
    lemma_bounds_sound(lbs, ubs, xs, b);
    lemma_bounds_wf(lbs, ubs, a);
    lemma_bounds_wf(lbs, ubs, b);
    let (l1, u1) = arith_bounds(lbs, ubs, a)->Some_0;
    let (l2, u2) = arith_bounds(lbs, ubs, b)->Some_0;
    let x1 = arith_value(xs, a)->Some_0;
    let x2 = arith_value(xs, b)->Some_0;
    crate::rational::lemma_iratio_trichotomy(x1, x2);
    crate::rational::lemma_iratio_trichotomy(x2, x1);
    if l1.eqv(u1) && l2.eqv(u2) && l1.eqv(l2) {
        lemma_squeeze(l1, x1, u1);
        lemma_squeeze(l2, x2, u2);
        lemma_iratio_eqv(x1, l1, l2);
        lemma_iratio_eqv(l2, x2, x2);
        lemma_iratio_eqv(x1, l2, x2);
        lemma_iratio_eqv(x2, l2, l2);
    }
}

/// A decided difference constraint is decided the same way by every
/// assignment of the time points within their bounds.
proof fn lemma_dl_sound(lf: IRatio, uf: IRatio, lt: IRatio, ut: IRatio, xf: IRatio, xt: IRatio, c: IRatio)
    requires
        lf.wf(),
        uf.wf(),
        lt.wf(),
        ut.wf(),
        xf.wf(),
        xt.wf(),
        c.wf(),
        xf.real is Fin,
        xt.real is Fin,
        lf.le(xf),
        xf.le(uf),
        lt.le(xt),
        xt.le(ut),
    ensures
        ({
            let d = xt.sub(xf);
            let hi = ut.sub(lf);
            let lo = lt.sub(uf);
            &&& decide(hi.lt(c), c.le(lo)) matches Some(t) ==> d.lt(c) == t
            &&& decide(hi.le(c), c.lt(lo)) matches Some(t) ==> d.le(c) == t
            &&& decide(c.lt(lo), hi.le(c)) matches Some(t) ==> c.lt(d) == t
            &&& decide(c.le(lo), hi.lt(c)) matches Some(t) ==> c.le(d) == t
            &&& decide(hi.eqv(c) && lo.eqv(c), hi.lt(c) || c.lt(lo)) matches Some(t) ==> d.eqv(c) == t
        }),
{
    lemma_diff_bounds(lf, uf, lt, ut, xf, xt);
    let d = xt.sub(xf);
    let hi = ut.sub(lf);
    let lo = lt.sub(uf);
    lemma_iratio_le_trans(d, hi, c);
    lemma_iratio_le_trans(c, lo, d);
    lemma_iratio_le_trans(lo, d, hi);
    crate::rational::lemma_iratio_trichotomy(d, c);
    crate::rational::lemma_iratio_trichotomy(c, d);
    if hi.eqv(c) && lo.eqv(c) {
        lemma_iratio_eqv(hi, c, lo);
        lemma_iratio_eqv(lo, c, hi);
        lemma_iratio_eqv(c, lo, hi);
        lemma_squeeze(lo, d, hi);
        lemma_iratio_eqv(d, lo, c);
    }
    if hi.lt(c) {
        lemma_iratio_le_trans(d, hi, c);
    }
    if c.lt(lo) {
        lemma_iratio_le_trans(c, lo, d);
    }
}


/// What the three-valued truth means: when the model decides `e` to be `t`,
/// then `e` evaluates to `t` under every full assignment that completes the
/// model, that is agrees with its assigned Boolean and enum variables and
/// keeps every arithmetic variable and time point within its bounds.
pub proof fn law_model_value_sound(
    bools: Seq<Option<bool>>,
    enums: Seq<Option<i32>>,
    lbs: Seq<IRatio>,
    ubs: Seq<IRatio>,
    times: Seq<Option<(IRatio, IRatio)>>,
    bf: Seq<bool>,
    ef: Seq<i32>,
    xs: Seq<IRatio>,
    tf: Seq<IRatio>,
    e: SBool,
    t: bool,
)
    requires
        completes(bools, enums, lbs, ubs, times, bf, ef, xs, tf),
        bool_vars_ok(e, bools.len(), enums.len(), xs.len(), times.len()),
        bool_value(bools, enums, lbs, ubs, times, e) == Some(t),
    ensures
        eval(bf, ef, xs, tf, e) == t,
    decreases e, 1int,
{
    match e {
        SBool::Var(v) => {
            assert(bools[v.0 as int] matches Some(b) ==> bf[v.0 as int] == b);
        },
        SBool::Not(x) => {
            law_model_value_sound(bools, enums, lbs, ubs, times, bf, ef, xs, tf, *x, !t);
        },
        SBool::And(ts) => {
            lemma_items_sound(bools, enums, lbs, ubs, times, bf, ef, xs, tf, ts);
        },
        SBool::Or(ts) => {
            lemma_items_sound(bools, enums, lbs, ubs, times, bf, ef, xs, tf, ts);
        },
        SBool::Lt(a, b) => lemma_comparison_sound(lbs, ubs, xs, a, b),
        SBool::Le(a, b) => lemma_comparison_sound(lbs, ubs, xs, a, b),
        SBool::Ge(a, b) => lemma_comparison_sound(lbs, ubs, xs, a, b),
        SBool::Gt(a, b) => lemma_comparison_sound(lbs, ubs, xs, a, b),
        SBool::DlLt(f, to, c) => {
            assert(c@.fits());
            lemma_dl_case(times, tf, f.0 as int, to.0 as int, const_value(c));
        },
        SBool::DlLe(f, to, c) => {
            assert(c@.fits());
            lemma_dl_case(times, tf, f.0 as int, to.0 as int, const_value(c));
        },
        SBool::DlGt(f, to, c) => {
            assert(c@.fits());
            lemma_dl_case(times, tf, f.0 as int, to.0 as int, const_value(c));
        },
        SBool::DlGe(f, to, c) => {
            assert(c@.fits());
            lemma_dl_case(times, tf, f.0 as int, to.0 as int, const_value(c));
        },
        SBool::DlEq(f, to, c) => {
            assert(c@.fits());
            lemma_dl_case(times, tf, f.0 as int, to.0 as int, const_value(c));
        },
        SBool::Eq(x, y) => match (*x, *y) {
            (SExpr::Arith(a), SExpr::Arith(b)) => lemma_arith_eq_sound(lbs, ubs, xs, a, b),
            (SExpr::Bool(p), SExpr::Bool(q)) => {
                let v1 = bool_value(bools, enums, lbs, ubs, times, p)->Some_0;
                let v2 = bool_value(bools, enums, lbs, ubs, times, q)->Some_0;
                law_model_value_sound(bools, enums, lbs, ubs, times, bf, ef, xs, tf, p, v1);
                law_model_value_sound(bools, enums, lbs, ubs, times, bf, ef, xs, tf, q, v2);
            },
            (SExpr::Enum(p), SExpr::Enum(q)) => {
                if let EnumExpr::Var(v) = p {
                    assert(enums[v.0 as int] matches Some(k) ==> ef[v.0 as int] == k);
                }
                if let EnumExpr::Var(v) = q {
                    assert(enums[v.0 as int] matches Some(k) ==> ef[v.0 as int] == k);
                }
            },
            _ => {},
        },
        _ => {},
    }
}

proof fn lemma_dl_case(times: Seq<Option<(IRatio, IRatio)>>, tf: Seq<IRatio>, f: int, to: int, c: IRatio)
    requires
        0 <= f < tf.len(),
        0 <= to < tf.len(),
        tf.len() == times.len(),
        all_wf(tf),
        c.wf(),
        forall|v: int|
            0 <= v < tf.len() ==> (#[trigger] tf[v]).real is Fin && (times[v] matches Some((l, u)) ==> l.wf() && u.wf()
                && l.le(tf[v]) && tf[v].le(u)),
    ensures
        times[f] is Some && times[to] is Some ==> ({
            let (lf, uf) = times[f]->Some_0;
            let (lt, ut) = times[to]->Some_0;
            let d = tf[to].sub(tf[f]);
            let hi = ut.sub(lf);
            let lo = lt.sub(uf);
            &&& decide(hi.lt(c), c.le(lo)) matches Some(t) ==> d.lt(c) == t
            &&& decide(hi.le(c), c.lt(lo)) matches Some(t) ==> d.le(c) == t
            &&& decide(c.lt(lo), hi.le(c)) matches Some(t) ==> c.lt(d) == t
            &&& decide(c.le(lo), hi.lt(c)) matches Some(t) ==> c.le(d) == t
            &&& decide(hi.eqv(c) && lo.eqv(c), hi.lt(c) || c.lt(lo)) matches Some(t) ==> d.eqv(c) == t
        }),
{
    if times[f] is Some && times[to] is Some {
        assert(tf[f].real is Fin);
        assert(tf[to].real is Fin);
        let (lf, uf) = times[f]->Some_0;
        let (lt, ut) = times[to]->Some_0;
        lemma_dl_sound(lf, uf, lt, ut, tf[f], tf[to], c);
    }
}

proof fn lemma_items_sound(
    bools: Seq<Option<bool>>,
    enums: Seq<Option<i32>>,
    lbs: Seq<IRatio>,
    ubs: Seq<IRatio>,
    times: Seq<Option<(IRatio, IRatio)>>,
    bf: Seq<bool>,
    ef: Seq<i32>,
    xs: Seq<IRatio>,
    tf: Seq<IRatio>,
    ts: Seq<SBool>,
)
    requires
        completes(bools, enums, lbs, ubs, times, bf, ef, xs, tf),
        all_bool_vars_ok(ts, bools.len(), enums.len(), xs.len(), times.len()),
    ensures
        and_value(bools, enums, lbs, ubs, times, ts) matches Some(t) ==> all_eval(bf, ef, xs, tf, ts) == t,
        or_value(bools, enums, lbs, ubs, times, ts) matches Some(t) ==> any_eval(bf, ef, xs, tf, ts) == t,
    decreases ts, 0int,
{
    if ts.len() > 0 {
        lemma_items_sound(bools, enums, lbs, ubs, times, bf, ef, xs, tf, ts.drop_last());
        if let Some(x) = bool_value(bools, enums, lbs, ubs, times, ts.last()) {
            law_model_value_sound(bools, enums, lbs, ubs, times, bf, ef, xs, tf, ts.last(), x);
        }
    }
}

} // verus!
