//! Asserting a comparison between two linear expressions: a comparison with
//! no variable left is decided at once; otherwise it becomes an upper or a
//! lower bound, on the only variable or on the slack variable that stands
//! for the linear form.
use crate::ast::{ArithExpr, SArith};
use crate::fraction::{lemma_eqv_refl, lemma_ops_wf, Fraction, Ratio};
use crate::linear::linear;
use crate::lra_theory::{coef, LraError, LraTheory};
use crate::model::{all_vars_below, vars_below};
use crate::rational::{lemma_iratio_eqv, lemma_iratio_eqv_order, lemma_iratio_trichotomy, ExtRatio, IRatio, InfRational, Rational};
use crate::sparse_row::{coeff_map, has_var, lemma_coeff_at, SparseRow};
use vstd::prelude::*;

verus! {

broadcast use {crate::rational::lemma_inf_rational_wf, crate::fraction::lemma_fraction_fits};

/// A comparison between two arithmetic expressions.
#[derive(Clone, Copy, Debug, PartialEq, Eq, Structural)]
pub enum Comparison {
    Lt,
    Le,
    Ge,
    Gt,
}

/// Whether `e1 ⋈ e2` holds when `e1 - e2` is the constant `c`.
pub open spec fn constant_holds(op: Comparison, c: Ratio) -> bool {
    match op {
        Comparison::Lt => c.num < 0,
        Comparison::Le => c.num <= 0,
        Comparison::Ge => c.num >= 0,
        Comparison::Gt => c.num > 0,
    }
}

/// Whether asserting the comparison (or, when `polarity` is false, its
/// negation) bounds the variable part of `e1 - e2` from above.
pub open spec fn bounds_above(op: Comparison, polarity: bool) -> bool {
    match op {
        Comparison::Lt => polarity,
        Comparison::Le => polarity,
        Comparison::Ge => !polarity,
        Comparison::Gt => !polarity,
    }
}

/// The infinitesimal part of the bound: `-1` below a strict upper bound,
/// `1` above a strict lower bound, `0` for a non-strict one.
pub open spec fn eps_of(op: Comparison, polarity: bool) -> int {
    match (op, polarity) {
        (Comparison::Lt, true) => -1,
        (Comparison::Le, false) => 1,
        (Comparison::Ge, false) => -1,
        (Comparison::Gt, true) => 1,
        _ => 0,
    }
}

/// The bound on the variable part of `e1 - e2` whose constant is `c`: the
/// part is compared with `-c`, shifted by an infinitesimal when strict.
pub open spec fn atom_bound(op: Comparison, polarity: bool, c: Ratio) -> IRatio {
    IRatio { real: ExtRatio::Fin(c.neg()), eps: Ratio::of_int(eps_of(op, polarity)) }
}

/// `t` is bounded by `bd` from above (or from below) in `fin` when `b`; when
/// not `b`, that bound contradicts the opposite bound of `t`.
pub open spec fn enforces(fin: LraTheory, t: int, bd: IRatio, above: bool, b: bool) -> bool {
    if above {
        if b {
            fin.ub_of(t).le(bd)
        } else {
            bd.lt(fin.lb_of(t))
        }
    } else {
        if b {
            bd.le(fin.lb_of(t))
        } else {
            fin.ub_of(t).lt(bd)
        }
    }
}

impl LraTheory {
    /// The coefficient of `v` in `e1 - e2`, basic variables replaced by
    /// their rows.
    pub open spec fn form_coef(self, e1: SArith, e2: SArith, v: usize) -> Ratio {
        self.scaled_coef(e1, Ratio::of_int(1), v).add(self.scaled_coef(e2, Ratio::of_int(-1), v))
    }

    /// The constant of `e1 - e2`.
    pub open spec fn form_const(self, e1: SArith, e2: SArith) -> Ratio {
        self.scaled_const(e1, Ratio::of_int(1)).add(self.scaled_const(e2, Ratio::of_int(-1)))
    }

    /// `m` holds the non-zero coefficients of `e1 - e2`, up to equivalence.
    pub open spec fn is_form(self, m: Map<usize, Fraction>, e1: SArith, e2: SArith) -> bool {
        &&& forall|v: usize| #[trigger] m.contains_key(v) <==> self.form_coef(e1, e2, v).num != 0
        &&& forall|v: usize| #[trigger] m.contains_key(v) ==> m[v]@.eqv(self.form_coef(e1, e2, v))
    }

    /// `v` is the only variable of `e1 - e2`.
    pub open spec fn single_var(self, e1: SArith, e2: SArith, v: usize) -> bool {
        self.form_coef(e1, e2, v).num != 0 && forall|w: usize| w != v ==> #[trigger] self.form_coef(e1, e2, w).num == 0
    }

    /// What asserting the comparison did, from `self` to `fin`, answering
    /// `b`, where `c` is the constant of `e1 - e2`: with no variable, `b`
    /// tells whether the comparison (or its negation) holds and nothing
    /// changes; with one variable `v` of coefficient `k`, the bound divided
    /// by `k` bounds `v` (from the other side when `k` is negative); with
    /// several, the bound bounds the slack registered for the linear form.
    /// When `b` is false, the new bound contradicts the opposite bound.
    pub open spec fn asserted(
        self,
        fin: LraTheory,
        op: Comparison,
        polarity: bool,
        e1: SArith,
        e2: SArith,
        c: Ratio,
        b: bool,
    ) -> bool {
        let above = bounds_above(op, polarity);
        if forall|v: usize| #[trigger] self.form_coef(e1, e2, v).num == 0 {
            b == (polarity == constant_holds(op, c)) && fin == self
        } else if exists|v: usize| self.single_var(e1, e2, v) {
            let v = choose|v: usize| self.single_var(e1, e2, v);
            exists|k: Ratio|
                k.wf() && k.num != 0 && #[trigger] k.eqv(self.form_coef(e1, e2, v)) && enforces(
                    fin,
                    v as int,
                    atom_bound(op, polarity, c).div(k),
                    above == (k.num > 0),
                    b,
                )
        } else {
            exists|m: Map<usize, Fraction>, s: usize|
                self.is_form(m, e1, e2) && #[trigger] fin.slack_for(m, s) && enforces(
                    fin,
                    s as int,
                    atom_bound(op, polarity, c),
                    above,
                    b,
                )
        }
    }

    /// Asserts `e1 ⋈ e2` (or its negation when `polarity` is false).
    /// `Ok(false)` when it is decided false at once, or when its bound
    /// contradicts a bound already asserted; `Ok(true)` otherwise.
    pub fn assert_comparison(&mut self, op: Comparison, e1: &ArithExpr, e2: &ArithExpr, polarity: bool) -> (r: Result<
        bool,
        LraError,
    >)
        requires
            old(self).wf(),
            old(self).num_vars() < usize::MAX,
            linear(e1@),
            linear(e2@),
            vars_below(e1@, old(self).num_vars()),
            vars_below(e2@, old(self).num_vars()),
        ensures
            final(self).wf(),
            final(self).num_vars() >= old(self).num_vars(),
            r is Ok || r == Err::<bool, LraError>(LraError::Overflow),
            r matches Ok(b) ==> exists|c: Ratio|
                c.wf() && #[trigger] c.eqv(old(self).form_const(e1@, e2@)) && old(self).asserted(
                    *final(self),
                    op,
                    polarity,
                    e1@,
                    e2@,
                    c,
                    b,
                ),
    {
        let ghost old_self = *self;
        let (row, c) = match self.diff(e1, e2) {
            Ok(p) => p,
            Err(e) => {
                return Err(e);
            },
        };
        proof {
            self.lemma_form_keys(e1@, e2@, row@);
            lemma_fraction_wf(c);
        }
        if row.is_empty() {
            let sat = match op {
                Comparison::Lt => c.is_negative(),
                Comparison::Le => c.is_negative() || c.is_zero(),
                Comparison::Ge => !c.is_negative(),
                Comparison::Gt => c.is_positive(),
            };
            proof {
                assert forall|v: usize| #[trigger] self.form_coef(e1@, e2@, v).num == 0 by {
                    assert(!row@.contains_key(v));
                }
                assert(sat == constant_holds(op, c@));
                assert(c@.eqv(old_self.form_const(e1@, e2@)));
                assert(old_self.asserted(*self, op, polarity, e1@, e2@, c@, if polarity { sat } else { !sat }));
            }
            return Ok(if polarity {
                sat
            } else {
                !sat
            });
        }
        let above = match op {
            Comparison::Lt => polarity,
            Comparison::Le => polarity,
            Comparison::Ge => !polarity,
            Comparison::Gt => !polarity,
        };
        let e: i32 = match (op, polarity) {
            (Comparison::Lt, true) => -1,
            (Comparison::Le, false) => 1,
            (Comparison::Ge, false) => -1,
            (Comparison::Gt, true) => 1,
            _ => 0,
        };
        let bound = InfRational::new(Rational::Finite(c.neg()), Fraction::from_int(e));
        proof {
            assert(bound@ == atom_bound(op, polarity, c@));
            row.lemma_entries();
            if row.seq().len() == 0 {
                assert(coeff_map(row.seq()) =~= Map::<usize, Fraction>::empty());
            }
            let w = row.seq()[0].0;
            assert(row@.contains_key(w)) by {
                lemma_coeff_at(row.seq(), 0);
            }
            assert(exists|v: usize| #[trigger] self.form_coef(e1@, e2@, v).num != 0) by {
                assert(self.form_coef(e1@, e2@, w).num != 0);
            }
        }
        if row.len() == 1 {
            let entries = row.iter();
            let (v, k) = entries[0];
            proof {
                lemma_coeff_at(row.seq(), 0);
                assert(row@[v] == k);
                assert forall|w: usize| w != v implies #[trigger] self.form_coef(e1@, e2@, w).num == 0 by {
                    if row@.contains_key(w) {
                        let i = choose|i: int| 0 <= i < row.seq().len() && row.seq()[i].0 == w;
                        assert(i == 0);
                    }
                }
                assert(self.single_var(e1@, e2@, v));
                let v2 = choose|v2: usize| self.single_var(e1@, e2@, v2);
                assert(v2 == v);
                lemma_fraction_wf(k);
            }
            let fb = match bound.checked_div(&k) {
                Some(x) => x,
                None => {
                    return Err(LraError::Overflow);
                },
            };
            let ghost bd = atom_bound(op, polarity, c@).div(k@);
            let ghost mid = *self;
            let up = above == k.is_positive();
            let res = if up {
                self.set_ub(None, v, fb)
            } else {
                self.set_lb(None, v, fb)
            };
            proof {
                lemma_ops_wf(c@, c@);
                lemma_ops_wf(c@.neg(), k@);
                lemma_ops_wf(Ratio::of_int(e as int), k@);
                assert(bd.wf());
                lemma_iratio_trichotomy(fb@, mid.ub_of(v as int));
                lemma_iratio_trichotomy(fb@, mid.lb_of(v as int));
                lemma_iratio_eqv(fb@, fb@, fb@);
                mid.lemma_bounds_len();
                if res is Ok {
                    if up {
                        if !mid.ub_of(v as int).le(fb@) {
                            assert(self.upper_bounds()[v as int] == (None::<crate::lit::Lit>, fb));
                            assert(self.ub_of(v as int) == fb@);
                        }
                    } else {
                        if !fb@.le(mid.lb_of(v as int)) {
                            assert(self.lower_bounds()[v as int] == (None::<crate::lit::Lit>, fb));
                            assert(self.lb_of(v as int) == fb@);
                        }
                    }
                    assert(enforces(*self, v as int, fb@, up, true));
                    lemma_enforces_eqv(*self, v as int, fb@, bd, up, true);
                } else if res matches Err(LraError::Conflict(_)) {
                    assert(enforces(*self, v as int, fb@, up, false));
                    lemma_enforces_eqv(*self, v as int, fb@, bd, up, false);
                }
                assert(k@.eqv(old_self.form_coef(e1@, e2@, v)));
                assert(c@.eqv(old_self.form_const(e1@, e2@)));
                assert(up == (bounds_above(op, polarity) == (k@.num > 0)));
                if res is Ok || res matches Err(LraError::Conflict(_)) {
                    let b = res is Ok;
                    assert(old_self.single_var(e1@, e2@, v));
                    assert(enforces(*self, v as int, bd, up, b));
                    assert(!forall|x: usize| #[trigger] old_self.form_coef(e1@, e2@, x).num == 0);
                    assert(old_self.asserted(*self, op, polarity, e1@, e2@, c@, b));
                }
            }
            match res {
                Ok(_) => Ok(true),
                Err(LraError::Conflict(_)) => Ok(false),
                Err(err) => Err(err),
            }
        } else {
            proof {
                assert(!exists|v: usize| old_self.single_var(e1@, e2@, v)) by {
                    if exists|v: usize| old_self.single_var(e1@, e2@, v) {
                        let v = choose|v: usize| old_self.single_var(e1@, e2@, v);
                        assert forall|w: usize| #[trigger] row@.contains_key(w) implies w == v by {
                            if w != v {
                                assert(self.form_coef(e1@, e2@, w).num == 0);
                            }
                        }
                        assert(row.seq()[0].0 == v) by {
                            lemma_coeff_at(row.seq(), 0);
                        }
                        assert(row.seq()[1].0 == v) by {
                            lemma_coeff_at(row.seq(), 1);
                        }
                    }
                }
                assert forall|x: usize| #[trigger] row@.contains_key(x) implies x < self.num_vars() && !self.basic(x as int) by {}
            }
            let ghost form = row@;
            let s = match self.get_or_create_slack(row) {
                Ok(s) => s,
                Err(err) => {
                    return Err(err);
                },
            };
            let ghost mid = *self;
            let res = if above {
                self.set_ub(None, s, bound)
            } else {
                self.set_lb(None, s, bound)
            };
            proof {
                lemma_iratio_trichotomy(bound@, mid.ub_of(s as int));
                lemma_iratio_trichotomy(bound@, mid.lb_of(s as int));
                lemma_iratio_eqv(bound@, bound@, bound@);
                mid.lemma_bounds_len();
                if res is Ok {
                    if above {
                        if !mid.ub_of(s as int).le(bound@) {
                            assert(self.upper_bounds()[s as int] == (None::<crate::lit::Lit>, bound));
                        }
                    } else {
                        if !bound@.le(mid.lb_of(s as int)) {
                            assert(self.lower_bounds()[s as int] == (None::<crate::lit::Lit>, bound));
                        }
                    }
                    assert(enforces(*self, s as int, bound@, above, true));
                } else if res matches Err(LraError::Conflict(_)) {
                    assert(enforces(*self, s as int, bound@, above, false));
                }
                assert(self.slack_for(form, s));
                assert(old_self.is_form(form, e1@, e2@));
                assert(c@.eqv(old_self.form_const(e1@, e2@)));
                assert(above == bounds_above(op, polarity));
                if res is Ok || res matches Err(LraError::Conflict(_)) {
                    let b = res is Ok;
                    assert(enforces(*self, s as int, bound@, above, b));
                    assert(!forall|x: usize| #[trigger] old_self.form_coef(e1@, e2@, x).num == 0);
                    assert(old_self.asserted(*self, op, polarity, e1@, e2@, c@, b));
                }
            }
            match res {
                Ok(_) => Ok(true),
                Err(LraError::Conflict(_)) => Ok(false),
                Err(err) => Err(err),
            }
        }
    }

    /// What asserting `e1 = e2` did, from `self` to `fin`, answering `b`,
    /// where `c` is the constant of `e1 - e2`: with no variable, `b` tells
    /// whether `c` is zero and nothing changes; otherwise the variable (or
    /// the slack of the linear form) is bounded from both sides by the value
    /// that makes the difference zero, or, when `b` is false, that value
    /// contradicts one of its bounds.
    pub open spec fn asserted_eq(self, fin: LraTheory, e1: SArith, e2: SArith, c: Ratio, b: bool) -> bool {
        let z = atom_bound(Comparison::Le, true, c);
        if forall|v: usize| #[trigger] self.form_coef(e1, e2, v).num == 0 {
            b == (c.num == 0) && fin == self
        } else if exists|v: usize| self.single_var(e1, e2, v) {
            let v = choose|v: usize| self.single_var(e1, e2, v);
            exists|k: Ratio|
                k.wf() && k.num != 0 && #[trigger] k.eqv(self.form_coef(e1, e2, v)) && pinned(fin, v as int, z.div(k), b)
        } else {
            exists|m: Map<usize, Fraction>, s: usize|
                self.is_form(m, e1, e2) && #[trigger] fin.slack_for(m, s) && pinned(fin, s as int, z, b)
        }
    }

    /// Asserts the arithmetic equality `e1 = e2`: a lower and then an upper
    /// bound on the variable or the slack. `Ok(false)` when it is decided
    /// false at once or a bound contradicts one already asserted.
    pub fn assert_arith_eq(&mut self, e1: &ArithExpr, e2: &ArithExpr) -> (r: Result<bool, LraError>)
        requires
            old(self).wf(),
            old(self).num_vars() < usize::MAX,
            linear(e1@),
            linear(e2@),
            vars_below(e1@, old(self).num_vars()),
            vars_below(e2@, old(self).num_vars()),
        ensures
            final(self).wf(),
            final(self).num_vars() >= old(self).num_vars(),
            r is Ok || r == Err::<bool, LraError>(LraError::Overflow),
            r matches Ok(b) ==> exists|c: Ratio|
                c.wf() && #[trigger] c.eqv(old(self).form_const(e1@, e2@)) && old(self).asserted_eq(
                    *final(self),
                    e1@,
                    e2@,
                    c,
                    b,
                ),
    {
        let ghost old_self = *self;
        let (row, c) = match self.diff(e1, e2) {
            Ok(p) => p,
            Err(e) => {
                return Err(e);
            },
        };
        proof {
            self.lemma_form_keys(e1@, e2@, row@);
            lemma_fraction_wf(c);
            assert(c@.eqv(old_self.form_const(e1@, e2@)));
        }
        if row.is_empty() {
            proof {
                assert forall|v: usize| #[trigger] self.form_coef(e1@, e2@, v).num == 0 by {
                    assert(!row@.contains_key(v));
                }
                assert(c@.eqv(old_self.form_const(e1@, e2@)));
                assert(old_self.asserted_eq(*self, e1@, e2@, c@, c@.num == 0));
            }
            return Ok(c.is_zero());
        }
        let bound = InfRational::new(Rational::Finite(c.neg()), Fraction::from_int(0));
        proof {
            assert(bound@ == atom_bound(Comparison::Le, true, c@));
            row.lemma_entries();
            if row.seq().len() == 0 {
                assert(coeff_map(row.seq()) =~= Map::<usize, Fraction>::empty());
            }
            let w = row.seq()[0].0;
            assert(row@.contains_key(w)) by {
                lemma_coeff_at(row.seq(), 0);
            }
            assert(self.form_coef(e1@, e2@, w).num != 0);
        }
        let target: usize;
        let value: InfRational;
        let ghost form = row@;
        let ghost mut kk: Ratio = Ratio::zero();
        if row.len() == 1 {
            let entries = row.iter();
            let (v, k) = entries[0];
            proof {
                lemma_coeff_at(row.seq(), 0);
                assert(row@[v] == k);
                assert forall|w: usize| w != v implies #[trigger] self.form_coef(e1@, e2@, w).num == 0 by {
                    if row@.contains_key(w) {
                        let i = choose|i: int| 0 <= i < row.seq().len() && row.seq()[i].0 == w;
                        assert(i == 0);
                    }
                }
                assert(self.single_var(e1@, e2@, v));
                let v2 = choose|v2: usize| self.single_var(e1@, e2@, v2);
                assert(v2 == v);
                lemma_fraction_wf(k);
                lemma_ops_wf(c@, c@);
                lemma_ops_wf(c@.neg(), k@);
                lemma_ops_wf(Ratio::zero(), k@);
                assert(k@.eqv(old_self.form_coef(e1@, e2@, v)));
            }
            value = match bound.checked_div(&k) {
                Some(x) => x,
                None => {
                    return Err(LraError::Overflow);
                },
            };
            target = v;
            proof {
                kk = k@;
                let bd = atom_bound(Comparison::Le, true, c@).div(k@);
                assert(value@.eqv(bd));
                assert(bd.wf());
                lemma_iratio_eqv(value@, bd, bd);
            }
        } else {
            proof {
                assert(!exists|v: usize| old_self.single_var(e1@, e2@, v)) by {
                    if exists|v: usize| old_self.single_var(e1@, e2@, v) {
                        let v = choose|v: usize| old_self.single_var(e1@, e2@, v);
                        assert forall|w: usize| #[trigger] row@.contains_key(w) implies w == v by {
                            if w != v {
                                assert(self.form_coef(e1@, e2@, w).num == 0);
                            }
                        }
                        assert(row.seq()[0].0 == v) by {
                            lemma_coeff_at(row.seq(), 0);
                        }
                        assert(row.seq()[1].0 == v) by {
                            lemma_coeff_at(row.seq(), 1);
                        }
                    }
                }
            }
            target = match self.get_or_create_slack(row) {
                Ok(s) => s,
                Err(err) => {
                    return Err(err);
                },
            };
            value = bound;
            proof {
                lemma_iratio_eqv(value@, value@, value@);
                assert(self.slack_for(form, target));
            }
        }
        let ghost mid = *self;
        proof {
            mid.lemma_bounds_len();
            lemma_iratio_trichotomy(value@, mid.ub_of(target as int));
            lemma_iratio_trichotomy(value@, mid.lb_of(target as int));
        }
        match self.set_lb(None, target, value) {
            Ok(_) => {},
            Err(LraError::Conflict(_)) => {
                proof {
                    assert(mid.ub_of(target as int).lt(value@));
                    lemma_eq_done(old_self, *self, e1@, e2@, c@, target, value@, form, kk, false);
                }
                return Ok(false);
            },
            Err(err) => {
                return Err(err);
            },
        }
        let ghost mid2 = *self;
        proof {
            mid2.lemma_bounds_len();
            if !value@.le(mid.lb_of(target as int)) {
                assert(mid2.lower_bounds()[target as int] == (None::<crate::lit::Lit>, value));
            }
            assert(value@.le(mid2.lb_of(target as int)));
            lemma_iratio_trichotomy(value@, mid2.ub_of(target as int));
            lemma_iratio_trichotomy(value@, mid2.lb_of(target as int));
        }
        match self.set_ub(None, target, value) {
            Ok(_) => {
                proof {
                    if !mid2.ub_of(target as int).le(value@) {
                        assert(self.upper_bounds()[target as int] == (None::<crate::lit::Lit>, value));
                    }
                    assert(self.lower_bounds() == mid2.lower_bounds());
                    lemma_eq_done(old_self, *self, e1@, e2@, c@, target, value@, form, kk, true);
                }
                Ok(true)
            },
            Err(LraError::Conflict(_)) => {
                proof {
                    lemma_eq_done(old_self, *self, e1@, e2@, c@, target, value@, form, kk, false);
                }
                Ok(false)
            },
            Err(err) => Err(err),
        }
    }

    /// The keys of the linear form of `e1 - e2` are its variables with a
    /// non-zero coefficient; each is a non-basic variable of the theory.
    proof fn lemma_form_keys(self, e1: SArith, e2: SArith, m: Map<usize, Fraction>)
        requires
            self.wf(),
            linear(e1),
            linear(e2),
            vars_below(e1, self.num_vars()),
            vars_below(e2, self.num_vars()),
            forall|v: usize| (#[trigger] coef(m, v)).eqv(self.form_coef(e1, e2, v)),
            forall|v: usize| #[trigger] m.contains_key(v) ==> m[v]@.num != 0,
        ensures
            self.is_form(m, e1, e2),
            forall|v: usize| #[trigger] m.contains_key(v) ==> v < self.num_vars() && !self.basic(v as int),
            forall|v: usize| #[trigger] self.form_coef(e1, e2, v).wf(),
    {
        assert forall|v: usize| #[trigger] self.form_coef(e1, e2, v).wf() by {
            self.lemma_scaled_congr(e1, Ratio::of_int(1), Ratio::of_int(1), v);
            self.lemma_scaled_congr(e2, Ratio::of_int(-1), Ratio::of_int(-1), v);
            lemma_ops_wf(self.scaled_coef(e1, Ratio::of_int(1), v), self.scaled_coef(e2, Ratio::of_int(-1), v));
        }
        assert forall|v: usize| #[trigger] m.contains_key(v) <==> self.form_coef(e1, e2, v).num != 0 by {
            let f = self.form_coef(e1, e2, v);
            assert(f.wf());
            assert(coef(m, v).eqv(f));
            if m.contains_key(v) {
                assert(m[v]@.num * f.den == f.num * m[v]@.den);
                if f.num == 0 {
                    assert(m[v]@.num * f.den == 0);
                    assert(m[v]@.num == 0) by (nonlinear_arith)
                        requires
                            m[v]@.num * f.den == 0,
                            f.den > 0,
                    ;
                }
            } else {
                assert(coef(m, v) == Ratio::zero());
                assert(f.num == 0);
            }
        }
        assert forall|v: usize| #[trigger] m.contains_key(v) implies m[v]@.eqv(self.form_coef(e1, e2, v)) by {
            assert(coef(m, v).eqv(self.form_coef(e1, e2, v)));
        }
        assert forall|v: usize| #[trigger] m.contains_key(v) implies v < self.num_vars() && !self.basic(v as int) by {
            if v >= self.num_vars() || self.basic(v as int) {
                self.lemma_coef_outside(e1, Ratio::of_int(1), v);
                self.lemma_coef_outside(e2, Ratio::of_int(-1), v);
                assert(self.form_coef(e1, e2, v).num == 0);
            }
        }
    }

    /// Outside the theory's variables, and at basic variables (replaced by
    /// their rows), a linear expression has no coefficient.
    proof fn lemma_coef_outside(self, e: SArith, s: Ratio, v: usize)
        requires
            self.wf(),
            vars_below(e, self.num_vars()),
            v >= self.num_vars() || self.basic(v as int),
        ensures
            self.scaled_coef(e, s, v).num == 0,
            self.scaled_coef(e, s, v).den == 1,
        decreases e, 1int,
    {
        match e {
            SArith::IntVar(x) => self.lemma_var_outside(x.0, s, v),
            SArith::RealVar(x) => self.lemma_var_outside(x.0, s, v),
            SArith::Add(ts) => self.lemma_coef_outside_all(ts, s, v),
            SArith::Mul(ts) => {
                if ts.len() == 2 {
                    lemma_below_elem(ts, 0, self.num_vars());
                    lemma_below_elem(ts, 1, self.num_vars());
                    match (ts[0], ts[1]) {
                        (SArith::Const(c), sub) => self.lemma_coef_outside(sub, c@.mul(s), v),
                        (sub, SArith::Const(c)) => self.lemma_coef_outside(sub, c@.mul(s), v),
                        _ => {},
                    }
                }
            },
            SArith::Div(n, d) => {
                match *d {
                    SArith::Const(c) => self.lemma_coef_outside(*n, s.div(c@), v),
                    _ => {},
                }
            },
            SArith::Neg(x) => self.lemma_coef_outside(*x, s.neg(), v),
            _ => {},
        }
    }

    proof fn lemma_coef_outside_all(self, ts: Seq<SArith>, s: Ratio, v: usize)
        requires
            self.wf(),
            all_vars_below(ts, self.num_vars()),
            v >= self.num_vars() || self.basic(v as int),
        ensures
            self.scaled_coef_all(ts, s, v).num == 0,
            self.scaled_coef_all(ts, s, v).den == 1,
        decreases ts, 0int,
    {
        if ts.len() > 0 {
            self.lemma_coef_outside_all(ts.drop_last(), s, v);
            self.lemma_coef_outside(ts.last(), s, v);
        }
    }

    proof fn lemma_var_outside(self, x: usize, s: Ratio, v: usize)
        requires
            self.wf(),
            x < self.num_vars(),
            v >= self.num_vars() || self.basic(v as int),
        ensures
            self.var_scaled(x, s, v).num == 0,
            self.var_scaled(x, s, v).den == 1,
    {
        if self.basic(x as int) {
            self.lemma_row_wf(x as int);
            assert(!self.row_of(x as int)@.contains_key(v));
        }
    }
}

proof fn lemma_below_elem(ts: Seq<SArith>, i: int, n: nat)
    requires
        all_vars_below(ts, n),
        0 <= i < ts.len(),
    ensures
        vars_below(ts[i], n),
    decreases ts.len(),
{
    if i < ts.len() - 1 {
        lemma_below_elem(ts.drop_last(), i, n);
    }
}

proof fn lemma_fraction_wf(f: Fraction)
    ensures
        f@.wf(),
{
    crate::fraction::lemma_fraction_fits(f);
}

/// `t` is bounded from both sides by `bd` in `fin` when `b`; when not `b`,
/// `bd` lies outside the bounds of `t`.
pub open spec fn pinned(fin: LraTheory, t: int, bd: IRatio, b: bool) -> bool {
    if b {
        fin.ub_of(t).le(bd) && bd.le(fin.lb_of(t))
    } else {
        bd.lt(fin.lb_of(t)) || fin.ub_of(t).lt(bd)
    }
}

/// Reading what [`LraTheory::assert_arith_eq`] did on the variable or slack
/// `target`, bounded by `value`.
proof fn lemma_eq_done(
    old: LraTheory,
    fin: LraTheory,
    e1: SArith,
    e2: SArith,
    c: Ratio,
    target: usize,
    value: IRatio,
    form: Map<usize, Fraction>,
    k: Ratio,
    b: bool,
)
    requires
        !forall|v: usize| #[trigger] old.form_coef(e1, e2, v).num == 0,
        (exists|v: usize| old.single_var(e1, e2, v)) ==> {
            &&& old.single_var(e1, e2, target)
            &&& k.wf()
            &&& k.num != 0
            &&& k.eqv(old.form_coef(e1, e2, target))
            &&& atom_bound(Comparison::Le, true, c).div(k).wf()
            &&& value.eqv(atom_bound(Comparison::Le, true, c).div(k))
        },
        !(exists|v: usize| old.single_var(e1, e2, v)) ==> old.is_form(form, e1, e2) && fin.slack_for(form, target) && value
            == atom_bound(Comparison::Le, true, c),
        value.wf(),
        fin.ub_of(target as int).wf(),
        fin.lb_of(target as int).wf(),
        pinned(fin, target as int, value, b),
    ensures
        old.asserted_eq(fin, e1, e2, c, b),
{
    if exists|v: usize| old.single_var(e1, e2, v) {
        let v = choose|v: usize| old.single_var(e1, e2, v);
        assert(v == target) by {
            if v != target {
                assert(old.form_coef(e1, e2, target).num == 0);
            }
        }
        let bd = atom_bound(Comparison::Le, true, c).div(k);
        lemma_iratio_eqv_order(value, bd, fin.ub_of(target as int));
        lemma_iratio_eqv_order(value, bd, fin.lb_of(target as int));
        assert(pinned(fin, target as int, bd, b));
    }
}

/// A bound given by a value equivalent to `bd` is read as a bound by `bd`.
proof fn lemma_enforces_eqv(fin: LraTheory, t: int, x: IRatio, bd: IRatio, above: bool, b: bool)
    requires
        x.wf(),
        bd.wf(),
        x.eqv(bd),
        fin.ub_of(t).wf(),
        fin.lb_of(t).wf(),
        enforces(fin, t, x, above, b),
    ensures
        enforces(fin, t, bd, above, b),
{
    lemma_iratio_eqv_order(x, bd, fin.ub_of(t));
    lemma_iratio_eqv_order(x, bd, fin.lb_of(t));
}

} // verus!
