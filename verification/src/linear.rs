//! Linear forms of arithmetic expressions: a coefficient for each variable
//! and a constant, with basic variables replaced by their rows.
use crate::ast::{ariths_model, lemma_ariths_model, ArithExpr, SArith};
use crate::fraction::{lemma_add_eqv, lemma_eqv_refl, lemma_eqv_sym, lemma_eqv_trans, lemma_fraction_fits, lemma_ops_wf, Fraction, Ratio};
use crate::lra_theory::{coef, lemma_add_zero_valued, lemma_mul_eqv_right, LraError, LraTheory};
use crate::rational::{lemma_ratio_add_assoc, lemma_ratio_div_eqv};
use crate::sparse_row::{coeff_map, has_var, lemma_coeff_at, lemma_has_var_take, sorted_vars, SparseRow};
use vstd::prelude::*;

verus! {

broadcast use lemma_fraction_fits;

/// `e` is linear: every product has exactly two operands, one of them a
/// constant, and every quotient has a non-zero constant divisor.
pub open spec fn linear(e: SArith) -> bool
    decreases e,
{
    match e {
        SArith::Const(_) => true,
        SArith::IntVar(_) => true,
        SArith::RealVar(_) => true,
        SArith::Add(ts) => linear_all(ts),
        SArith::Mul(ts) => ts.len() == 2 && match (ts[0], ts[1]) {
            (SArith::Const(_), sub) => linear(sub),
            (sub, SArith::Const(_)) => linear(sub),
            _ => false,
        },
        SArith::Div(n, d) => match *d {
            SArith::Const(c) => c@.num != 0 && linear(*n),
            _ => false,
        },
        SArith::Neg(x) => linear(*x),
    }
}

pub open spec fn linear_all(ts: Seq<SArith>) -> bool
    decreases ts,
{
    if ts.len() == 0 {
        true
    } else {
        linear_all(ts.drop_last()) && linear(ts.last())
    }
}

impl LraTheory {
    /// The coefficient of `v` in `s · x`, with `x` replaced by its row when basic.
    pub open spec fn var_scaled(self, x: usize, s: Ratio, v: usize) -> Ratio {
        if x < self.num_vars() && self.basic(x as int) {
            if self.row_of(x as int)@.contains_key(v) {
                self.row_of(x as int)@[v]@.mul(s)
            } else {
                Ratio::zero()
            }
        } else if v == x {
            s
        } else {
            Ratio::zero()
        }
    }

    /// The coefficient of `v` in `s · e`.
    pub open spec fn scaled_coef(self, e: SArith, s: Ratio, v: usize) -> Ratio
        decreases e, 1int,
    {
        match e {
            SArith::Const(_) => Ratio::zero(),
            SArith::IntVar(x) => self.var_scaled(x.0, s, v),
            SArith::RealVar(x) => self.var_scaled(x.0, s, v),
            SArith::Add(ts) => self.scaled_coef_all(ts, s, v),
            SArith::Mul(ts) => if ts.len() == 2 {
                match (ts[0], ts[1]) {
                    (SArith::Const(c), sub) => self.scaled_coef(sub, c@.mul(s), v),
                    (sub, SArith::Const(c)) => self.scaled_coef(sub, c@.mul(s), v),
                    _ => Ratio::zero(),
                }
            } else {
                Ratio::zero()
            },
            SArith::Div(n, d) => match *d {
                SArith::Const(c) => self.scaled_coef(*n, s.div(c@), v),
                _ => Ratio::zero(),
            },
            SArith::Neg(x) => self.scaled_coef(*x, s.neg(), v),
        }
    }

    pub open spec fn scaled_coef_all(self, ts: Seq<SArith>, s: Ratio, v: usize) -> Ratio
        decreases ts, 0int,
    {
        if ts.len() == 0 {
            Ratio::zero()
        } else {
            self.scaled_coef_all(ts.drop_last(), s, v).add(self.scaled_coef(ts.last(), s, v))
        }
    }

    /// The constant of `s · e`.
    pub open spec fn scaled_const(self, e: SArith, s: Ratio) -> Ratio
        decreases e, 1int,
    {
        match e {
            SArith::Const(c) => c@.mul(s),
            SArith::IntVar(_) => Ratio::zero(),
            SArith::RealVar(_) => Ratio::zero(),
            SArith::Add(ts) => self.scaled_const_all(ts, s),
            SArith::Mul(ts) => if ts.len() == 2 {
                match (ts[0], ts[1]) {
                    (SArith::Const(c), sub) => self.scaled_const(sub, c@.mul(s)),
                    (sub, SArith::Const(c)) => self.scaled_const(sub, c@.mul(s)),
                    _ => Ratio::zero(),
                }
            } else {
                Ratio::zero()
            },
            SArith::Div(n, d) => match *d {
                SArith::Const(c) => self.scaled_const(*n, s.div(c@)),
                _ => Ratio::zero(),
            },
            SArith::Neg(x) => self.scaled_const(*x, s.neg()),
        }
    }

    pub open spec fn scaled_const_all(self, ts: Seq<SArith>, s: Ratio) -> Ratio
        decreases ts, 0int,
    {
        if ts.len() == 0 {
            Ratio::zero()
        } else {
            self.scaled_const_all(ts.drop_last(), s).add(self.scaled_const(ts.last(), s))
        }
    }

    /// Scaling by fractions of the same value gives linear forms of the same
    /// value; every coefficient and constant is well-formed.
    pub proof fn lemma_scaled_congr(self, e: SArith, s1: Ratio, s2: Ratio, v: usize)
        requires
            self.wf(),
            s1.wf(),
            s2.wf(),
            s1.eqv(s2),
            linear(e),
        ensures
            self.scaled_coef(e, s1, v).eqv(self.scaled_coef(e, s2, v)),
            self.scaled_const(e, s1).eqv(self.scaled_const(e, s2)),
            self.scaled_coef(e, s1, v).wf(),
            self.scaled_const(e, s1).wf(),
            self.scaled_coef(e, s2, v).wf(),
            self.scaled_const(e, s2).wf(),
        decreases e, 1int,
    {
        match e {
            SArith::Const(c) => {
                assert(c@.fits());
                lemma_eqv_refl(Ratio::zero());
                lemma_mul_eqv_right(c@, s1, s2);
                lemma_ops_wf(c@, s1);
                lemma_ops_wf(c@, s2);
            },
            SArith::IntVar(x) => {
                self.lemma_var_scaled_congr(x.0, s1, s2, v);
                lemma_eqv_refl(Ratio::zero());
            },
            SArith::RealVar(x) => {
                self.lemma_var_scaled_congr(x.0, s1, s2, v);
                lemma_eqv_refl(Ratio::zero());
            },
            SArith::Add(ts) => {
                self.lemma_scaled_congr_all(ts, s1, s2, v);
            },
            SArith::Mul(ts) => {
                match (ts[0], ts[1]) {
                    (SArith::Const(c), sub) => {
                        assert(c@.fits());
                        lemma_mul_eqv_right(c@, s1, s2);
                        lemma_ops_wf(c@, s1);
                        lemma_ops_wf(c@, s2);
                        self.lemma_scaled_congr(sub, c@.mul(s1), c@.mul(s2), v);
                    },
                    (sub, SArith::Const(c)) => {
                        assert(c@.fits());
                        lemma_mul_eqv_right(c@, s1, s2);
                        lemma_ops_wf(c@, s1);
                        lemma_ops_wf(c@, s2);
                        self.lemma_scaled_congr(sub, c@.mul(s1), c@.mul(s2), v);
                    },
                    _ => {},
                }
            },
            SArith::Div(n, d) => {
                if let SArith::Const(c) = *d {
                    assert(c@.fits());
                    lemma_ratio_div_eqv(s1, s2, c@);
                    lemma_ops_wf(s1, c@);
                    lemma_ops_wf(s2, c@);
                    self.lemma_scaled_congr(*n, s1.div(c@), s2.div(c@), v);
                }
            },
            SArith::Neg(x) => {
                lemma_ops_wf(s1, s1);
                lemma_ops_wf(s2, s2);
                assert(s1.neg().eqv(s2.neg())) by (nonlinear_arith)
                    requires
                        s1.num * s2.den == s2.num * s1.den,
                ;
                self.lemma_scaled_congr(*x, s1.neg(), s2.neg(), v);
            },
        }
    }

    pub proof fn lemma_scaled_congr_all(self, ts: Seq<SArith>, s1: Ratio, s2: Ratio, v: usize)
        requires
            self.wf(),
            s1.wf(),
            s2.wf(),
            s1.eqv(s2),
            linear_all(ts),
        ensures
            self.scaled_coef_all(ts, s1, v).eqv(self.scaled_coef_all(ts, s2, v)),
            self.scaled_const_all(ts, s1).eqv(self.scaled_const_all(ts, s2)),
            self.scaled_coef_all(ts, s1, v).wf(),
            self.scaled_const_all(ts, s1).wf(),
            self.scaled_coef_all(ts, s2, v).wf(),
            self.scaled_const_all(ts, s2).wf(),
        decreases ts, 0int,
    {
        if ts.len() == 0 {
            lemma_eqv_refl(Ratio::zero());
        } else {
            self.lemma_scaled_congr_all(ts.drop_last(), s1, s2, v);
            self.lemma_scaled_congr(ts.last(), s1, s2, v);
            lemma_add_eqv(
                self.scaled_coef_all(ts.drop_last(), s1, v),
                self.scaled_coef_all(ts.drop_last(), s2, v),
                self.scaled_coef(ts.last(), s1, v),
                self.scaled_coef(ts.last(), s2, v),
            );
            lemma_add_eqv(
                self.scaled_const_all(ts.drop_last(), s1),
                self.scaled_const_all(ts.drop_last(), s2),
                self.scaled_const(ts.last(), s1),
                self.scaled_const(ts.last(), s2),
            );
            lemma_ops_wf(self.scaled_coef_all(ts.drop_last(), s1, v), self.scaled_coef(ts.last(), s1, v));
            lemma_ops_wf(self.scaled_coef_all(ts.drop_last(), s2, v), self.scaled_coef(ts.last(), s2, v));
            lemma_ops_wf(self.scaled_const_all(ts.drop_last(), s1), self.scaled_const(ts.last(), s1));
            lemma_ops_wf(self.scaled_const_all(ts.drop_last(), s2), self.scaled_const(ts.last(), s2));
        }
    }

    proof fn lemma_var_scaled_congr(self, x: usize, s1: Ratio, s2: Ratio, v: usize)
        requires
            self.wf(),
            s1.wf(),
            s2.wf(),
            s1.eqv(s2),
        ensures
            self.var_scaled(x, s1, v).eqv(self.var_scaled(x, s2, v)),
            self.var_scaled(x, s1, v).wf(),
            self.var_scaled(x, s2, v).wf(),
    {
        if x < self.num_vars() && self.basic(x as int) && self.row_of(x as int)@.contains_key(v) {
            let c = self.row_of(x as int)@[v]@;
            assert(c.fits());
            lemma_mul_eqv_right(c, s1, s2);
            lemma_ops_wf(c, s1);
            lemma_ops_wf(c, s2);
        }
    }

    /// Adds `scale · x` to `vars`, with `x` replaced by its row when basic.
    fn accumulate_var(&self, var: usize, scale: &Fraction, vars: &mut SparseRow) -> (r: Result<(), LraError>)
        requires
            self.wf(),
            old(vars).wf(),
        ensures
            final(vars).wf(),
            r is Ok || r == Err::<(), LraError>(LraError::Overflow),
            r is Ok ==> forall|v: usize|
                (#[trigger] coef(final(vars)@, v)).eqv(coef(old(vars)@, v).add(self.var_scaled(var, scale@, v))),
    {
        let ghost start = vars@;
        if var < self.num_vars_exec() && self.is_basic(var) {
            let brow = self.row(var).unwrap();
            let terms = brow.iter();
            proof {
                self.lemma_row_wf(var as int);
                brow.lemma_entries();
            }
            let mut j: usize = 0;
            proof {
                assert forall|x: usize|
                    #![trigger coef(vars@, x)]
                    (coef(vars@, x)).eqv(
                        coef(start, x).add(
                            if has_var(brow.seq().take(0), x) {
                                brow@[x]@.mul(scale@)
                            } else {
                                Ratio::zero()
                            },
                        ),
                    ) by {
                    assert(!has_var(brow.seq().take(0), x));
                    assert(coef(start, x).den > 0) by {
                        if start.contains_key(x) {
                            assert(start[x]@.fits());
                        }
                    }
                    lemma_add_zero_valued(coef(start, x), Ratio::zero());
                    lemma_eqv_sym(coef(start, x).add(Ratio::zero()), coef(start, x));
                }
            }
            while j < terms.len()
                invariant
                    self.wf(),
                    var < self.num_vars(),
                    self.basic(var as int),
                    *brow == self.row_of(var as int),
                    terms@ == brow.seq(),
                    sorted_vars(brow.seq()),
                    brow@ == coeff_map(brow.seq()),
                    vars.wf(),
                    j <= terms.len(),
                    forall|x: usize|
                        #![trigger coef(vars@, x)]
                        (coef(vars@, x)).eqv(
                            coef(start, x).add(
                                if has_var(brow.seq().take(j as int), x) {
                                    brow@[x]@.mul(scale@)
                                } else {
                                    Ratio::zero()
                                },
                            ),
                        ),
                decreases terms.len() - j,
            {
                let (v, cv) = terms[j];
                proof {
                    lemma_coeff_at(brow.seq(), j as int);
                }
                let delta = match cv.checked_mul(scale) {
                    Some(d) => d,
                    None => {
                        return Err(LraError::Overflow);
                    },
                };
                let ghost before = vars@;
                match vars.add_coeff(v, &delta) {
                    Ok(()) => {},
                    Err(_) => {
                        return Err(LraError::Overflow);
                    },
                }
                proof {
                    assert forall|x: usize|
                        #![trigger coef(vars@, x)]
                        (coef(vars@, x)).eqv(
                            coef(start, x).add(
                                if has_var(brow.seq().take(j + 1), x) {
                                    brow@[x]@.mul(scale@)
                                } else {
                                    Ratio::zero()
                                },
                            ),
                        ) by {
                        lemma_has_var_take(brow.seq(), j as int, x);
                        assert(coef(start, x).den > 0) by {
                            if start.contains_key(x) {
                                assert(start[x]@.fits());
                            }
                        }
                        if x == v {
                            assert(!has_var(brow.seq().take(j as int), x)) by {
                                if has_var(brow.seq().take(j as int), x) {
                                    let k = choose|k: int|
                                        0 <= k < brow.seq().take(j as int).len() && brow.seq().take(j as int)[k].0 == x;
                                    assert(brow.seq()[k].0 < brow.seq()[j as int].0);
                                }
                            }
                            let m = cv@.mul(scale@);
                            assert(delta@.fits() && cv@.fits() && scale@.fits());
                            lemma_ops_wf(cv@, scale@);
                            lemma_add_zero_valued(coef(start, x), Ratio::zero());
                            lemma_ops_wf(coef(start, x), Ratio::zero());
                            lemma_eqv_trans(coef(before, x), coef(start, x).add(Ratio::zero()), coef(start, x));
                            if delta@.num == 0 {
                                assert(m.num == 0) by (nonlinear_arith)
                                    requires
                                        delta@.num * m.den == m.num * delta@.den,
                                        delta@.num == 0,
                                        delta@.den > 0,
                                ;
                                lemma_add_zero_valued(coef(start, x), m);
                                lemma_eqv_sym(coef(start, x).add(m), coef(start, x));
                                lemma_eqv_trans(coef(before, x), coef(start, x), coef(start, x).add(m));
                            } else if before.contains_key(x) {
                                assert(before[x]@.fits());
                                lemma_add_eqv(before[x]@, coef(start, x), delta@, m);
                                lemma_ops_wf(before[x]@, delta@);
                                lemma_eqv_trans(vars@[x]@, before[x]@.add(delta@), coef(start, x).add(m));
                            } else {
                                lemma_eqv_sym(Ratio::zero(), coef(start, x));
                                lemma_add_eqv(Ratio::zero(), coef(start, x), delta@, m);
                                lemma_add_zero_valued(delta@, Ratio::zero());
                                lemma_eqv_sym(Ratio::zero().add(delta@), delta@);
                                lemma_ops_wf(Ratio::zero(), delta@);
                                lemma_eqv_trans(delta@, Ratio::zero().add(delta@), coef(start, x).add(m));
                            }
                        } else {
                            assert(coef(vars@, x) == coef(before, x));
                        }
                    }
                }
                j += 1;
            }
            proof {
                assert(brow.seq().take(terms.len() as int) =~= brow.seq());
                assert forall|x: usize| #[trigger] has_var(brow.seq(), x) <==> brow@.contains_key(x) by {
                }
            }
            Ok(())
        } else {
            let ghost before = vars@;
            match vars.add_coeff(var, scale) {
                Ok(()) => {},
                Err(_) => {
                    return Err(LraError::Overflow);
                },
            }
            proof {
                assert forall|x: usize|
                    (#[trigger] coef(vars@, x)).eqv(coef(start, x).add(self.var_scaled(var, scale@, x))) by {
                    assert(coef(start, x).den > 0) by {
                        if start.contains_key(x) {
                            assert(start[x]@.fits());
                        }
                    }
                    assert(scale@.fits());
                    if x == var {
                        if scale@.num == 0 {
                            lemma_add_zero_valued(coef(start, x), scale@);
                            lemma_eqv_sym(coef(start, x).add(scale@), coef(start, x));
                        } else if before.contains_key(x) {
                        } else {
                            lemma_add_zero_valued(scale@, Ratio::zero());
                            lemma_eqv_sym(Ratio::zero().add(scale@), scale@);
                        }
                    } else {
                        lemma_add_zero_valued(coef(start, x), Ratio::zero());
                        lemma_eqv_sym(coef(start, x).add(Ratio::zero()), coef(start, x));
                    }
                }
            }
            Ok(())
        }
    }
}

/// Every operand of a linear sum is linear.
pub proof fn lemma_linear_all_elem(ts: Seq<SArith>, i: int)
    requires
        linear_all(ts),
        0 <= i < ts.len(),
    ensures
        linear(ts[i]),
    decreases ts.len(),
{
    if i < ts.len() - 1 {
        assert(ts.drop_last()[i] == ts[i]);
        lemma_linear_all_elem(ts.drop_last(), i);
    }
}

/// Every prefix of a linear sum's operands is linear.
pub proof fn lemma_linear_all_take(ts: Seq<SArith>, i: int)
    requires
        linear_all(ts),
        0 <= i <= ts.len(),
    ensures
        linear_all(ts.take(i)),
    decreases ts.len(),
{
    if i == ts.len() {
        assert(ts.take(i) =~= ts);
    } else {
        assert(ts.drop_last().take(i) =~= ts.take(i));
        lemma_linear_all_take(ts.drop_last(), i);
    }
}

/// Replacing a summand by one of the same value keeps the sum's value.
proof fn lemma_compose(a_new: Ratio, a_old: Ratio, x: Ratio, y: Ratio)
    requires
        a_new.eqv(a_old.add(x)),
        x.eqv(y),
        a_old.wf(),
        x.wf(),
    ensures
        a_new.eqv(a_old.add(y)),
{
    lemma_eqv_refl(a_old);
    lemma_add_eqv(a_old, a_old, x, y);
    lemma_ops_wf(a_old, x);
    lemma_eqv_trans(a_new, a_old.add(x), a_old.add(y));
}

/// Adding a second summand after a first adds their sum.
proof fn lemma_chain(a2: Ratio, a1: Ratio, a0: Ratio, x: Ratio, y: Ratio)
    requires
        a2.eqv(a1.add(y)),
        a1.eqv(a0.add(x)),
        a1.wf(),
        a0.wf(),
        x.wf(),
        y.wf(),
    ensures
        a2.eqv(a0.add(x.add(y))),
{
    lemma_eqv_refl(y);
    lemma_add_eqv(a1, a0.add(x), y, y);
    lemma_ops_wf(a1, y);
    lemma_eqv_trans(a2, a1.add(y), a0.add(x).add(y));
    lemma_ratio_add_assoc(a0, x, y);
}

/// The coefficient of any variable in a row is well-formed.
proof fn lemma_coef_wf(m: Map<usize, Fraction>, v: usize)
    ensures
        coef(m, v).wf(),
{
    if m.contains_key(v) {
        assert(m[v]@.fits());
    }
}

/// An unchanged value is itself plus zero.
proof fn lemma_plus_zero(a: Ratio)
    requires
        a.wf(),
    ensures
        a.eqv(a.add(Ratio::zero())),
{
    lemma_add_zero_valued(a, Ratio::zero());
    lemma_eqv_sym(a.add(Ratio::zero()), a);
}

impl LraTheory {
    /// Adds `scale · expr` to the coefficients `vars` and the constant
    /// `const_term`, with basic variables replaced by their rows.
    fn accumulate_expr(
        &self,
        expr: &ArithExpr,
        scale: &Fraction,
        vars: &mut SparseRow,
        const_term: &mut Fraction,
    ) -> (r: Result<(), LraError>)
        requires
            self.wf(),
            old(vars).wf(),
            linear(expr@),
        ensures
            final(vars).wf(),
            r is Ok || r == Err::<(), LraError>(LraError::Overflow),
            r is Ok ==> forall|v: usize|
                (#[trigger] coef(final(vars)@, v)).eqv(coef(old(vars)@, v).add(self.scaled_coef(expr@, scale@, v))),
            r is Ok ==> final(const_term)@.eqv(old(const_term)@.add(self.scaled_const(expr@, scale@))),
        decreases expr,
    {
        let ghost v0 = vars@;
        let ghost c0 = const_term@;
        proof {
            assert(scale@.fits() && c0.fits());
        }
        match expr {
            ArithExpr::Const(c) => {
                let t = match c.checked_mul(scale) {
                    Some(t) => t,
                    None => {
                        return Err(LraError::Overflow);
                    },
                };
                let n = match const_term.checked_add(&t) {
                    Some(n) => n,
                    None => {
                        return Err(LraError::Overflow);
                    },
                };
                *const_term = n;
                proof {
                    assert(c@.fits() && t@.fits() && n@.fits());
                    lemma_ops_wf(c@, scale@);
                    lemma_compose(n@, c0, t@, c@.mul(scale@));
                    assert forall|v: usize| (#[trigger] coef(vars@, v)).eqv(coef(v0, v).add(self.scaled_coef(expr@, scale@, v))) by {
                        lemma_coef_wf(v0, v);
                        lemma_plus_zero(coef(v0, v));
                    }
                }
                Ok(())
            },
            ArithExpr::IntVar(x) => {
                match self.accumulate_var(x.0, scale, vars) {
                    Ok(()) => {},
                    Err(e) => {
                        return Err(e);
                    },
                }
                proof {
                    lemma_plus_zero(c0);
                }
                Ok(())
            },
            ArithExpr::RealVar(x) => {
                match self.accumulate_var(x.0, scale, vars) {
                    Ok(()) => {},
                    Err(e) => {
                        return Err(e);
                    },
                }
                proof {
                    lemma_plus_zero(c0);
                }
                Ok(())
            },
            ArithExpr::Add(terms) => {
                let ghost ts = ariths_model(terms@);
                proof {
                    lemma_ariths_model(terms@);
                    assert(ts.take(0) =~= Seq::<SArith>::empty());
                    assert forall|v: usize| (#[trigger] coef(vars@, v)).eqv(coef(v0, v).add(self.scaled_coef_all(ts.take(0), scale@, v))) by {
                        lemma_coef_wf(v0, v);
                        lemma_plus_zero(coef(v0, v));
                    }
                    lemma_plus_zero(c0);
                }
                let mut i: usize = 0;
                while i < terms.len()
                    invariant
                        self.wf(),
                        *expr is Add,
                        expr->Add_0 == *terms,
                        ts == ariths_model(terms@),
                        ts.len() == terms.len(),
                        forall|k: int| 0 <= k < terms.len() ==> #[trigger] ts[k] == terms@[k]@,
                        linear_all(ts),
                        expr@ == SArith::Add(ts),
                        scale@.wf(),
                        vars.wf(),
                        i <= terms.len(),
                        forall|v: usize|
                            (#[trigger] coef(vars@, v)).eqv(coef(v0, v).add(self.scaled_coef_all(ts.take(i as int), scale@, v))),
                        const_term@.eqv(c0.add(self.scaled_const_all(ts.take(i as int), scale@))),
                        c0.wf(),
                    decreases terms.len() - i,
                {
                    proof {
                        vstd::std_specs::vec::axiom_vec_index_decreases(*terms, i as int);
                        lemma_linear_all_elem(ts, i as int);
                        lemma_linear_all_take(ts, i as int);
                    }
                    let ghost va = vars@;
                    let ghost ca = const_term@;
                    match self.accumulate_expr(&terms[i], scale, vars, const_term) {
                        Ok(()) => {},
                        Err(e) => {
                            return Err(e);
                        },
                    }
                    proof {
                        let t1 = ts.take(i + 1);
                        assert(t1.drop_last() =~= ts.take(i as int));
                        assert(t1.last() == ts[i as int]);
                        self.lemma_scaled_congr_all(ts.take(i as int), scale@, scale@, 0);
                        self.lemma_scaled_congr(ts[i as int], scale@, scale@, 0);
                        assert forall|v: usize|
                            (#[trigger] coef(vars@, v)).eqv(coef(v0, v).add(self.scaled_coef_all(t1, scale@, v))) by {
                            self.lemma_scaled_congr_all(ts.take(i as int), scale@, scale@, v);
                            self.lemma_scaled_congr(ts[i as int], scale@, scale@, v);
                            lemma_coef_wf(v0, v);
                            lemma_coef_wf(va, v);
                            lemma_chain(
                                coef(vars@, v),
                                coef(va, v),
                                coef(v0, v),
                                self.scaled_coef_all(ts.take(i as int), scale@, v),
                                self.scaled_coef(ts[i as int], scale@, v),
                            );
                        }
                        assert(ca.fits());
                        lemma_chain(
                            const_term@,
                            ca,
                            c0,
                            self.scaled_const_all(ts.take(i as int), scale@),
                            self.scaled_const(ts[i as int], scale@),
                        );
                    }
                    i += 1;
                }
                proof {
                    assert(ts.take(terms.len() as int) =~= ts);
                }
                Ok(())
            },
            ArithExpr::Mul(terms) => {
                let ghost ts = ariths_model(terms@);
                proof {
                    lemma_ariths_model(terms@);
                }
                if terms.len() != 2 {
                    proof {
                        assert(false);
                    }
                    return Err(LraError::Overflow);
                }
                proof {
                    vstd::std_specs::vec::axiom_vec_index_decreases(*terms, 0);
                    vstd::std_specs::vec::axiom_vec_index_decreases(*terms, 1);
                    assert(ts[0] == terms@[0]@);
                    assert(ts[1] == terms@[1]@);
                }
                let (c, sub) = match (&terms[0], &terms[1]) {
                    (ArithExpr::Const(c), sub) => (c, sub),
                    (sub, ArithExpr::Const(c)) => (c, sub),
                    _ => {
                        proof {
                            assert(false);
                        }
                        return Err(LraError::Overflow);
                    },
                };
                let ns = match c.checked_mul(scale) {
                    Some(ns) => ns,
                    None => {
                        return Err(LraError::Overflow);
                    },
                };
                proof {
                    assert(linear(sub@));
                    assert(forall|v: usize| self.scaled_coef(expr@, scale@, v) == self.scaled_coef(sub@, c@.mul(scale@), v));
                    assert(self.scaled_const(expr@, scale@) == self.scaled_const(sub@, c@.mul(scale@)));
                }
                match self.accumulate_expr(sub, &ns, vars, const_term) {
                    Ok(()) => {},
                    Err(e) => {
                        return Err(e);
                    },
                }
                proof {
                    assert(c@.fits() && ns@.fits());
                    lemma_ops_wf(c@, scale@);
                    assert forall|v: usize|
                        (#[trigger] coef(vars@, v)).eqv(coef(v0, v).add(self.scaled_coef(expr@, scale@, v))) by {
                        self.lemma_scaled_congr(sub@, ns@, c@.mul(scale@), v);
                        lemma_coef_wf(v0, v);
                        lemma_compose(coef(vars@, v), coef(v0, v), self.scaled_coef(sub@, ns@, v), self.scaled_coef(sub@, c@.mul(scale@), v));
                    }
                    self.lemma_scaled_congr(sub@, ns@, c@.mul(scale@), 0);
                    lemma_compose(const_term@, c0, self.scaled_const(sub@, ns@), self.scaled_const(sub@, c@.mul(scale@)));
                }
                Ok(())
            },
            ArithExpr::Div(n, d) => {
                proof {
                    assert(expr@ == SArith::Div(Box::new((**n)@), Box::new((**d)@)));
                }
                let c = match &**d {
                    ArithExpr::Const(c) => {
                        proof {
                            assert((**d)@ == SArith::Const(*c));
                        }
                        c
                    },
                    _ => {
                        proof {
                            assert(false);
                        }
                        return Err(LraError::Overflow);
                    },
                };
                let ns = match scale.checked_div(c) {
                    Some(ns) => ns,
                    None => {
                        return Err(LraError::Overflow);
                    },
                };
                match self.accumulate_expr(n, &ns, vars, const_term) {
                    Ok(()) => {},
                    Err(e) => {
                        return Err(e);
                    },
                }
                proof {
                    assert(c@.fits() && ns@.fits());
                    lemma_ops_wf(scale@, c@);
                    assert forall|v: usize|
                        (#[trigger] coef(vars@, v)).eqv(coef(v0, v).add(self.scaled_coef(expr@, scale@, v))) by {
                        self.lemma_scaled_congr(n@, ns@, scale@.div(c@), v);
                        lemma_coef_wf(v0, v);
                        lemma_compose(coef(vars@, v), coef(v0, v), self.scaled_coef(n@, ns@, v), self.scaled_coef(n@, scale@.div(c@), v));
                    }
                    self.lemma_scaled_congr(n@, ns@, scale@.div(c@), 0);
                    lemma_compose(const_term@, c0, self.scaled_const(n@, ns@), self.scaled_const(n@, scale@.div(c@)));
                }
                Ok(())
            },
            ArithExpr::Neg(x) => {
                let ns = scale.neg();
                match self.accumulate_expr(x, &ns, vars, const_term) {
                    Ok(()) => {},
                    Err(e) => {
                        return Err(e);
                    },
                }
                Ok(())
            },
        }
    }

    /// The linear form of `e1 - e2`: its non-zero coefficients, with basic
    /// variables replaced by their rows, and its constant.
    pub fn diff(&self, e1: &ArithExpr, e2: &ArithExpr) -> (r: Result<(SparseRow, Fraction), LraError>)
        requires
            self.wf(),
            linear(e1@),
            linear(e2@),
        ensures
            r is Ok || r == Err::<(SparseRow, Fraction), LraError>(LraError::Overflow),
            r matches Ok((row, c)) ==> {
                &&& row.wf()
                &&& forall|v: usize|
                    (#[trigger] coef(row@, v)).eqv(
                        self.scaled_coef(e1@, Ratio::of_int(1), v).add(self.scaled_coef(e2@, Ratio::of_int(-1), v)),
                    )
                &&& forall|v: usize| #[trigger] row@.contains_key(v) ==> row@[v]@.num != 0
                &&& c@.eqv(self.scaled_const(e1@, Ratio::of_int(1)).add(self.scaled_const(e2@, Ratio::of_int(-1))))
            },
    {
        let mut vars = SparseRow::new();
        let mut const_term = Fraction::zero();
        let pos = Fraction::from_int(1);
        let neg = Fraction::from_int(-1);
        match self.accumulate_expr(e1, &pos, &mut vars, &mut const_term) {
            Ok(()) => {},
            Err(e) => {
                return Err(e);
            },
        }
        let ghost v1 = vars@;
        let ghost k1 = const_term@;
        match self.accumulate_expr(e2, &neg, &mut vars, &mut const_term) {
            Ok(()) => {},
            Err(e) => {
                return Err(e);
            },
        }
        let ghost v2 = vars@;
        vars.retain_nonzero();
        proof {
            let one = Ratio::of_int(1);
            let mone = Ratio::of_int(-1);
            assert forall|v: usize|
                (#[trigger] coef(vars@, v)).eqv(self.scaled_coef(e1@, one, v).add(self.scaled_coef(e2@, mone, v))) by {
                self.lemma_scaled_congr(e1@, one, one, v);
                self.lemma_scaled_congr(e2@, mone, mone, v);
                let a = self.scaled_coef(e1@, one, v);
                let b = self.scaled_coef(e2@, mone, v);
                assert(coef(Map::<usize, Fraction>::empty(), v) == Ratio::zero());
                lemma_add_zero_valued(a, Ratio::zero());
                lemma_eqv_trans(coef(v1, v), Ratio::zero().add(a), a);
                lemma_coef_wf(v1, v);
                lemma_compose(coef(v2, v), coef(v1, v), b, b);
                lemma_eqv_refl(b);
                lemma_add_eqv(coef(v1, v), a, b, b);
                lemma_ops_wf(coef(v1, v), b);
                lemma_eqv_trans(coef(v2, v), coef(v1, v).add(b), a.add(b));
                lemma_coef_wf(v2, v);
                if v2.contains_key(v) && v2[v]@.num == 0 {
                    assert(coef(vars@, v) == Ratio::zero());
                    assert(coef(v2, v).eqv(Ratio::zero()));
                    lemma_eqv_sym(coef(v2, v), Ratio::zero());
                    lemma_ops_wf(a, b);
                    lemma_eqv_trans(Ratio::zero(), coef(v2, v), a.add(b));
                }
            }
            self.lemma_scaled_congr(e1@, one, one, 0);
            self.lemma_scaled_congr(e2@, mone, mone, 0);
            let ka = self.scaled_const(e1@, one);
            let kb = self.scaled_const(e2@, mone);
            lemma_add_zero_valued(ka, Ratio::zero());
            lemma_eqv_trans(k1, Ratio::zero().add(ka), ka);
            assert(k1.fits());
            lemma_eqv_refl(kb);
            lemma_add_eqv(k1, ka, kb, kb);
            lemma_ops_wf(k1, kb);
            lemma_eqv_trans(const_term@, k1.add(kb), ka.add(kb));
        }
        Ok((vars, const_term))
    }
}

} // verus!
