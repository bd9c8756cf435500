//! Linear real arithmetic: a simplex tableau over bounded variables.
//!
//! Every variable has a current value and a lower and an upper bound, each
//! bound tagged with the literal that asserted it (`None` for a bound asserted
//! unconditionally). Some variables are basic: each basic variable owns a row,
//! a linear combination of non-basic variables. Values of non-basic variables
//! always lie within their bounds; basic variables may leave theirs until
//! [`LraTheory::check`] repairs the assignment by pivoting, or explains why it
//! cannot.
use crate::dot::{all_wf, dot, lemma_add_comm, lemma_add_zero_r, lemma_dot_add, lemma_dot_congr, lemma_dot_point, lemma_dot_scale, lemma_dot_unit, lemma_dot_wf, lemma_dot_zero, lemma_mul_comm, lemma_mul_eqv, lemma_zero_valued};
use crate::fraction::{lemma_add_eqv, lemma_eqv_refl, lemma_eqv_sym, lemma_eqv_trans, lemma_ops_wf, Fraction, Ratio};
use crate::lit::{sort_dedup, Lit};
use crate::rational::{lemma_inf_rational_wf, lemma_iratio_trichotomy, ExtRatio, IRatio, InfRational, Rational};
use crate::sparse_row::{coeff_map, has_var, lemma_coeff_at, lemma_coeff_push, merged_entry, sorted_vars, SparseRow};
use vstd::prelude::*;

verus! {

broadcast use lemma_inf_rational_wf, crate::fraction::lemma_fraction_fits;

/// A bound together with the literal that asserted it.
pub type Bound = (Option<Lit>, InfRational);

/// Why an operation of the theory did not succeed.
#[derive(Debug, PartialEq, Eq)]
pub enum LraError {
    /// The asserted bounds are inconsistent; the clause lists the negations of
    /// the literals of the bounds involved.
    Conflict(Vec<Lit>),
    /// A value needed by the operation cannot be held in 64-bit fractions.
    Overflow,
    /// The iteration limit was reached before a definite answer.
    Unresolved,
}

/// A change to a bound, recorded so that it can be undone.
pub enum BoundUpdate {
    LowerBound { lit: Option<Lit>, var: usize, val: InfRational },
    UpperBound { lit: Option<Lit>, var: usize, val: InfRational },
}

impl BoundUpdate {
    pub open spec fn var(self) -> usize {
        match self {
            BoundUpdate::LowerBound { var, .. } => var,
            BoundUpdate::UpperBound { var, .. } => var,
        }
    }

    pub open spec fn value(self) -> IRatio {
        match self {
            BoundUpdate::LowerBound { val, .. } => val@,
            BoundUpdate::UpperBound { val, .. } => val@,
        }
    }

    pub open spec fn lower(self) -> bool {
        self is LowerBound
    }
}

/// The bounds `(lower, upper)` obtained by undoing `trail`, last entry first.
pub open spec fn undo_bounds(lbs: Seq<Bound>, ubs: Seq<Bound>, trail: Seq<BoundUpdate>) -> (Seq<Bound>, Seq<Bound>)
    decreases trail.len(),
{
    if trail.len() == 0 {
        (lbs, ubs)
    } else {
        match trail.last() {
            BoundUpdate::LowerBound { lit, var, val } => undo_bounds(lbs.update(var as int, (lit, val)), ubs, trail.drop_last()),
            BoundUpdate::UpperBound { lit, var, val } => undo_bounds(lbs, ubs.update(var as int, (lit, val)), trail.drop_last()),
        }
    }
}

/// Undoing `s1 + s2` undoes `s2`, then `s1`.
proof fn lemma_undo_concat(lbs: Seq<Bound>, ubs: Seq<Bound>, s1: Seq<BoundUpdate>, s2: Seq<BoundUpdate>)
    ensures
        undo_bounds(lbs, ubs, s1 + s2) == ({
            let (l, u) = undo_bounds(lbs, ubs, s2);
            undo_bounds(l, u, s1)
        }),
    decreases s2.len(),
{
    if s2.len() == 0 {
        assert(s1 + s2 =~= s1);
    } else {
        assert((s1 + s2).last() == s2.last());
        assert((s1 + s2).drop_last() =~= s1 + s2.drop_last());
        match s2.last() {
            BoundUpdate::LowerBound { lit, var, val } => {
                lemma_undo_concat(lbs.update(var as int, (lit, val)), ubs, s1, s2.drop_last());
            },
            BoundUpdate::UpperBound { lit, var, val } => {
                lemma_undo_concat(lbs, ubs.update(var as int, (lit, val)), s1, s2.drop_last());
            },
        }
    }
}

/// Undoing entries about existing variables keeps a bound appended at the end.
proof fn lemma_undo_push(lbs: Seq<Bound>, ubs: Seq<Bound>, trail: Seq<BoundUpdate>, x: Bound, y: Bound)
    requires
        lbs.len() == ubs.len(),
        forall|k: int| 0 <= k < trail.len() ==> (#[trigger] trail[k]).var() < lbs.len(),
    ensures
        undo_bounds(lbs.push(x), ubs.push(y), trail) == ({
            let (l, u) = undo_bounds(lbs, ubs, trail);
            (l.push(x), u.push(y))
        }),
        undo_bounds(lbs, ubs, trail).0.len() == lbs.len(),
        undo_bounds(lbs, ubs, trail).1.len() == ubs.len(),
    decreases trail.len(),
{
    if trail.len() > 0 {
        let d = trail.drop_last();
        assert forall|k: int| 0 <= k < d.len() implies (#[trigger] d[k]).var() < lbs.len() by {
            assert(d[k] == trail[k]);
        }
        assert(trail.last() == trail[trail.len() - 1]);
        match trail.last() {
            BoundUpdate::LowerBound { lit, var, val } => {
                assert(lbs.push(x).update(var as int, (lit, val)) =~= lbs.update(var as int, (lit, val)).push(x));
                lemma_undo_push(lbs.update(var as int, (lit, val)), ubs, d, x, y);
            },
            BoundUpdate::UpperBound { lit, var, val } => {
                assert(ubs.push(y).update(var as int, (lit, val)) =~= ubs.update(var as int, (lit, val)).push(y));
                lemma_undo_push(lbs, ubs.update(var as int, (lit, val)), d, x, y);
            },
        }
    }
}

/// The finite part of a value (zero for an infinity).
pub open spec fn fin_part(x: IRatio) -> Ratio {
    match x.real {
        ExtRatio::Fin(r) => r,
        _ => Ratio::zero(),
    }
}

/// The finite parts of `vals`, by index.
pub open spec fn real_parts(vals: Seq<InfRational>) -> spec_fn(int) -> Ratio {
    |v: int| fin_part(vals[v]@)
}

/// The infinitesimal parts of `vals`, by index.
pub open spec fn eps_parts(vals: Seq<InfRational>) -> spec_fn(int) -> Ratio {
    |v: int| vals[v]@.eps
}

/// The coefficients of `m`, by index.
pub open spec fn coefs(m: Map<usize, Fraction>) -> spec_fn(int) -> Ratio {
    |v: int| coef(m, v as usize)
}

proof fn lemma_parts_wf(vals: Seq<InfRational>, m: Map<usize, Fraction>, k: int)
    ensures
        all_wf(real_parts(vals), k),
        all_wf(eps_parts(vals), k),
        all_wf(coefs(m), k),
{
    assert forall|v: int| 0 <= v < k implies (#[trigger] real_parts(vals)(v)).wf() by {
        assert(vals[v]@.wf());
    }
    assert forall|v: int| 0 <= v < k implies (#[trigger] eps_parts(vals)(v)).wf() by {
        assert(vals[v]@.wf());
    }
    assert forall|v: int| 0 <= v < k implies (#[trigger] coefs(m)(v)).wf() by {
        if m.contains_key(v as usize) {
            assert(m[v as usize]@.fits());
        }
    }
}

/// One component of a basic variable after a non-basic variable moved from
/// `a_old` to `a_new` (of the value of `target`): when the row sum moved by
/// the coefficient `c` times the change and the basic variable by the same
/// amount, it still has the value of its row.
proof fn lemma_row_component(dot1: Ratio, dot2: Ratio, c: Ratio, a_old: Ratio, a_new: Ratio, target: Ratio, b_old: Ratio, b_new: Ratio)
    requires
        dot1.wf(),
        dot2.wf(),
        c.wf(),
        a_old.wf(),
        a_new.wf(),
        target.wf(),
        b_old.wf(),
        b_new.wf(),
        b_old.eqv(dot1),
        dot2.eqv(dot1.add(c.mul(a_new.sub(a_old)))),
        a_new.eqv(target),
        b_new.eqv(b_old.add(target.sub(a_old).mul(c))),
    ensures
        b_new.eqv(dot2),
{
    lemma_eqv_refl(a_old.neg());
    lemma_add_eqv(a_new, target, a_old.neg(), a_old.neg());
    lemma_eqv_refl(c);
    lemma_mul_eqv(c, c, a_new.sub(a_old), target.sub(a_old));
    lemma_mul_comm(c, target.sub(a_old));
    lemma_add_eqv(dot1, b_old, c.mul(a_new.sub(a_old)), target.sub(a_old).mul(c));
    lemma_eqv_sym(dot1, b_old);
    lemma_ops_wf(target, a_old);
    lemma_ops_wf(a_new, a_old);
    lemma_ops_wf(c, a_new.sub(a_old));
    lemma_ops_wf(dot1, c.mul(a_new.sub(a_old)));
    lemma_ops_wf(target.sub(a_old), c);
    lemma_ops_wf(b_old, target.sub(a_old).mul(c));
    lemma_eqv_trans(dot2, dot1.add(c.mul(a_new.sub(a_old))), b_old.add(target.sub(a_old).mul(c)));
    lemma_eqv_sym(b_new, b_old.add(target.sub(a_old).mul(c)));
    lemma_eqv_trans(dot2, b_old.add(target.sub(a_old).mul(c)), b_new);
    lemma_eqv_sym(dot2, b_new);
}

/// One part of a basic variable after the variable `var` moved to `t`: when
/// the basic variable moved by its coefficient `g(var)` times the change and
/// only variables outside its row moved otherwise, it still has the value of
/// its row.
proof fn lemma_part_moved(
    g: spec_fn(int) -> Ratio,
    f1: spec_fn(int) -> Ratio,
    f2: spec_fn(int) -> Ratio,
    var: int,
    n: int,
    b_old: Ratio,
    b_new: Ratio,
    t: Ratio,
)
    requires
        all_wf(g, n),
        all_wf(f1, n),
        all_wf(f2, n),
        0 <= var < n,
        forall|v: int| 0 <= v < n && v != var ==> (#[trigger] g(v)).num == 0 || f1(v) == f2(v),
        b_old.wf(),
        b_new.wf(),
        t.wf(),
        b_old.eqv(dot(g, f1, n)),
        f2(var).eqv(t),
        b_new.eqv(b_old.add(t.sub(f1(var)).mul(g(var)))),
    ensures
        b_new.eqv(dot(g, f2, n)),
{
    lemma_dot_point(g, f1, f2, var, n);
    lemma_dot_wf(g, f1, n);
    lemma_dot_wf(g, f2, n);
    assert(g(var).wf() && f1(var).wf() && f2(var).wf());
    lemma_row_component(dot(g, f1, n), dot(g, f2, n), g(var), f1(var), f2(var), t, b_old, b_new);
}

/// `x·(1/-c) + ((1/c)·x + 1·y)` has the value of `y`.
proof fn lemma_pivot_cancel(x: Ratio, y: Ratio, c: Ratio)
    requires
        x.wf(),
        y.wf(),
        c.wf(),
        c.num != 0,
    ensures
        x.mul(Ratio::of_int(1).div(c.neg())).add(Ratio::of_int(1).div(c).mul(x).add(Ratio::of_int(1).mul(y))).eqv(y),
{
    let one = Ratio::of_int(1);
    let m = one.div(c.neg());
    let w = one.div(c);
    assert(m.num == -w.num && m.den == w.den);
    lemma_ops_wf(one, c);
    lemma_ops_wf(one, c.neg());
    let p = x.mul(m);
    let q = w.mul(x);
    let r = one.mul(y);
    assert(r == y);
    lemma_ops_wf(x, m);
    lemma_ops_wf(w, x);
    crate::rational::lemma_ratio_add_assoc(p, q, r);
    assert(p.add(q).num == 0) by (nonlinear_arith)
        requires
            p.num == x.num * m.num,
            p.den == x.den * m.den,
            q.num == w.num * x.num,
            q.den == w.den * x.den,
            m.num == -w.num,
            m.den == w.den,
            p.add(q).num == p.num * q.den + q.num * p.den,
    ;
    lemma_ops_wf(p, q);
    lemma_add_zero_r(r, p.add(q));
}

/// The sum of the row of the entering variable after a pivot: given the row
/// `gl` of the leaving variable `l` (whose sum is the value of `l`) and the
/// new row `ge` solved for the entering `e`, the new sum is the value of `e`.
proof fn lemma_entering_sum(gl: spec_fn(int) -> Ratio, ge: spec_fn(int) -> Ratio, f: spec_fn(int) -> Ratio, e: int, l: int, n: int)
    requires
        all_wf(gl, n),
        all_wf(ge, n),
        all_wf(f, n),
        0 <= e < n,
        0 <= l < n,
        e != l,
        gl(e).num != 0,
        gl(l).num == 0,
        ge(l).eqv(Ratio::of_int(1).div(gl(e))),
        ge(e).num == 0,
        forall|v: int| 0 <= v < n && v != e && v != l ==> (#[trigger] ge(v)).eqv(gl(v).mul(Ratio::of_int(1).div(gl(e).neg()))),
        dot(gl, f, n).eqv(f(l)),
    ensures
        dot(ge, f, n).eqv(f(e)),
{
    let one = Ratio::of_int(1);
    let c = gl(e);
    assert(c.wf());
    let m = one.div(c.neg());
    let w = one.div(c);
    lemma_ops_wf(one, c);
    lemma_ops_wf(one, c.neg());
    let h1 = |v: int| gl(v).mul(m);
    let ul = |v: int| if v == l { w } else { Ratio::zero() };
    let ue = |v: int| if v == e { one } else { Ratio::zero() };
    let u = |v: int| ul(v).add(ue(v));
    let big = |v: int| h1(v).add(u(v));
    assert forall|v: int| 0 <= v < n implies (#[trigger] h1(v)).wf() by {
        assert(gl(v).wf());
        lemma_ops_wf(gl(v), m);
    }
    assert forall|v: int| 0 <= v < n implies (#[trigger] ul(v)).wf() by {}
    assert forall|v: int| 0 <= v < n implies (#[trigger] ue(v)).wf() by {}
    assert forall|v: int| 0 <= v < n implies (#[trigger] u(v)).wf() by {
        lemma_ops_wf(ul(v), ue(v));
    }
    assert forall|v: int| 0 <= v < n implies (#[trigger] big(v)).wf() by {
        assert(h1(v).wf() && u(v).wf());
        lemma_ops_wf(h1(v), u(v));
    }
    // pointwise, the new row is gl·m + (1/c at l) + (1 at e)
    assert forall|v: int| 0 <= v < n implies (#[trigger] ge(v)).eqv(big(v)) by {
        assert(ge(v).wf() && gl(v).wf());
        lemma_ops_wf(gl(v), m);
        if v == l {
            lemma_zero_valued(m, gl(l));
            lemma_add_zero_r(w, Ratio::zero());
            lemma_add_zero_r(w, h1(l));
            assert(u(l) == w.add(Ratio::zero()));
            lemma_ops_wf(w, Ratio::zero());
            lemma_add_comm(h1(l), u(l));
            lemma_add_zero_r(u(l), h1(l));
            lemma_eqv_trans(big(v), w.add(Ratio::zero()), w);
            lemma_eqv_sym(big(v), w);
            lemma_eqv_trans(ge(v), w, big(v));
        } else if v == e {
            // c·m + (0 + 1) ~ 0
            assert(u(e) == Ratio::zero().add(one));
            let cm = c.mul(m);
            assert(Ratio::zero().add(one) == Ratio::of_int(1));
            assert(big(e).num == cm.num + cm.den);
            if c.num > 0 {
                assert(cm.num + cm.den == 0) by (nonlinear_arith)
                    requires
                        cm.num == c.num * m.num,
                        cm.den == c.den * m.den,
                        m.num == -c.den,
                        m.den == c.num,
                ;
            } else {
                assert(cm.num + cm.den == 0) by (nonlinear_arith)
                    requires
                        cm.num == c.num * m.num,
                        cm.den == c.den * m.den,
                        m.num == c.den,
                        m.den == -c.num,
                ;
            }
            assert(ge(e).eqv(big(e))) by (nonlinear_arith)
                requires
                    ge(e).num == 0,
                    big(e).num == 0,
            ;
        } else {
            assert(u(v) == Ratio::zero().add(Ratio::zero()));
            lemma_add_zero_r(h1(v), u(v));
            lemma_eqv_sym(big(v), h1(v));
            lemma_eqv_trans(ge(v), h1(v), big(v));
        }
    }
    // sums
    assert forall|v: int| 0 <= v < n implies (#[trigger] big(v)).eqv(h1(v).add(u(v))) by {
        lemma_eqv_refl(big(v));
    }
    lemma_dot_add(h1, u, big, f, n);
    assert forall|v: int| 0 <= v < n implies (#[trigger] u(v)).eqv(ul(v).add(ue(v))) by {
        lemma_eqv_refl(u(v));
    }
    lemma_dot_add(ul, ue, u, f, n);
    assert forall|v: int| 0 <= v < n implies (#[trigger] h1(v)).eqv(gl(v).mul(m)) by {
        lemma_eqv_refl(h1(v));
    }
    lemma_dot_scale(gl, h1, m, f, n);
    lemma_dot_unit(ul, f, l, n);
    lemma_dot_unit(ue, f, e, n);
    assert forall|v: int| 0 <= v < n implies (#[trigger] ge(v)).num == 0 || f(v) == f(v) by {}
    lemma_dot_congr(ge, big, f, f, n);
    // dot(ge) ~ dot(gl)·m + (w·f(l) + 1·f(e)) ~ f(l)·m + (w·f(l) + 1·f(e)) ~ f(e)
    lemma_dot_wf(gl, f, n);
    lemma_dot_wf(h1, f, n);
    lemma_dot_wf(u, f, n);
    lemma_dot_wf(ul, f, n);
    lemma_dot_wf(ue, f, n);
    lemma_dot_wf(big, f, n);
    lemma_dot_wf(ge, f, n);
    let (dl, dh, du, dul, due, db, dg) = (dot(gl, f, n), dot(h1, f, n), dot(u, f, n), dot(ul, f, n), dot(ue, f, n), dot(big, f, n), dot(ge, f, n));
    assert(f(l).wf() && f(e).wf());
    lemma_ops_wf(w, f(l));
    lemma_ops_wf(one, f(e));
    lemma_ops_wf(dl, m);
    lemma_ops_wf(f(l), m);
    lemma_ops_wf(dul, due);
    lemma_ops_wf(w.mul(f(l)), one.mul(f(e)));
    lemma_add_eqv(dul, w.mul(f(l)), due, one.mul(f(e)));
    lemma_eqv_trans(du, dul.add(due), w.mul(f(l)).add(one.mul(f(e))));
    lemma_eqv_refl(m);
    lemma_mul_eqv(dl, f(l), m, m);
    lemma_eqv_trans(dh, dl.mul(m), f(l).mul(m));
    lemma_add_eqv(dh, f(l).mul(m), du, w.mul(f(l)).add(one.mul(f(e))));
    lemma_ops_wf(dh, du);
    lemma_eqv_trans(db, dh.add(du), f(l).mul(m).add(w.mul(f(l)).add(one.mul(f(e)))));
    lemma_pivot_cancel(f(l), f(e), c);
    lemma_ops_wf(f(l).mul(m), w.mul(f(l)).add(one.mul(f(e))));
    lemma_eqv_trans(db, f(l).mul(m).add(w.mul(f(l)).add(one.mul(f(e)))), f(e));
    lemma_eqv_trans(dg, db, f(e));
}

/// The sum of another row after a pivot: the row `gn` is the old row `gb`
/// without the entering `e`, plus the entering row `ge` times the old
/// coefficient of `e`; when `ge` sums to the value of `e`, `gn` sums to what
/// `gb` summed to.
proof fn lemma_other_row_sum(gb: spec_fn(int) -> Ratio, ge: spec_fn(int) -> Ratio, gn: spec_fn(int) -> Ratio, f: spec_fn(int) -> Ratio, e: int, n: int)
    requires
        all_wf(gb, n),
        all_wf(ge, n),
        all_wf(gn, n),
        all_wf(f, n),
        0 <= e < n,
        forall|v: int|
            0 <= v < n ==> (#[trigger] gn(v)).eqv(
                (if v == e {
                    Ratio::zero()
                } else {
                    gb(v)
                }).add(ge(v).mul(gb(e))),
            ),
        dot(ge, f, n).eqv(f(e)),
    ensures
        dot(gb, f, n).eqv(dot(gn, f, n)),
{
    let a = gb(e);
    assert(a.wf());
    let ga = |v: int| if v == e { Ratio::zero() } else { gb(v) };
    let gs = |v: int| ge(v).mul(a);
    let ua = |v: int| if v == e { a } else { Ratio::zero() };
    let sum = |v: int| ga(v).add(gs(v));
    let back = |v: int| ga(v).add(ua(v));
    assert forall|v: int| 0 <= v < n implies (#[trigger] ga(v)).wf() by {}
    assert forall|v: int| 0 <= v < n implies (#[trigger] ua(v)).wf() by {}
    assert forall|v: int| 0 <= v < n implies (#[trigger] gs(v)).wf() by {
        assert(ge(v).wf());
        lemma_ops_wf(ge(v), a);
    }
    assert forall|v: int| 0 <= v < n implies (#[trigger] sum(v)).wf() by {
        assert(ga(v).wf() && gs(v).wf());
        lemma_ops_wf(ga(v), gs(v));
    }
    assert forall|v: int| 0 <= v < n implies (#[trigger] back(v)).wf() by {
        lemma_ops_wf(ga(v), ua(v));
    }
    // gn ~ ga + ge·a, and gb ~ ga + (a at e)
    assert forall|v: int| 0 <= v < n implies (#[trigger] gn(v)).eqv(sum(v)) by {}
    assert forall|v: int| 0 <= v < n implies (#[trigger] gn(v)).num == 0 || f(v) == f(v) by {}
    lemma_dot_congr(gn, sum, f, f, n);
    assert forall|v: int| 0 <= v < n implies (#[trigger] sum(v)).eqv(ga(v).add(gs(v))) by {
        lemma_eqv_refl(sum(v));
    }
    lemma_dot_add(ga, gs, sum, f, n);
    assert forall|v: int| 0 <= v < n implies (#[trigger] gs(v)).eqv(ge(v).mul(a)) by {
        lemma_eqv_refl(gs(v));
    }
    lemma_dot_scale(ge, gs, a, f, n);
    assert forall|v: int| 0 <= v < n implies (#[trigger] gb(v)).eqv(back(v)) by {
        if v == e {
            lemma_add_zero_r(a, Ratio::zero());
            lemma_add_comm(Ratio::zero(), a);
            lemma_eqv_sym(back(v), a);
        } else {
            lemma_add_zero_r(gb(v), Ratio::zero());
            lemma_eqv_sym(back(v), gb(v));
        }
    }
    assert forall|v: int| 0 <= v < n implies (#[trigger] gb(v)).num == 0 || f(v) == f(v) by {}
    lemma_dot_congr(gb, back, f, f, n);
    assert forall|v: int| 0 <= v < n implies (#[trigger] back(v)).eqv(ga(v).add(ua(v))) by {
        lemma_eqv_refl(back(v));
    }
    lemma_dot_add(ga, ua, back, f, n);
    lemma_dot_unit(ua, f, e, n);
    lemma_dot_wf(ga, f, n);
    lemma_dot_wf(gs, f, n);
    lemma_dot_wf(ge, f, n);
    lemma_dot_wf(ua, f, n);
    lemma_dot_wf(sum, f, n);
    lemma_dot_wf(back, f, n);
    lemma_dot_wf(gb, f, n);
    lemma_dot_wf(gn, f, n);
    let (da, ds, de, du) = (dot(ga, f, n), dot(gs, f, n), dot(ge, f, n), dot(ua, f, n));
    assert(f(e).wf());
    // ds ~ de·a ~ f(e)·a == a·f(e) ~ du
    lemma_eqv_refl(a);
    lemma_mul_eqv(de, f(e), a, a);
    lemma_ops_wf(de, a);
    lemma_eqv_trans(ds, de.mul(a), f(e).mul(a));
    lemma_mul_comm(f(e), a);
    lemma_eqv_sym(du, a.mul(f(e)));
    lemma_ops_wf(a, f(e));
    lemma_eqv_trans(ds, a.mul(f(e)), du);
    // dot(gn) ~ da + ds ~ da + du ~ dot(gb)
    lemma_eqv_refl(da);
    lemma_add_eqv(da, da, ds, du);
    lemma_ops_wf(da, ds);
    lemma_ops_wf(da, du);
    lemma_eqv_trans(dot(gn, f, n), dot(sum, f, n), da.add(ds));
    lemma_eqv_trans(dot(gn, f, n), da.add(ds), da.add(du));
    lemma_eqv_trans(dot(gb, f, n), dot(back, f, n), da.add(du));
    lemma_eqv_sym(dot(gn, f, n), da.add(du));
    lemma_eqv_trans(dot(gb, f, n), da.add(du), dot(gn, f, n));
}

/// The coefficient that `merged_entry` describes is that of `a + b·s`.
proof fn lemma_merged_coef(a: Map<usize, Fraction>, b: Map<usize, Fraction>, s: Ratio, r: Map<usize, Fraction>, v: usize)
    requires
        merged_entry(a, b, s, r, v),
        s.wf(),
    ensures
        coef(r, v).eqv(coef(a, v).add(coef(b, v).mul(s))),
{
    let ca = coef(a, v);
    let cb = coef(b, v);
    assert(ca.fits() && cb.fits());
    lemma_ops_wf(cb, s);
    let t = ca.add(cb.mul(s));
    lemma_ops_wf(ca, cb.mul(s));
    if r.contains_key(v) {
        assert(r[v]@.fits());
        if a.contains_key(v) && b.contains_key(v) {
        } else if a.contains_key(v) {
            lemma_zero_valued(s, cb);
            lemma_add_zero_r(ca, cb.mul(s));
            lemma_eqv_sym(t, ca);
            lemma_eqv_trans(r[v]@, ca, t);
        } else {
            lemma_add_zero_r(cb.mul(s), ca);
            lemma_eqv_sym(t, cb.mul(s));
            lemma_eqv_trans(r[v]@, cb.mul(s), t);
        }
    } else {
        if !b.contains_key(v) {
            lemma_zero_valued(s, cb);
        }
        assert(t.num == 0) by (nonlinear_arith)
            requires
                t.num == ca.num * cb.mul(s).den + cb.mul(s).num * ca.den,
                ca.num == 0 || (a.contains_key(v) && b.contains_key(v)),
                cb.mul(s).num == 0 || a.contains_key(v),
                a.contains_key(v) && b.contains_key(v) ==> t.num == 0,
                a.contains_key(v) && !b.contains_key(v) ==> false,
        ;
    }
}

/// Adding the entry `c` for a variable `x` that had none adds `f(x)·c` to
/// the sum.
proof fn lemma_dot_insert(g0: spec_fn(int) -> Ratio, g1: spec_fn(int) -> Ratio, f: spec_fn(int) -> Ratio, x: int, c: Ratio, n: int, acc: Ratio)
    requires
        all_wf(g0, n),
        all_wf(g1, n),
        all_wf(f, n),
        0 <= x < n,
        c.wf(),
        acc.wf(),
        g0(x) == Ratio::zero(),
        g1(x) == c,
        forall|v: int| 0 <= v < n && v != x ==> #[trigger] g1(v) == g0(v),
        acc.eqv(dot(g0, f, n)),
    ensures
        acc.add(f(x).mul(c)).eqv(dot(g1, f, n)),
{
    let u = |v: int| if v == x { c } else { Ratio::zero() };
    assert forall|v: int| 0 <= v < n implies (#[trigger] u(v)).wf() by {}
    assert forall|v: int| 0 <= v < n implies (#[trigger] g1(v)).eqv(g0(v).add(u(v))) by {
        assert(g0(v).wf());
        if v == x {
            lemma_add_zero_r(c, Ratio::zero());
            lemma_eqv_sym(Ratio::zero().add(c), c);
        } else {
            lemma_add_zero_r(g0(v), Ratio::zero());
            lemma_eqv_sym(g0(v).add(Ratio::zero()), g0(v));
        }
    }
    lemma_dot_add(g0, u, g1, f, n);
    lemma_dot_unit(u, f, x, n);
    lemma_dot_wf(g0, f, n);
    lemma_dot_wf(u, f, n);
    lemma_dot_wf(g1, f, n);
    assert(f(x).wf());
    lemma_mul_comm(c, f(x));
    lemma_ops_wf(f(x), c);
    lemma_add_eqv(acc, dot(g0, f, n), f(x).mul(c), dot(u, f, n));
    lemma_eqv_sym(dot(u, f, n), c.mul(f(x)));
    lemma_ops_wf(dot(g0, f, n), dot(u, f, n));
    lemma_eqv_sym(dot(g1, f, n), dot(g0, f, n).add(dot(u, f, n)));
    lemma_eqv_trans(acc.add(f(x).mul(c)), dot(g0, f, n).add(dot(u, f, n)), dot(g1, f, n));
}

/// The value of the combination `s` under the values `xs`.
pub open spec fn eval_with(xs: Seq<IRatio>, s: Seq<(usize, Fraction)>) -> IRatio
    decreases s.len(),
{
    if s.len() == 0 {
        IRatio::of_int(0)
    } else {
        eval_with(xs, s.drop_last()).add(xs[s.last().0 as int].scale(s.last().1@))
    }
}

/// Multiplying by a positive fraction keeps the order of fractions, and by a
/// negative one reverses it.
proof fn lemma_ratio_mul_order(x: Ratio, y: Ratio, c: Ratio)
    requires
        x.wf(),
        y.wf(),
        c.wf(),
    ensures
        c.num > 0 ==> (x.lt(y) ==> x.mul(c).lt(y.mul(c))) && (x.eqv(y) ==> x.mul(c).eqv(y.mul(c))),
        c.num < 0 ==> (x.lt(y) ==> y.mul(c).lt(x.mul(c))) && (x.eqv(y) ==> y.mul(c).eqv(x.mul(c))),
        c.num == 0 ==> x.mul(c).eqv(y.mul(c)),
{
    let k = c.num * c.den;
    assert((x.num * c.num) * (y.den * c.den) == (x.num * y.den) * k) by (nonlinear_arith)
        requires
            k == c.num * c.den,
    ;
    assert((y.num * c.num) * (x.den * c.den) == (y.num * x.den) * k) by (nonlinear_arith)
        requires
            k == c.num * c.den,
    ;
    if c.num > 0 {
        assert(k > 0) by (nonlinear_arith)
            requires
                c.num > 0,
                c.den > 0,
                k == c.num * c.den,
        ;
        if x.lt(y) {
            assert((x.num * y.den) * k < (y.num * x.den) * k) by (nonlinear_arith)
                requires
                    x.num * y.den < y.num * x.den,
                    k > 0,
            ;
        }
    } else if c.num < 0 {
        assert(k < 0) by (nonlinear_arith)
            requires
                c.num < 0,
                c.den > 0,
                k == c.num * c.den,
        ;
        if x.lt(y) {
            assert((y.num * x.den) * k < (x.num * y.den) * k) by (nonlinear_arith)
                requires
                    x.num * y.den < y.num * x.den,
                    k < 0,
            ;
        }
    } else {
        assert(x.mul(c).num == 0 && y.mul(c).num == 0) by (nonlinear_arith)
            requires
                c.num == 0,
                x.mul(c).num == x.num * c.num,
                y.mul(c).num == y.num * c.num,
        ;
        assert(x.mul(c).eqv(y.mul(c))) by (nonlinear_arith)
            requires
                x.mul(c).num == 0,
                y.mul(c).num == 0,
        ;
    }
}

/// Scaling finite values by a positive fraction keeps their order, and by a
/// negative one reverses it.
proof fn lemma_scale_order(x: IRatio, y: IRatio, c: Ratio)
    requires
        x.wf(),
        y.wf(),
        c.wf(),
        x.real is Fin,
        y.real is Fin,
        x.le(y),
    ensures
        c.num > 0 ==> x.scale(c).le(y.scale(c)),
        c.num < 0 ==> y.scale(c).le(x.scale(c)),
        c.num == 0 ==> x.scale(c).le(y.scale(c)) && y.scale(c).le(x.scale(c)),
{
    let a = x.real->Fin_0;
    let b = y.real->Fin_0;
    lemma_ratio_mul_order(a, b, c);
    lemma_ratio_mul_order(x.eps, y.eps, c);
    lemma_ratio_mul_order(b, a, c);
    crate::fraction::lemma_trichotomy(a, b);
    crate::fraction::lemma_trichotomy(x.eps, y.eps);
}

/// Termwise smaller combinations are smaller.
proof fn lemma_eval_order(xs: Seq<IRatio>, ys: Seq<IRatio>, s: Seq<(usize, Fraction)>)
    requires
        forall|k: int|
            0 <= k < s.len() ==> {
                let v = (#[trigger] s[k]).0 as int;
                &&& 0 <= v < xs.len()
                &&& 0 <= v < ys.len()
                &&& xs[v].wf() && ys[v].wf() && xs[v].real is Fin && ys[v].real is Fin
                &&& xs[v].scale(s[k].1@).le(ys[v].scale(s[k].1@))
            },
    ensures
        eval_with(xs, s).le(eval_with(ys, s)),
        eval_with(xs, s).wf() && eval_with(xs, s).real is Fin,
        eval_with(ys, s).wf() && eval_with(ys, s).real is Fin,
    decreases s.len(),
{
    if s.len() == 0 {
        crate::rational::lemma_iratio_eqv(IRatio::of_int(0), IRatio::of_int(0), IRatio::of_int(0));
    } else {
        let p = s.drop_last();
        assert forall|k: int| 0 <= k < p.len() implies {
            let v = (#[trigger] p[k]).0 as int;
            &&& 0 <= v < xs.len()
            &&& 0 <= v < ys.len()
            &&& xs[v].wf() && ys[v].wf() && xs[v].real is Fin && ys[v].real is Fin
            &&& xs[v].scale(p[k].1@).le(ys[v].scale(p[k].1@))
        } by {
            assert(p[k] == s[k]);
        }
        lemma_eval_order(xs, ys, p);
        let k = s.len() - 1;
        assert(s[k] == s.last());
        let (v, c) = s.last();
        assert(c@.fits());
        let ex = eval_with(xs, p);
        let ey = eval_with(ys, p);
        let tx = xs[v as int].scale(c@);
        let ty = ys[v as int].scale(c@);
        crate::rational::lemma_iratio_ops_wf(xs[v as int], xs[v as int], c@);
        crate::rational::lemma_iratio_ops_wf(ys[v as int], ys[v as int], c@);
        crate::rational::lemma_iratio_ops_wf(ex, tx, c@);
        crate::rational::lemma_iratio_ops_wf(ey, ty, c@);
        // ex + tx <= ey + tx <= ey + ty
        crate::rational::lemma_iratio_add_monotone(ex, ey, tx);
        crate::rational::lemma_iratio_add_monotone(tx, ty, ey);
        crate::dot::lemma_add_comm(tx.eps, ey.eps);
        crate::dot::lemma_add_comm(tx.real->Fin_0, ey.real->Fin_0);
        crate::dot::lemma_add_comm(ty.eps, ey.eps);
        crate::dot::lemma_add_comm(ty.real->Fin_0, ey.real->Fin_0);
        assert(tx.add(ey) == ey.add(tx));
        assert(ty.add(ey) == ey.add(ty));
        crate::rational::lemma_iratio_le_trans(ex.add(tx), ey.add(tx), ey.add(ty));
    }
}

/// The finite parts of the values `xs`, by index.
pub open spec fn value_reals(xs: Seq<IRatio>) -> spec_fn(int) -> Ratio {
    |v: int| fin_part(xs[v])
}

/// The infinitesimal parts of the values `xs`, by index.
pub open spec fn value_eps(xs: Seq<IRatio>) -> spec_fn(int) -> Ratio {
    |v: int| xs[v].eps
}

/// The sum of the row of the leaving variable before a pivot, given the row
/// `ge` of the entering variable `e` after it (whose sum is the value of
/// `e`): it is the value of the leaving variable `l`.
proof fn lemma_leaving_sum(gl: spec_fn(int) -> Ratio, ge: spec_fn(int) -> Ratio, f: spec_fn(int) -> Ratio, e: int, l: int, n: int)
    requires
        all_wf(gl, n),
        all_wf(ge, n),
        all_wf(f, n),
        0 <= e < n,
        0 <= l < n,
        e != l,
        gl(e).num != 0,
        gl(l).num == 0,
        ge(l).eqv(Ratio::of_int(1).div(gl(e))),
        ge(e).num == 0,
        forall|v: int| 0 <= v < n && v != e && v != l ==> (#[trigger] ge(v)).eqv(gl(v).mul(Ratio::of_int(1).div(gl(e).neg()))),
        dot(ge, f, n).eqv(f(e)),
    ensures
        dot(gl, f, n).eqv(f(l)),
{
    let one = Ratio::of_int(1);
    let c = gl(e);
    assert(c.wf());
    let mc = c.neg();
    let m = one.div(mc);
    let w = one.div(c);
    lemma_ops_wf(one, c);
    lemma_ops_wf(one, mc);
    lemma_ops_wf(c, c);
    let h1 = |v: int| ge(v).mul(mc);
    let ul = |v: int| if v == l { one } else { Ratio::zero() };
    let ue = |v: int| if v == e { c } else { Ratio::zero() };
    let u = |v: int| ul(v).add(ue(v));
    let big = |v: int| h1(v).add(u(v));
    assert forall|v: int| 0 <= v < n implies (#[trigger] h1(v)).wf() by {
        assert(ge(v).wf());
        lemma_ops_wf(ge(v), mc);
    }
    assert forall|v: int| 0 <= v < n implies (#[trigger] ul(v)).wf() by {}
    assert forall|v: int| 0 <= v < n implies (#[trigger] ue(v)).wf() by {}
    assert forall|v: int| 0 <= v < n implies (#[trigger] u(v)).wf() by {
        lemma_ops_wf(ul(v), ue(v));
    }
    assert forall|v: int| 0 <= v < n implies (#[trigger] big(v)).wf() by {
        assert(h1(v).wf() && u(v).wf());
        lemma_ops_wf(h1(v), u(v));
    }
    // pointwise, the old row is the new one times -c, plus 1 at l and c at e
    assert forall|v: int| 0 <= v < n implies (#[trigger] gl(v)).eqv(big(v)) by {
        assert(gl(v).wf() && ge(v).wf());
        if v == l {
            // (1/c)·(-c) + (1 + 0) ~ 0
            let t = ge(l).mul(mc);
            lemma_eqv_refl(mc);
            lemma_mul_eqv(ge(l), w, mc, mc);
            assert(w.mul(mc).add(one).num == 0) by (nonlinear_arith)
                requires
                    c.num != 0,
                    c.num > 0 ==> w.num == c.den && w.den == c.num,
                    c.num < 0 ==> w.num == -c.den && w.den == -c.num,
                    mc.num == -c.num,
                    mc.den == c.den,
                    w.mul(mc).add(one).num == (w.num * mc.num) * one.den + one.num * (w.den * mc.den),
                    one.num == 1,
                    one.den == 1,
            {
                if c.num > 0 {
                    assert((c.den * (-c.num)) * 1 + 1 * (c.num * c.den) == 0);
                } else {
                    assert(((-c.den) * (-c.num)) * 1 + 1 * ((-c.num) * c.den) == 0);
                }
            }
            assert(u(l) == one.add(Ratio::zero()));
            assert(one.add(Ratio::zero()) == one);
            lemma_ops_wf(w, mc);
            lemma_ops_wf(t, one);
            lemma_add_eqv(t, w.mul(mc), one, one);
            assert(big(l) == t.add(one));
            assert(big(l).eqv(w.mul(mc).add(one)));
            assert(gl(l).eqv(big(l))) by (nonlinear_arith)
                requires
                    gl(l).num == 0,
                    big(l).num * w.mul(mc).add(one).den == w.mul(mc).add(one).num * big(l).den,
                    w.mul(mc).add(one).num == 0,
                    w.mul(mc).add(one).den > 0,
            ;
        } else if v == e {
            // 0·(-c) + (0 + c) ~ c
            lemma_zero_valued(mc, ge(e));
            assert(u(e) == Ratio::zero().add(c));
            lemma_add_zero_r(c, Ratio::zero());
            lemma_ops_wf(Ratio::zero(), c);
            lemma_add_zero_r(u(e), h1(e));
            lemma_eqv_sym(big(e), u(e));
            lemma_eqv_trans(u(e), c, c);
            lemma_eqv_sym(u(e), c);
            lemma_eqv_trans(c, u(e), big(e));
        } else {
            // gl(v)·(1/-c)·(-c) + 0 ~ gl(v)
            assert(u(v) == Ratio::zero().add(Ratio::zero()));
            lemma_add_zero_r(h1(v), u(v));
            lemma_eqv_refl(mc);
            lemma_mul_eqv(ge(v), gl(v).mul(m), mc, mc);
            crate::dot::lemma_mul_assoc(gl(v), m, mc);
            lemma_ops_wf(gl(v), m);
            crate::rational::lemma_ratio_div_mul(one, mc);
            lemma_eqv_refl(gl(v));
            lemma_mul_eqv(gl(v), gl(v), m.mul(mc), one);
            assert(gl(v).mul(one) == gl(v));
            lemma_ops_wf(m, mc);
            lemma_ops_wf(gl(v), m.mul(mc));
            lemma_eqv_trans(h1(v), gl(v).mul(m).mul(mc), gl(v));
            lemma_eqv_trans(big(v), h1(v), gl(v));
            lemma_eqv_sym(big(v), gl(v));
        }
    }
    lemma_dot_congr(gl, big, f, f, n);
    lemma_dot_add(h1, u, big, f, n);
    lemma_dot_add(ul, ue, u, f, n);
    lemma_dot_scale(ge, h1, mc, f, n);
    lemma_dot_unit(ul, f, l, n);
    lemma_dot_unit(ue, f, e, n);
    assert forall|v: int| 0 <= v < n implies (#[trigger] big(v)).eqv(h1(v).add(u(v))) by {
        lemma_eqv_refl(big(v));
    }
    lemma_dot_wf(gl, f, n);
    lemma_dot_wf(ge, f, n);
    lemma_dot_wf(h1, f, n);
    lemma_dot_wf(u, f, n);
    lemma_dot_wf(ul, f, n);
    lemma_dot_wf(ue, f, n);
    lemma_dot_wf(big, f, n);
    let (dg, dh, du, dul, due, db) = (dot(ge, f, n), dot(h1, f, n), dot(u, f, n), dot(ul, f, n), dot(ue, f, n), dot(big, f, n));
    let (fl, fe) = (f(l), f(e));
    assert(fl.wf() && fe.wf());
    assert(one.mul(fl).eqv(fl)) by (nonlinear_arith)
        requires
            one.num == 1,
            one.den == 1,
            one.mul(fl).num == one.num * fl.num,
            one.mul(fl).den == one.den * fl.den,
    ;
    lemma_ops_wf(one, fl);
    lemma_eqv_trans(dul, one.mul(fl), fl);
    // dot(big) ~ dg·(-c) + (fl + c·fe) ~ fe·(-c) + (fl + c·fe) ~ fl
    lemma_ops_wf(dg, mc);
    lemma_ops_wf(fe, mc);
    lemma_ops_wf(c, fe);
    lemma_ops_wf(fl, c.mul(fe));
    lemma_eqv_refl(mc);
    lemma_mul_eqv(dg, fe, mc, mc);
    lemma_eqv_trans(dh, dg.mul(mc), fe.mul(mc));
    lemma_add_eqv(dul, fl, due, c.mul(fe));
    lemma_ops_wf(dul, due);
    lemma_eqv_trans(du, dul.add(due), fl.add(c.mul(fe)));
    lemma_add_eqv(dh, fe.mul(mc), du, fl.add(c.mul(fe)));
    lemma_ops_wf(dh, du);
    lemma_eqv_trans(db, dh.add(du), fe.mul(mc).add(fl.add(c.mul(fe))));
    let total = fe.mul(mc).add(fl.add(c.mul(fe)));
    assert(total.eqv(fl)) by {
        let p = fe.mul(mc);
        let q = c.mul(fe);
        crate::rational::lemma_ratio_add_assoc(p, fl, q);
        lemma_add_comm(p, fl);
        crate::rational::lemma_ratio_add_assoc(fl, p, q);
        assert(p.add(q).num == 0) by (nonlinear_arith)
            requires
                p.num == fe.num * mc.num,
                p.den == fe.den * mc.den,
                q.num == c.num * fe.num,
                q.den == c.den * fe.den,
                mc.num == -c.num,
                mc.den == c.den,
                p.add(q).num == p.num * q.den + q.num * p.den,
        ;
        lemma_ops_wf(p, q);
        lemma_add_zero_r(fl, p.add(q));
        assert(total == fl.add(p.add(q))) by {
            crate::rational::lemma_ratio_add_assoc(p, fl, q);
            crate::rational::lemma_ratio_add_assoc(fl, p, q);
            lemma_add_comm(p, fl);
        }
    }
    lemma_ops_wf(fe.mul(mc), fl.add(c.mul(fe)));
    lemma_eqv_trans(db, total, fl);
    lemma_eqv_trans(dot(gl, f, n), db, fl);
}

/// The simplex state of the linear arithmetic theory.
pub struct LraTheory {
    ints: Vec<bool>,
    reals: Vec<InfRational>,
    lbs: Vec<Bound>,
    ubs: Vec<Bound>,
    lin_to_slack: Vec<(SparseRow, usize)>,
    tableau: Vec<Option<SparseRow>>,
    bound_trail: Vec<BoundUpdate>,
    trail_lim: Vec<usize>,
    saved: Ghost<Seq<(Seq<Bound>, Seq<Bound>)>>,
}

impl LraTheory {
    /// The registered slack variables, each with the linear form it was
    /// created for.
    pub closed spec fn slack_table(self) -> Seq<(SparseRow, usize)> {
        self.lin_to_slack@
    }

    /// `s` is the slack registered for a linear form with the variables and
    /// (up to equivalence) the coefficients of `m`.
    pub open spec fn slack_for(self, m: Map<usize, Fraction>, s: usize) -> bool {
        exists|k: int|
            0 <= k < self.slack_table().len() && (#[trigger] self.slack_table()[k]).1 == s && self.slack_table()[k].0@.dom()
                == m.dom() && forall|v: usize| #[trigger] m.contains_key(v) ==> self.slack_table()[k].0@[v]@.eqv(m[v]@)
    }

    /// Number of variables.
    pub closed spec fn num_vars(self) -> nat {
        self.reals@.len()
    }

    /// Current value of `v`.
    pub closed spec fn val(self, v: int) -> IRatio {
        self.reals@[v]@
    }

    /// Whether `v` is an integer variable.
    pub closed spec fn int_var(self, v: int) -> bool {
        self.ints@[v]
    }

    /// The lower bounds with their literals.
    pub closed spec fn lower_bounds(self) -> Seq<Bound> {
        self.lbs@
    }

    /// The upper bounds with their literals.
    pub closed spec fn upper_bounds(self) -> Seq<Bound> {
        self.ubs@
    }

    pub open spec fn lb_of(self, v: int) -> IRatio {
        self.lower_bounds()[v].1@
    }

    pub open spec fn ub_of(self, v: int) -> IRatio {
        self.upper_bounds()[v].1@
    }

    /// Whether `v` is basic.
    pub closed spec fn basic(self, v: int) -> bool {
        self.tableau@[v] is Some
    }

    /// The row of a basic variable.
    pub closed spec fn row_of(self, v: int) -> SparseRow {
        self.tableau@[v]->0
    }

    /// Number of open decision levels.
    pub closed spec fn levels(self) -> nat {
        self.trail_lim@.len()
    }

    /// The bounds recorded when level `k` was opened.
    pub closed spec fn saved_at(self, k: int) -> (Seq<Bound>, Seq<Bound>) {
        self.saved@[k]
    }

    /// Whether `v` lies within its bounds.
    pub open spec fn in_bounds(self, v: int) -> bool {
        self.lb_of(v).le(self.val(v)) && self.val(v).le(self.ub_of(v))
    }

    /// Every basic variable has the value of its row, part by part.
    pub closed spec fn rows_hold(self) -> bool {
        let n = self.reals@.len() as int;
        forall|b: int|
            0 <= b < n && #[trigger] self.tableau@[b] is Some ==> {
                let g = coefs(self.tableau@[b]->0@);
                &&& fin_part(self.reals@[b]@).eqv(dot(g, real_parts(self.reals@), n))
                &&& self.reals@[b]@.eps.eqv(dot(g, eps_parts(self.reals@), n))
            }
    }

    /// After `var` moved to `target`, every basic variable whose row holds it
    /// moving by its coefficient times the change and nothing else moving,
    /// basic variables still have the values of their rows.
    proof fn lemma_rows_moved(old: LraTheory, new: LraTheory, var: int, target: IRatio)
        requires
            old.wf(),
            old.rows_hold(),
            old.num_vars() <= usize::MAX,
            0 <= var < old.num_vars(),
            !old.basic(var),
            new.num_vars() == old.num_vars(),
            new.tableau == old.tableau,
            target.wf(),
            forall|v: int| 0 <= v < new.num_vars() ==> (#[trigger] new.reals@[v])@.real is Fin,
            target.real is Fin,
            new.val(var).eqv(target),
            forall|b: int|
                0 <= b < old.num_vars() && b != var ==> if old.basic(b) && old.row_of(b)@.contains_key(var as usize) {
                    (#[trigger] new.val(b)).eqv(old.val(b).add(target.sub(old.val(var)).scale(old.row_of(b)@[var as usize]@)))
                } else {
                    new.val(b) == old.val(b)
                },
        ensures
            new.rows_hold(),
    {
        let n = old.reals@.len() as int;
        let f1 = real_parts(old.reals@);
        let f2 = real_parts(new.reals@);
        let e1 = eps_parts(old.reals@);
        let e2 = eps_parts(new.reals@);
        assert forall|b: int| 0 <= b < n && #[trigger] new.tableau@[b] is Some implies {
            let g = coefs(new.tableau@[b]->0@);
            &&& fin_part(new.reals@[b]@).eqv(dot(g, real_parts(new.reals@), n))
            &&& new.reals@[b]@.eps.eqv(dot(g, eps_parts(new.reals@), n))
        } by {
            let row = old.tableau@[b]->0;
            let g = coefs(row@);
            lemma_parts_wf(old.reals@, row@, n);
            lemma_parts_wf(new.reals@, row@, n);
            assert(old.basic(b));
            assert forall|v: int| 0 <= v < n && v != var implies (#[trigger] g(v)).num == 0 || f1(v) == f2(v) by {
                if row@.contains_key(v as usize) {
                    let x = v as usize;
                    assert(old.tableau@[b] is Some);
                    assert(row@.contains_key(x));
                    assert(old.tableau@[x as int] is None);
                    assert(x as int == v);
                    assert(!old.basic(v));
                    assert(new.val(v) == old.val(v));
                }
            }
            assert forall|v: int| 0 <= v < n && v != var implies (#[trigger] g(v)).num == 0 || e1(v) == e2(v) by {
                if row@.contains_key(v as usize) {
                    let x = v as usize;
                    assert(old.tableau@[b] is Some);
                    assert(row@.contains_key(x));
                    assert(old.tableau@[x as int] is None);
                    assert(x as int == v);
                    assert(!old.basic(v));
                    assert(new.val(v) == old.val(v));
                }
            }
            let ob = old.val(b);
            let nb = new.val(b);
            let ov = old.val(var);
            assert(ob.wf() && nb.wf() && ov.wf() && target.wf() && new.val(var).wf());
            assert(ob.real is Fin && nb.real is Fin && ov.real is Fin);
            let c = g(var);
            assert(c.wf());
            if b != var && row@.contains_key(var as usize) {
                assert(nb.eqv(ob.add(target.sub(ov).scale(c))));
            } else {
                assert(b != var);
                assert(nb == ob);
                assert(c == Ratio::zero());
                let t1 = fin_part(target).sub(fin_part(ov));
                let t2 = target.eps.sub(ov.eps);
                lemma_ops_wf(fin_part(target), fin_part(ov));
                lemma_ops_wf(target.eps, ov.eps);
                lemma_zero_valued(t1, c);
                lemma_zero_valued(t2, c);
                lemma_add_zero_r(fin_part(ob), t1.mul(c));
                lemma_add_zero_r(ob.eps, t2.mul(c));
                lemma_eqv_sym(fin_part(ob).add(t1.mul(c)), fin_part(ob));
                lemma_eqv_sym(ob.eps.add(t2.mul(c)), ob.eps);
            }
            lemma_part_moved(g, f1, f2, var, n, fin_part(ob), fin_part(nb), fin_part(target));
            lemma_part_moved(g, e1, e2, var, n, ob.eps, nb.eps, target.eps);
        }
    }

    /// The value of a sorted combination `s` of variables below `n` is, part
    /// by part, the sum of its coefficients times the values.
    proof fn lemma_row_eval_dot(self, s: Seq<(usize, Fraction)>, n: int)
        requires
            sorted_vars(s),
            forall|k: int| 0 <= k < s.len() ==> (#[trigger] s[k]).0 < n,
            n <= self.reals@.len(),
            self.reals@.len() <= usize::MAX,
            forall|v: int| 0 <= v < n ==> (#[trigger] self.reals@[v])@.real is Fin,
        ensures
            self.row_eval(s).real is Fin,
            self.row_eval(s).wf(),
            fin_part(self.row_eval(s)).eqv(dot(coefs(coeff_map(s)), real_parts(self.reals@), n)),
            self.row_eval(s).eps.eqv(dot(coefs(coeff_map(s)), eps_parts(self.reals@), n)),
        decreases s.len(),
    {
        let fr = real_parts(self.reals@);
        let fe = eps_parts(self.reals@);
        let g = coefs(coeff_map(s));
        lemma_parts_wf(self.reals@, coeff_map(s), n);
        if s.len() == 0 {
            assert forall|v: int| 0 <= v < n implies (#[trigger] g(v)).num == 0 by {
                assert(!has_var(s, v as usize));
            }
            lemma_dot_zero(g, fr, n);
            lemma_dot_zero(g, fe, n);
            lemma_dot_wf(g, fr, n);
            lemma_dot_wf(g, fe, n);
            assert(self.row_eval(s) == IRatio::of_int(0));
            assert(dot(g, fr, n).num == 0);
            assert(fin_part(self.row_eval(s)) == Ratio::of_int(0));
            assert(self.row_eval(s).eps == Ratio::zero());
            let d1 = dot(g, fr, n);
            let d2 = dot(g, fe, n);
            assert(Ratio::zero().eqv(d1)) by (nonlinear_arith)
                requires
                    d1.num == 0,
            ;
            assert(Ratio::zero().eqv(d2)) by (nonlinear_arith)
                requires
                    d2.num == 0,
            ;
        } else {
            let p = s.drop_last();
            let (x, c) = s.last();
            assert(s =~= p.push((x, c)));
            assert forall|k: int| 0 <= k < p.len() implies (#[trigger] p[k]).0 < n && p[k].0 < x by {
                assert(p[k] == s[k]);
                assert(s[k].0 < s[s.len() - 1].0);
            }
            assert(sorted_vars(p)) by {
                assert forall|i: int, j: int| 0 <= i < j < p.len() implies p[i].0 < p[j].0 by {
                    assert(p[i] == s[i] && p[j] == s[j]);
                }
            }
            self.lemma_row_eval_dot(p, n);
            lemma_coeff_push(p, (x, c));
            let g0 = coefs(coeff_map(p));
            lemma_parts_wf(self.reals@, coeff_map(p), n);
            assert(s[s.len() - 1].0 < n);
            assert(!coeff_map(p).contains_key(x)) by {
                if has_var(p, x) {
                    let i = choose|i: int| 0 <= i < p.len() && p[i].0 == x;
                    assert(p[i].0 < x);
                }
            }
            assert forall|v: int| 0 <= v < n && v != x implies #[trigger] g(v) == g0(v) by {
                assert((v as usize) != x);
            }
            assert(g(x as int) == c@);
            assert(g0(x as int) == Ratio::zero());
            let prev = self.row_eval(p);
            let xv = self.reals@[x as int]@;
            assert(xv.wf() && xv.real is Fin);
            assert(c@.fits());
            crate::rational::lemma_iratio_ops_wf(prev, xv, c@);
            crate::rational::lemma_iratio_ops_wf(xv, xv, c@);
            crate::rational::lemma_iratio_ops_wf(prev, xv.scale(c@), c@);
            assert(self.val(x as int) == xv);
            lemma_dot_insert(g0, g, fr, x as int, c@, n, fin_part(prev));
            lemma_dot_insert(g0, g, fe, x as int, c@, n, prev.eps);
            assert(self.row_eval(s) == prev.add(xv.scale(c@)));
            assert(fin_part(self.row_eval(s)) == fin_part(prev).add(fr(x as int).mul(c@)));
            assert(self.row_eval(s).eps == prev.eps.add(fe(x as int).mul(c@)));
            assert(fin_part(self.row_eval(s)).eqv(dot(g, fr, n)));
            assert(self.row_eval(s).eps.eqv(dot(g, fe, n)));
        }
    }

    /// A new non-basic variable outside every row keeps every basic variable
    /// at the value of its row.
    proof fn lemma_rows_extend(old: LraTheory, new: LraTheory)
        requires
            old.wf(),
            old.rows_hold(),
            new.reals@.len() == old.reals@.len() + 1,
            new.reals@.len() <= usize::MAX,
            forall|v: int| 0 <= v < old.reals@.len() ==> #[trigger] new.reals@[v] == old.reals@[v],
            new.tableau@ == old.tableau@.push(None),
        ensures
            new.rows_hold(),
    {
        let n = old.reals@.len() as int;
        assert forall|b: int| 0 <= b < n + 1 && #[trigger] new.tableau@[b] is Some implies {
            let g = coefs(new.tableau@[b]->0@);
            &&& fin_part(new.reals@[b]@).eqv(dot(g, real_parts(new.reals@), n + 1))
            &&& new.reals@[b]@.eps.eqv(dot(g, eps_parts(new.reals@), n + 1))
        } by {
            assert(b < n);
            assert(old.tableau@[b] is Some);
            let row = old.tableau@[b]->0;
            let g = coefs(row@);
            lemma_parts_wf(old.reals@, row@, n + 1);
            lemma_parts_wf(new.reals@, row@, n + 1);
            assert(!row@.contains_key(n as usize)) by {
                if row@.contains_key(n as usize) {
                    assert((n as usize) < n);
                }
            }
            assert(g(n).num == 0);
            lemma_dot_congr(g, g, real_parts(old.reals@), real_parts(new.reals@), n);
            lemma_dot_congr(g, g, eps_parts(old.reals@), eps_parts(new.reals@), n);
            lemma_dot_wf(g, real_parts(new.reals@), n);
            lemma_dot_wf(g, eps_parts(new.reals@), n);
            assert(real_parts(new.reals@)(n).wf() && eps_parts(new.reals@)(n).wf());
            lemma_zero_valued(real_parts(new.reals@)(n), g(n));
            lemma_zero_valued(eps_parts(new.reals@)(n), g(n));
            lemma_add_zero_r(dot(g, real_parts(new.reals@), n), g(n).mul(real_parts(new.reals@)(n)));
            lemma_add_zero_r(dot(g, eps_parts(new.reals@), n), g(n).mul(eps_parts(new.reals@)(n)));
            lemma_dot_wf(g, real_parts(old.reals@), n);
            lemma_dot_wf(g, eps_parts(old.reals@), n);
            lemma_dot_wf(g, real_parts(new.reals@), n + 1);
            lemma_dot_wf(g, eps_parts(new.reals@), n + 1);
            assert(new.reals@[b] == old.reals@[b]);
            lemma_eqv_sym(dot(g, real_parts(new.reals@), n + 1), dot(g, real_parts(new.reals@), n));
            lemma_eqv_sym(dot(g, eps_parts(new.reals@), n + 1), dot(g, eps_parts(new.reals@), n));
            lemma_eqv_trans(fin_part(old.reals@[b]@), dot(g, real_parts(old.reals@), n), dot(g, real_parts(new.reals@), n));
            lemma_eqv_trans(fin_part(old.reals@[b]@), dot(g, real_parts(new.reals@), n), dot(g, real_parts(new.reals@), n + 1));
            lemma_eqv_trans(old.reals@[b]@.eps, dot(g, eps_parts(old.reals@), n), dot(g, eps_parts(new.reals@), n));
            lemma_eqv_trans(old.reals@[b]@.eps, dot(g, eps_parts(new.reals@), n), dot(g, eps_parts(new.reals@), n + 1));
        }
    }

    /// Making the non-basic `var` basic with a row over other non-basic
    /// variables, at the value of that row, keeps every basic variable at the
    /// value of its row.
    proof fn lemma_rows_added(old: LraTheory, new: LraTheory, var: int)
        requires
            old.wf(),
            old.rows_hold(),
            old.num_vars() <= usize::MAX,
            0 <= var < old.num_vars(),
            !old.basic(var),
            new.reals@.len() == old.reals@.len(),
            new.tableau@ == old.tableau@.update(var, new.tableau@[var]),
            new.tableau@[var] is Some,
            new.tableau@[var]->0.wf(),
            forall|x: usize| #[trigger]
                new.tableau@[var]->0@.contains_key(x) ==> x < old.num_vars() && !old.basic(x as int) && x != var,
            forall|b: int| 0 <= b < old.num_vars() && #[trigger] old.basic(b) ==> !old.row_of(b)@.contains_key(var as usize),
            forall|v: int| 0 <= v < old.num_vars() && v != var ==> #[trigger] new.reals@[v] == old.reals@[v],
            new.reals@[var]@.real is Fin,
            new.reals@[var]@.eqv(old.row_eval(new.tableau@[var]->0.seq())),
        ensures
            new.rows_hold(),
    {
        let n = old.reals@.len() as int;
        let f1 = real_parts(old.reals@);
        let f2 = real_parts(new.reals@);
        let e1 = eps_parts(old.reals@);
        let e2 = eps_parts(new.reals@);
        assert forall|b: int| 0 <= b < n && #[trigger] new.tableau@[b] is Some implies {
            let g = coefs(new.tableau@[b]->0@);
            &&& fin_part(new.reals@[b]@).eqv(dot(g, real_parts(new.reals@), n))
            &&& new.reals@[b]@.eps.eqv(dot(g, eps_parts(new.reals@), n))
        } by {
            let row = new.tableau@[b]->0;
            let g = coefs(row@);
            lemma_parts_wf(old.reals@, row@, n);
            lemma_parts_wf(new.reals@, row@, n);
            if b != var {
                assert(old.basic(b));
                assert(row == old.row_of(b));
            }
            assert(!row@.contains_key(var as usize));
            assert forall|v: int| 0 <= v < n implies (#[trigger] g(v)).eqv(g(v)) by {
                lemma_eqv_refl(g(v));
            }
            assert forall|v: int| 0 <= v < n implies (#[trigger] g(v)).num == 0 || f1(v) == f2(v) by {
                if v == var {
                    assert((v as usize) as int == v);
                }
            }
            assert forall|v: int| 0 <= v < n implies (#[trigger] g(v)).num == 0 || e1(v) == e2(v) by {
                if v == var {
                    assert((v as usize) as int == v);
                }
            }
            lemma_dot_congr(g, g, f1, f2, n);
            lemma_dot_congr(g, g, e1, e2, n);
            lemma_dot_wf(g, f1, n);
            lemma_dot_wf(g, f2, n);
            lemma_dot_wf(g, e1, n);
            lemma_dot_wf(g, e2, n);
            if b == var {
                row.lemma_entries();
                assert forall|k: int| 0 <= k < row.seq().len() implies (#[trigger] row.seq()[k]).0 < n by {
                    lemma_coeff_at(row.seq(), k);
                }
                old.lemma_row_eval_dot(row.seq(), n);
                let re = old.row_eval(row.seq());
                let x = new.reals@[var]@;
                assert(x.wf());
                lemma_eqv_trans(fin_part(x), fin_part(re), dot(g, f1, n));
                lemma_eqv_trans(fin_part(x), dot(g, f1, n), dot(g, f2, n));
                lemma_eqv_trans(x.eps, re.eps, dot(g, e1, n));
                lemma_eqv_trans(x.eps, dot(g, e1, n), dot(g, e2, n));
            } else {
                assert(new.reals@[b] == old.reals@[b]);
                lemma_eqv_trans(fin_part(old.reals@[b]@), dot(g, f1, n), dot(g, f2, n));
                lemma_eqv_trans(old.reals@[b]@.eps, dot(g, e1, n), dot(g, e2, n));
            }
        }
    }

    /// `xs` gives finite values to all variables, and every basic variable
    /// the value of its row, part by part.
    pub open spec fn satisfies_rows(self, xs: Seq<IRatio>) -> bool {
        let n = self.num_vars() as int;
        &&& xs.len() == n
        &&& forall|v: int| 0 <= v < n ==> (#[trigger] xs[v]).wf() && xs[v].real is Fin
        &&& forall|b: int|
            0 <= b < n && #[trigger] self.basic(b) ==> {
                &&& fin_part(xs[b]).eqv(dot(coefs(self.row_of(b)@), value_reals(xs), n))
                &&& xs[b].eps.eqv(dot(coefs(self.row_of(b)@), value_eps(xs), n))
            }
    }

    /// The combinations `a` and `b` have the same value, part by part, under
    /// every assignment that satisfies the rows.
    pub open spec fn same_under_rows(self, a: Map<usize, Fraction>, b: Map<usize, Fraction>) -> bool {
        let n = self.num_vars() as int;
        forall|xs: Seq<IRatio>|
            #[trigger] self.satisfies_rows(xs) ==> {
                &&& dot(coefs(a), value_reals(xs), n).eqv(dot(coefs(b), value_reals(xs), n))
                &&& dot(coefs(a), value_eps(xs), n).eqv(dot(coefs(b), value_eps(xs), n))
            }
    }

    /// Replacing the basic `b` in `c` by its row (`c2` is `c` without `b`
    /// plus the row times the coefficient of `b`) keeps the value under every
    /// assignment that satisfies the rows.
    proof fn lemma_subst_step(self, xs: Seq<IRatio>, c: Map<usize, Fraction>, c2: Map<usize, Fraction>, b: usize)
        requires
            self.wf(),
            self.satisfies_rows(xs),
            b < self.num_vars(),
            self.basic(b as int),
            c.contains_key(b),
            forall|v: usize| #[trigger] merged_entry(c.remove(b), self.row_of(b as int)@, c[b]@, c2, v),
        ensures
            dot(coefs(c), value_reals(xs), self.num_vars() as int).eqv(dot(coefs(c2), value_reals(xs), self.num_vars() as int)),
            dot(coefs(c), value_eps(xs), self.num_vars() as int).eqv(dot(coefs(c2), value_eps(xs), self.num_vars() as int)),
    {
        let n = self.num_vars() as int;
        let row = self.row_of(b as int)@;
        let gb = coefs(c);
        let ge = coefs(row);
        let gn = coefs(c2);
        let fr = value_reals(xs);
        let fe = value_eps(xs);
        lemma_parts_wf(Seq::<InfRational>::empty(), c, n);
        lemma_parts_wf(Seq::<InfRational>::empty(), row, n);
        lemma_parts_wf(Seq::<InfRational>::empty(), c2, n);
        assert forall|v: int| 0 <= v < n implies (#[trigger] fr(v)).wf() by {
            assert(xs[v].wf());
        }
        assert forall|v: int| 0 <= v < n implies (#[trigger] fe(v)).wf() by {
            assert(xs[v].wf());
        }
        assert(c[b]@.fits());
        assert forall|v: int| 0 <= v < n implies (#[trigger] gn(v)).eqv(
            (if v == b {
                Ratio::zero()
            } else {
                gb(v)
            }).add(ge(v).mul(gb(b as int))),
        ) by {
            let x = v as usize;
            assert(x as int == v) by {
                assert(n <= usize::MAX) by {
                    assert(self.num_vars() <= usize::MAX);
                }
            }
            lemma_merged_coef(c.remove(b), row, c[b]@, c2, x);
            if v == b {
                assert(coef(c.remove(b), x) == Ratio::zero());
            } else {
                assert(coef(c.remove(b), x) == coef(c, x));
            }
        }
        lemma_dot_wf(ge, fr, n);
        lemma_dot_wf(ge, fe, n);
        assert(fr(b as int).wf() && fe(b as int).wf());
        lemma_eqv_sym(fin_part(xs[b as int]), dot(ge, fr, n));
        lemma_eqv_sym(xs[b as int].eps, dot(ge, fe, n));
        lemma_other_row_sum(gb, ge, gn, fr, b as int, n);
        lemma_other_row_sum(gb, ge, gn, fe, b as int, n);
    }

    /// Every assignment that satisfies the rows after a pivot satisfies them
    /// before it.
    proof fn lemma_rows_back(old: LraTheory, new: LraTheory, e: usize, l: usize, xs: Seq<IRatio>)
        requires
            old.wf(),
            e < old.num_vars(),
            l < old.num_vars(),
            old.basic(l as int),
            !old.basic(e as int),
            old.row_of(l as int)@.contains_key(e),
            old.row_of(l as int)@[e]@.num != 0,
            new.pivoted(old, e, l),
            new.num_vars() == old.num_vars(),
            new.satisfies_rows(xs),
        ensures
            old.satisfies_rows(xs),
    {
        let n = old.num_vars() as int;
        let fr = value_reals(xs);
        let fe = value_eps(xs);
        assert forall|v: int| 0 <= v < n implies (#[trigger] fr(v)).wf() by {
            assert(xs[v].wf());
        }
        assert forall|v: int| 0 <= v < n implies (#[trigger] fe(v)).wf() by {
            assert(xs[v].wf());
        }
        let old_l = old.row_of(l as int)@;
        let new_e = new.row_of(e as int)@;
        let gl = coefs(old_l);
        let ge = coefs(new_e);
        lemma_parts_wf(Seq::<InfRational>::empty(), old_l, n);
        lemma_parts_wf(Seq::<InfRational>::empty(), new_e, n);
        let c = old_l[e]@;
        assert(gl(e as int) == c);
        assert(!old_l.contains_key(l)) by {
            assert(old.tableau@[l as int] is Some);
            if old_l.contains_key(l) {
                assert(l != l);
            }
        }
        assert(gl(l as int) == Ratio::zero());
        assert(e != l);
        assert forall|v: int| 0 <= v < n && v != e && v != l implies (#[trigger] ge(v)).eqv(
            gl(v).mul(Ratio::of_int(1).div(gl(e as int).neg())),
        ) by {
            let x = v as usize;
            assert(x as int == v);
            let m = Ratio::of_int(1).div(c.neg());
            assert(gl(e as int).neg() == c.neg());
            if !old_l.contains_key(x) {
                assert(!new_e.contains_key(x));
                assert(ge(v) == Ratio::zero());
                assert(gl(v) == Ratio::zero());
                lemma_zero_valued(m, Ratio::zero());
                let t = Ratio::zero().mul(m);
                assert(Ratio::zero().eqv(t)) by (nonlinear_arith)
                    requires
                        t.num == 0,
                ;
            } else {
                assert(new_e.contains_key(x));
                assert(ge(v) == new_e[x]@);
                assert(gl(v) == old_l[x]@);
            }
        }
        assert(new.basic(e as int));
        lemma_dot_wf(ge, fr, n);
        lemma_dot_wf(ge, fe, n);
        lemma_eqv_sym(fin_part(xs[e as int]), dot(ge, fr, n));
        lemma_eqv_sym(xs[e as int].eps, dot(ge, fe, n));
        lemma_leaving_sum(gl, ge, fr, e as int, l as int, n);
        lemma_leaving_sum(gl, ge, fe, e as int, l as int, n);
        assert forall|b: int| 0 <= b < n && #[trigger] old.basic(b) implies {
            &&& fin_part(xs[b]).eqv(dot(coefs(old.row_of(b)@), value_reals(xs), n))
            &&& xs[b].eps.eqv(dot(coefs(old.row_of(b)@), value_eps(xs), n))
        } by {
            lemma_parts_wf(Seq::<InfRational>::empty(), old.row_of(b)@, n);
            if b == l {
                lemma_dot_wf(gl, fr, n);
                lemma_dot_wf(gl, fe, n);
                lemma_eqv_sym(dot(gl, fr, n), fr(l as int));
                lemma_eqv_sym(dot(gl, fe, n), fe(l as int));
            } else {
                assert(b != e);
                assert(new.basic(b));
                let old_b = old.row_of(b)@;
                let new_b = new.row_of(b)@;
                let gb = coefs(old_b);
                let gn = coefs(new_b);
                lemma_parts_wf(Seq::<InfRational>::empty(), old_b, n);
                lemma_parts_wf(Seq::<InfRational>::empty(), new_b, n);
                if old_b.contains_key(e) {
                    assert forall|v: int| 0 <= v < n implies (#[trigger] gn(v)).eqv(
                        (if v == e {
                            Ratio::zero()
                        } else {
                            gb(v)
                        }).add(ge(v).mul(gb(e as int))),
                    ) by {
                        let x = v as usize;
                        assert(x as int == v);
                        assert(merged_entry(old_b.remove(e), new_e, old_b[e]@, new_b, x));
                        assert(old_b[e]@.fits());
                        lemma_merged_coef(old_b.remove(e), new_e, old_b[e]@, new_b, x);
                        if v == e {
                            assert(coef(old_b.remove(e), x) == Ratio::zero());
                        } else {
                            assert(coef(old_b.remove(e), x) == coef(old_b, x));
                        }
                    }
                    lemma_other_row_sum(gb, ge, gn, fr, e as int, n);
                    lemma_other_row_sum(gb, ge, gn, fe, e as int, n);
                    lemma_dot_wf(gb, fr, n);
                    lemma_dot_wf(gb, fe, n);
                    lemma_dot_wf(gn, fr, n);
                    lemma_dot_wf(gn, fe, n);
                    assert(fr(b).wf() && fe(b).wf());
                    lemma_eqv_sym(dot(gb, fr, n), dot(gn, fr, n));
                    lemma_eqv_sym(dot(gb, fe, n), dot(gn, fe, n));
                    lemma_eqv_trans(fr(b), dot(gn, fr, n), dot(gb, fr, n));
                    lemma_eqv_trans(fe(b), dot(gn, fe, n), dot(gb, fe, n));
                } else {
                    assert(new_b == old_b);
                }
            }
        }
    }

    /// A canonical form of `r` has the value of `r` under every assignment
    /// that satisfies the rows.
    proof fn lemma_canonical_same(self, r: Map<usize, Fraction>, c: Map<usize, Fraction>)
        requires
            self.wf(),
            forall|x: usize| #[trigger] c.contains_key(x) ==> x < self.num_vars() && !self.basic(x as int),
            forall|x: usize|
                x < self.num_vars() && !self.basic(x as int) ==> (#[trigger] coef(c, x)).eqv(
                    coef(r, x).add(self.subst_sum(r, x, self.num_vars() as int)),
                ),
        ensures
            self.same_under_rows(r, c),
    {
        let n = self.num_vars() as int;
        assert forall|xs: Seq<IRatio>| #[trigger] self.satisfies_rows(xs) implies {
            &&& dot(coefs(r), value_reals(xs), n).eqv(dot(coefs(c), value_reals(xs), n))
            &&& dot(coefs(r), value_eps(xs), n).eqv(dot(coefs(c), value_eps(xs), n))
        } by {
            let fr = value_reals(xs);
            let fe = value_eps(xs);
            assert forall|v: int| 0 <= v < n implies (#[trigger] fr(v)).wf() by {
                assert(xs[v].wf());
            }
            assert forall|v: int| 0 <= v < n implies (#[trigger] fe(v)).wf() by {
                assert(xs[v].wf());
            }
            assert forall|b: int| 0 <= b < n && #[trigger] self.basic(b) implies fr(b).eqv(dot(coefs(self.row_of(b)@), fr, n)) by {
                lemma_eqv_sym(fr(b), dot(coefs(self.row_of(b)@), fr, n));
            }
            assert forall|b: int| 0 <= b < n && #[trigger] self.basic(b) implies fe(b).eqv(dot(coefs(self.row_of(b)@), fe, n)) by {
                lemma_eqv_sym(fe(b), dot(coefs(self.row_of(b)@), fe, n));
            }
            self.lemma_canonical_value(r, c, fr);
            self.lemma_canonical_value(r, c, fe);
        }
    }

    /// The current assignment satisfies the rows.
    proof fn lemma_current_satisfies(self)
        requires
            self.wf(),
        ensures
            self.satisfies_rows(self.current_values()),
    {
        let n = self.num_vars() as int;
        let xs = self.current_values();
        assert forall|v: int| 0 <= v < n implies (#[trigger] xs[v]).wf() && xs[v].real is Fin by {
            self.lemma_val_finite(v);
        }
        assert forall|b: int| 0 <= b < n && #[trigger] self.basic(b) implies {
            &&& fin_part(xs[b]).eqv(dot(coefs(self.row_of(b)@), value_reals(xs), n))
            &&& xs[b].eps.eqv(dot(coefs(self.row_of(b)@), value_eps(xs), n))
        } by {
            let g = coefs(self.row_of(b)@);
            assert(self.tableau@[b] is Some);
            lemma_parts_wf(self.reals@, self.row_of(b)@, n);
            assert forall|v: int| 0 <= v < n implies (#[trigger] value_reals(xs)(v)).wf() by {
                assert(xs[v].wf());
            }
            assert forall|v: int| 0 <= v < n implies (#[trigger] value_eps(xs)(v)).wf() by {
                assert(xs[v].wf());
            }
            assert forall|v: int| 0 <= v < n implies (#[trigger] g(v)).eqv(g(v)) by {
                lemma_eqv_refl(g(v));
            }
            assert forall|v: int| 0 <= v < n implies (#[trigger] g(v)).num == 0 || real_parts(self.reals@)(v) == value_reals(xs)(v) by {}
            assert forall|v: int| 0 <= v < n implies (#[trigger] g(v)).num == 0 || eps_parts(self.reals@)(v) == value_eps(xs)(v) by {}
            lemma_dot_congr(g, g, real_parts(self.reals@), value_reals(xs), n);
            lemma_dot_congr(g, g, eps_parts(self.reals@), value_eps(xs), n);
            lemma_dot_wf(g, real_parts(self.reals@), n);
            lemma_dot_wf(g, eps_parts(self.reals@), n);
            lemma_eqv_trans(fin_part(xs[b]), dot(g, real_parts(self.reals@), n), dot(g, value_reals(xs), n));
            lemma_eqv_trans(xs[b].eps, dot(g, eps_parts(self.reals@), n), dot(g, value_eps(xs), n));
        }
    }

    /// The value of a row over existing variables, part by part, as a sum
    /// over the current assignment.
    proof fn lemma_row_eval_parts(self, row: SparseRow)
        requires
            self.wf(),
            row.wf(),
            forall|x: usize| #[trigger] row@.contains_key(x) ==> x < self.num_vars(),
        ensures
            self.row_eval(row.seq()).real is Fin,
            self.row_eval(row.seq()).wf(),
            fin_part(self.row_eval(row.seq())).eqv(dot(coefs(row@), value_reals(self.current_values()), self.num_vars() as int)),
            self.row_eval(row.seq()).eps.eqv(dot(coefs(row@), value_eps(self.current_values()), self.num_vars() as int)),
    {
        let n = self.num_vars() as int;
        let xs = self.current_values();
        row.lemma_entries();
        assert forall|k: int| 0 <= k < row.seq().len() implies (#[trigger] row.seq()[k]).0 < n by {
            lemma_coeff_at(row.seq(), k);
        }
        self.lemma_row_eval_dot(row.seq(), n);
        let g = coefs(row@);
        lemma_parts_wf(self.reals@, row@, n);
        assert forall|v: int| 0 <= v < n implies (#[trigger] value_reals(xs)(v)).wf() by {
            self.lemma_val_finite(v);
        }
        assert forall|v: int| 0 <= v < n implies (#[trigger] value_eps(xs)(v)).wf() by {
            self.lemma_val_finite(v);
        }
        assert forall|v: int| 0 <= v < n implies (#[trigger] g(v)).eqv(g(v)) by {
            lemma_eqv_refl(g(v));
        }
        assert forall|v: int| 0 <= v < n implies (#[trigger] g(v)).num == 0 || real_parts(self.reals@)(v) == value_reals(xs)(v) by {}
        assert forall|v: int| 0 <= v < n implies (#[trigger] g(v)).num == 0 || eps_parts(self.reals@)(v) == value_eps(xs)(v) by {}
        lemma_dot_congr(g, g, real_parts(self.reals@), value_reals(xs), n);
        lemma_dot_congr(g, g, eps_parts(self.reals@), value_eps(xs), n);
        lemma_dot_wf(g, real_parts(self.reals@), n);
        lemma_dot_wf(g, eps_parts(self.reals@), n);
        let re = self.row_eval(row.seq());
        lemma_eqv_trans(fin_part(re), dot(g, real_parts(self.reals@), n), dot(g, value_reals(xs), n));
        lemma_eqv_trans(re.eps, dot(g, eps_parts(self.reals@), n), dot(g, value_eps(xs), n));
    }

    /// Tableaux with the same basic variables and rows are satisfied by the
    /// same assignments.
    proof fn lemma_same_under_frame(self, other: LraTheory, a: Map<usize, Fraction>, b: Map<usize, Fraction>)
        requires
            other.same_under_rows(a, b),
            self.num_vars() == other.num_vars(),
            forall|v: int| 0 <= v < other.num_vars() ==> #[trigger] self.basic(v) == other.basic(v),
            forall|v: int| 0 <= v < other.num_vars() && other.basic(v) ==> #[trigger] self.row_of(v) == other.row_of(v),
        ensures
            self.same_under_rows(a, b),
    {
        assert forall|xs: Seq<IRatio>| #[trigger] self.satisfies_rows(xs) implies other.satisfies_rows(xs) by {
            assert forall|b: int| 0 <= b < other.num_vars() && #[trigger] other.basic(b) implies {
                &&& fin_part(xs[b]).eqv(dot(coefs(other.row_of(b)@), value_reals(xs), other.num_vars() as int))
                &&& xs[b].eps.eqv(dot(coefs(other.row_of(b)@), value_eps(xs), other.num_vars() as int))
            } by {
                assert(self.basic(b));
                assert(self.row_of(b) == other.row_of(b));
            }
        }
    }

    /// Having the same value under the rows chains along.
    proof fn lemma_same_chain(self, a: Map<usize, Fraction>, b: Map<usize, Fraction>, c: Map<usize, Fraction>, xs: Seq<IRatio>)
        requires
            self.satisfies_rows(xs),
            dot(coefs(a), value_reals(xs), self.num_vars() as int).eqv(dot(coefs(b), value_reals(xs), self.num_vars() as int)),
            dot(coefs(a), value_eps(xs), self.num_vars() as int).eqv(dot(coefs(b), value_eps(xs), self.num_vars() as int)),
            dot(coefs(b), value_reals(xs), self.num_vars() as int).eqv(dot(coefs(c), value_reals(xs), self.num_vars() as int)),
            dot(coefs(b), value_eps(xs), self.num_vars() as int).eqv(dot(coefs(c), value_eps(xs), self.num_vars() as int)),
        ensures
            dot(coefs(a), value_reals(xs), self.num_vars() as int).eqv(dot(coefs(c), value_reals(xs), self.num_vars() as int)),
            dot(coefs(a), value_eps(xs), self.num_vars() as int).eqv(dot(coefs(c), value_eps(xs), self.num_vars() as int)),
    {
        let n = self.num_vars() as int;
        assert forall|v: int| 0 <= v < n implies (#[trigger] value_reals(xs)(v)).wf() by {
            assert(xs[v].wf());
        }
        assert forall|v: int| 0 <= v < n implies (#[trigger] value_eps(xs)(v)).wf() by {
            assert(xs[v].wf());
        }
        lemma_parts_wf(Seq::<InfRational>::empty(), b, n);
        lemma_dot_wf(coefs(b), value_reals(xs), n);
        lemma_dot_wf(coefs(b), value_eps(xs), n);
        lemma_eqv_trans(dot(coefs(a), value_reals(xs), n), dot(coefs(b), value_reals(xs), n), dot(coefs(c), value_reals(xs), n));
        lemma_eqv_trans(dot(coefs(a), value_eps(xs), n), dot(coefs(b), value_eps(xs), n), dot(coefs(c), value_eps(xs), n));
    }

    /// The value found by optimisation is that of the objective under the
    /// current assignment.
    proof fn lemma_optimum_value(self, goal: SparseRow, row: SparseRow, v: IRatio)
        requires
            self.wf(),
            goal.wf(),
            forall|x: usize| #[trigger] goal@.contains_key(x) ==> x < self.num_vars(),
            self.over_non_basic(row),
            self.same_under_rows(goal@, row@),
            v.eqv(self.row_eval(row.seq())),
            v.real is Fin,
            v.wf(),
        ensures
            v.eqv(self.row_eval(goal.seq())),
    {
        let n = self.num_vars() as int;
        let xs = self.current_values();
        self.lemma_current_satisfies();
        self.lemma_row_eval_parts(goal);
        self.lemma_row_eval_parts(row);
        let rg = self.row_eval(goal.seq());
        let rr = self.row_eval(row.seq());
        let (dg, dge) = (dot(coefs(goal@), value_reals(xs), n), dot(coefs(goal@), value_eps(xs), n));
        let (dr, dre) = (dot(coefs(row@), value_reals(xs), n), dot(coefs(row@), value_eps(xs), n));
        assert forall|u: int| 0 <= u < n implies (#[trigger] value_reals(xs)(u)).wf() by {
            self.lemma_val_finite(u);
        }
        assert forall|u: int| 0 <= u < n implies (#[trigger] value_eps(xs)(u)).wf() by {
            self.lemma_val_finite(u);
        }
        lemma_parts_wf(Seq::<InfRational>::empty(), goal@, n);
        lemma_parts_wf(Seq::<InfRational>::empty(), row@, n);
        lemma_dot_wf(coefs(goal@), value_reals(xs), n);
        lemma_dot_wf(coefs(goal@), value_eps(xs), n);
        lemma_dot_wf(coefs(row@), value_reals(xs), n);
        lemma_dot_wf(coefs(row@), value_eps(xs), n);
        // rr ~ dr ~ dg ~ rg, part by part
        lemma_eqv_sym(dg, dr);
        lemma_eqv_sym(dge, dre);
        lemma_eqv_trans(fin_part(rr), dr, dg);
        lemma_eqv_trans(rr.eps, dre, dge);
        lemma_eqv_sym(fin_part(rg), dg);
        lemma_eqv_sym(rg.eps, dge);
        lemma_eqv_trans(fin_part(rr), dg, fin_part(rg));
        lemma_eqv_trans(rr.eps, dge, rg.eps);
        assert(rr.eqv(rg));
        crate::rational::lemma_iratio_eqv(v, rr, rg);
    }

    /// The current values of all variables.
    pub open spec fn current_values(self) -> Seq<IRatio> {
        Seq::new(self.num_vars(), |v: int| self.val(v))
    }

    /// Evaluating a combination under the current assignment.
    proof fn lemma_row_eval_with(self, s: Seq<(usize, Fraction)>)
        requires
            forall|k: int| 0 <= k < s.len() ==> (#[trigger] s[k]).0 < self.num_vars(),
        ensures
            self.row_eval(s) == eval_with(self.current_values(), s),
        decreases s.len(),
    {
        if s.len() > 0 {
            let p = s.drop_last();
            assert forall|k: int| 0 <= k < p.len() implies (#[trigger] p[k]).0 < self.num_vars() by {
                assert(p[k] == s[k]);
            }
            self.lemma_row_eval_with(p);
            assert(s[s.len() - 1] == s.last());
        }
    }

    /// The conflicts of [`LraTheory::check`] are sound: when the basic
    /// variable `leaving` violates a bound and no variable of its row can move
    /// to repair it, no assignment `xs` satisfies the row of `leaving`
    /// together with the violated bound and the bounds that block the row's
    /// variables (the bounds whose literals the conflict lists).
    pub proof fn lemma_conflict_infeasible(self, leaving: int, below: bool)
        requires
            self.wf(),
            0 <= leaving < self.num_vars(),
            self.basic(leaving),
            self.violated(leaving, below),
            forall|v: usize| #[trigger] self.row_of(leaving)@.contains_key(v) ==> !self.can_move(leaving, below, v),
        ensures
            forall|xs: Seq<IRatio>| !#[trigger] self.meets_conflict(leaving, below, xs),
    {
        assert forall|xs: Seq<IRatio>| !#[trigger] self.meets_conflict(leaving, below, xs) by {
            if self.meets_conflict(leaving, below, xs) {
                self.lemma_conflict_contradiction(leaving, below, xs);
            }
        }
    }

    /// `xs` gives finite values to all variables, satisfies the row of
    /// `leaving`, the bound of `leaving` on the side `below`, and the bound of
    /// each variable of the row that keeps it from repairing `leaving`.
    pub open spec fn meets_conflict(self, leaving: int, below: bool, xs: Seq<IRatio>) -> bool {
        &&& xs.len() == self.num_vars()
        &&& forall|v: int| 0 <= v < xs.len() ==> (#[trigger] xs[v]).wf() && xs[v].real is Fin
        &&& xs[leaving].eqv(eval_with(xs, self.row_of(leaving).seq()))
        &&& below ==> self.lb_of(leaving).le(xs[leaving])
        &&& !below ==> xs[leaving].le(self.ub_of(leaving))
        &&& forall|v: usize| #[trigger]
            self.row_of(leaving)@.contains_key(v) ==> if below == (self.row_of(leaving)@[v]@.num > 0) {
                xs[v as int].le(self.ub_of(v as int))
            } else {
                self.lb_of(v as int).le(xs[v as int])
            }
    }

    proof fn lemma_conflict_contradiction(self, leaving: int, below: bool, xs: Seq<IRatio>)
        requires
            self.wf(),
            0 <= leaving < self.num_vars(),
            self.basic(leaving),
            self.violated(leaving, below),
            forall|v: usize| #[trigger] self.row_of(leaving)@.contains_key(v) ==> !self.can_move(leaving, below, v),
            self.meets_conflict(leaving, below, xs),
        ensures
            !self.meets_conflict(leaving, below, xs),
    {
        let n = self.num_vars();
        let row = self.row_of(leaving);
        let s = row.seq();
        let vals = self.current_values();
        assert(self.tableau@[leaving] is Some);
        row.lemma_entries();
        assert forall|k: int| 0 <= k < s.len() implies (#[trigger] s[k]).0 < n by {
            lemma_coeff_at(s, k);
        }
        self.lemma_row_eval_with(s);
        self.lemma_basic_value(leaving);
        assert forall|k: int| 0 <= k < s.len() implies {
            let v = (#[trigger] s[k]).0 as int;
            &&& 0 <= v < xs.len()
            &&& 0 <= v < vals.len()
            &&& xs[v].wf() && vals[v].wf() && xs[v].real is Fin && vals[v].real is Fin
            &&& if below {
                xs[v].scale(s[k].1@).le(vals[v].scale(s[k].1@))
            } else {
                vals[v].scale(s[k].1@).le(xs[v].scale(s[k].1@))
            }
        } by {
            lemma_coeff_at(s, k);
            let (x, c) = s[k];
            let v = x as int;
            assert(row@.contains_key(x));
            assert(row@[x] == c);
            assert(c@.fits());
            assert(self.tableau@[v] is None);
            assert(self.in_bounds(v));
            self.lemma_val_finite(v);
            let lo = self.lb_of(v);
            let hi = self.ub_of(v);
            assert(lo.wf() && hi.wf());
            lemma_iratio_trichotomy(vals[v], hi);
            lemma_iratio_trichotomy(lo, vals[v]);
            if below == (c@.num > 0) {
                // xs[v] <= hi <= vals[v] (or the coefficient is zero)
                if c@.num != 0 {
                    crate::rational::lemma_iratio_le_trans(xs[v], hi, vals[v]);
                }
            } else {
                if c@.num != 0 {
                    crate::rational::lemma_iratio_le_trans(vals[v], lo, xs[v]);
                }
            }
            crate::rational::lemma_iratio_trichotomy(xs[v], vals[v]);
            if c@.num != 0 {
                if below == (c@.num > 0) {
                    lemma_scale_order(xs[v], vals[v], c@);
                } else {
                    lemma_scale_order(vals[v], xs[v], c@);
                }
            } else if xs[v].le(vals[v]) {
                lemma_scale_order(xs[v], vals[v], c@);
            } else {
                lemma_scale_order(vals[v], xs[v], c@);
            }
            crate::rational::lemma_iratio_eqv(xs[v], xs[v], xs[v]);
            crate::rational::lemma_iratio_eqv(vals[v], vals[v], vals[v]);
        }
        let ex = eval_with(xs, s);
        let ev = eval_with(vals, s);
        self.lemma_val_finite(leaving);
        if below {
            lemma_eval_order(xs, vals, s);
            // ex <= ev ~ val(leaving) < lb(leaving) <= xs[leaving] ~ ex
            crate::rational::lemma_iratio_eqv(self.val(leaving), ev, ev);
            crate::rational::lemma_iratio_eqv_order(ev, self.val(leaving), self.lb_of(leaving));
            crate::rational::lemma_iratio_le_trans(ex, ev, self.lb_of(leaving));
            crate::rational::lemma_iratio_le_trans(ex, self.lb_of(leaving), xs[leaving]);
            crate::rational::lemma_iratio_eqv_order(xs[leaving], ex, ex);
            crate::rational::lemma_iratio_trichotomy(ex, ex);
        } else {
            lemma_eval_order(vals, xs, s);
            // ex ~ xs[leaving] <= ub(leaving) < val(leaving) ~ ev <= ex
            crate::rational::lemma_iratio_eqv(self.val(leaving), ev, ev);
            crate::rational::lemma_iratio_eqv_order(ev, self.val(leaving), self.ub_of(leaving));
            crate::rational::lemma_iratio_eqv_order(xs[leaving], ex, self.ub_of(leaving));
            crate::rational::lemma_iratio_le_trans(ex, self.ub_of(leaving), ev);
            crate::rational::lemma_iratio_le_trans(ex, ev, ex);
            crate::rational::lemma_iratio_trichotomy(ex, ex);
        }
    }

    /// In every consistent state each value is finite.
    pub proof fn lemma_val_finite(self, v: int)
        requires
            self.wf(),
            0 <= v < self.num_vars(),
        ensures
            self.val(v).real is Fin,
            self.val(v).wf(),
    {
    }

    /// In every consistent state each basic variable has the value of its
    /// row under the current assignment.
    pub proof fn lemma_basic_value(self, b: int)
        requires
            self.wf(),
            0 <= b < self.num_vars(),
            self.basic(b),
        ensures
            self.val(b).eqv(self.row_eval(self.row_of(b).seq())),
    {
        let n = self.reals@.len() as int;
        let row = self.row_of(b);
        assert(self.tableau@[b] is Some);
        row.lemma_entries();
        assert forall|k: int| 0 <= k < row.seq().len() implies (#[trigger] row.seq()[k]).0 < n by {
            lemma_coeff_at(row.seq(), k);
        }
        self.lemma_row_eval_dot(row.seq(), n);
        let g = coefs(row@);
        let re = self.row_eval(row.seq());
        lemma_parts_wf(self.reals@, row@, n);
        lemma_dot_wf(g, real_parts(self.reals@), n);
        lemma_dot_wf(g, eps_parts(self.reals@), n);
        assert(self.val(b).wf() && re.wf());
        lemma_eqv_sym(fin_part(re), dot(g, real_parts(self.reals@), n));
        lemma_eqv_sym(re.eps, dot(g, eps_parts(self.reals@), n));
        lemma_eqv_trans(fin_part(self.val(b)), dot(g, real_parts(self.reals@), n), fin_part(re));
        lemma_eqv_trans(self.val(b).eps, dot(g, eps_parts(self.reals@), n), re.eps);
    }

    /// A pivot keeps every basic variable at the value of its row.
    proof fn lemma_rows_pivoted(old: LraTheory, new: LraTheory, e: usize, l: usize)
        requires
            old.wf_except(e as int),
            old.rows_hold(),
            old.num_vars() <= usize::MAX,
            e < old.num_vars(),
            l < old.num_vars(),
            old.basic(l as int),
            !old.basic(e as int),
            old.row_of(l as int)@.contains_key(e),
            old.row_of(l as int)@[e]@.num != 0,
            new.pivoted(old, e, l),
            new.reals == old.reals,
            new.tableau@.len() == old.tableau@.len(),
        ensures
            new.rows_hold(),
    {
        let n = old.reals@.len() as int;
        let vals = old.reals@;
        let fr = real_parts(vals);
        let fe = eps_parts(vals);
        let old_l = old.row_of(l as int)@;
        let new_e = new.row_of(e as int)@;
        let gl = coefs(old_l);
        let ge = coefs(new_e);
        lemma_parts_wf(vals, old_l, n);
        lemma_parts_wf(vals, new_e, n);
        let c = old_l[e]@;
        assert(gl(e as int) == c);
        assert(!old_l.contains_key(l)) by {
            assert(old.tableau@[l as int] is Some);
            if old_l.contains_key(l) {
                assert(l != l);
            }
        }
        assert(gl(l as int) == Ratio::zero());
        assert(ge(l as int).eqv(Ratio::of_int(1).div(gl(e as int))));
        assert(ge(e as int) == Ratio::zero());
        assert(e != l);
        assert forall|v: int| 0 <= v < n && v != e && v != l implies (#[trigger] ge(v)).eqv(
            gl(v).mul(Ratio::of_int(1).div(gl(e as int).neg())),
        ) by {
            let x = v as usize;
            assert(x as int == v);
            let m = Ratio::of_int(1).div(c.neg());
            assert(gl(e as int).neg() == c.neg());
            if !old_l.contains_key(x) {
                assert(!new_e.contains_key(x));
                assert(ge(v) == Ratio::zero());
                assert(gl(v) == Ratio::zero());
                lemma_zero_valued(m, Ratio::zero());
                let t = Ratio::zero().mul(m);
                assert(Ratio::zero().eqv(t)) by (nonlinear_arith)
                    requires
                        t.num == 0,
                ;
            } else {
                assert(new_e.contains_key(x));
                assert(new_e[x]@.eqv(old_l[x]@.mul(m)));
                assert(ge(v) == new_e[x]@);
                assert(gl(v) == old_l[x]@);
            }
        }
        assert(dot(gl, fr, n).eqv(fr(l as int))) by {
            lemma_eqv_sym(fin_part(vals[l as int]@), dot(gl, fr, n));
        }
        assert(dot(gl, fe, n).eqv(fe(l as int))) by {
            lemma_eqv_sym(vals[l as int]@.eps, dot(gl, fe, n));
        }
        lemma_entering_sum(gl, ge, fr, e as int, l as int, n);
        lemma_entering_sum(gl, ge, fe, e as int, l as int, n);
        assert forall|b: int| 0 <= b < n && #[trigger] new.tableau@[b] is Some implies {
            let g = coefs(new.tableau@[b]->0@);
            &&& fin_part(new.reals@[b]@).eqv(dot(g, real_parts(new.reals@), n))
            &&& new.reals@[b]@.eps.eqv(dot(g, eps_parts(new.reals@), n))
        } by {
            assert(new.basic(b));
            if b == e {
                lemma_eqv_sym(dot(ge, fr, n), fr(e as int));
                lemma_eqv_sym(dot(ge, fe, n), fe(e as int));
            } else {
                assert(b != l);
                assert(old.basic(b));
                let old_b = old.row_of(b)@;
                let new_b = new.row_of(b)@;
                let gb = coefs(old_b);
                let gn = coefs(new_b);
                lemma_parts_wf(vals, old_b, n);
                lemma_parts_wf(vals, new_b, n);
                if old_b.contains_key(e) {
                    assert forall|v: int| 0 <= v < n implies (#[trigger] gn(v)).eqv(
                        (if v == e {
                            Ratio::zero()
                        } else {
                            gb(v)
                        }).add(ge(v).mul(gb(e as int))),
                    ) by {
                        let x = v as usize;
                        assert(x as int == v);
                        assert(merged_entry(old_b.remove(e), new_e, old_b[e]@, new_b, x));
                        assert(old_b[e]@.fits());
                        lemma_merged_coef(old_b.remove(e), new_e, old_b[e]@, new_b, x);
                        if v == e {
                            assert(coef(old_b.remove(e), x) == Ratio::zero());
                        } else {
                            assert(coef(old_b.remove(e), x) == coef(old_b, x));
                        }
                    }
                    lemma_other_row_sum(gb, ge, gn, fr, e as int, n);
                    lemma_other_row_sum(gb, ge, gn, fe, e as int, n);
                    lemma_dot_wf(gb, fr, n);
                    lemma_dot_wf(gb, fe, n);
                    lemma_eqv_trans(fin_part(vals[b]@), dot(gb, fr, n), dot(gn, fr, n));
                    lemma_eqv_trans(vals[b]@.eps, dot(gb, fe, n), dot(gn, fe, n));
                } else {
                    assert(new_b == old_b);
                }
            }
        }
    }

    /// Values, bounds and rows are consistent.
    pub closed spec fn wf(self) -> bool {
        self.wf_except(-1)
    }

    /// Values, bounds and rows are consistent, except that the non-basic
    /// variable `x` may lie outside its bounds.
    pub closed spec fn wf_except(self, x: int) -> bool {
        let n = self.reals@.len();
        &&& n <= usize::MAX
        &&& self.rows_hold()
        &&& self.ints@.len() == n
        &&& self.lbs@.len() == n
        &&& self.ubs@.len() == n
        &&& self.tableau@.len() == n
        &&& forall|v: int| 0 <= v < n ==> (#[trigger] self.reals@[v])@.real is Fin
        &&& forall|b: int|
            0 <= b < n && #[trigger] self.tableau@[b] is Some ==> {
                let row = self.tableau@[b]->0;
                &&& row.wf()
                &&& forall|x: usize|
                    #[trigger] row@.contains_key(x) ==> (x < n && self.tableau@[x as int] is None && x != b)
            }
        &&& forall|v: int| 0 <= v < n && v != x && #[trigger] self.tableau@[v] is None ==> self.in_bounds(v)
        &&& forall|v: int| 0 <= v < n ==> (#[trigger] self.lbs@[v]).1@.le(self.ubs@[v].1@)
        &&& forall|k: int| 0 <= k < self.bound_trail@.len() ==> (#[trigger] self.bound_trail@[k]).var() < n
        &&& forall|k: int|
            0 <= k < self.bound_trail@.len() ==> {
                let e = #[trigger] self.bound_trail@[k];
                if e.lower() {
                    e.value().le(self.lbs@[e.var() as int].1@)
                } else {
                    self.ubs@[e.var() as int].1@.le(e.value())
                }
            }
        &&& forall|p: int, q: int|
            0 <= p < q < self.bound_trail@.len() && (#[trigger] self.bound_trail@[p]).var() == (#[trigger] self.bound_trail@[q]).var()
                && self.bound_trail@[p].lower() == self.bound_trail@[q].lower() ==> if self.bound_trail@[p].lower() {
                self.bound_trail@[p].value().le(self.bound_trail@[q].value())
            } else {
                self.bound_trail@[q].value().le(self.bound_trail@[p].value())
            }
        &&& forall|k: int| 0 <= k < self.trail_lim@.len() ==> #[trigger] self.trail_lim@[k] <= self.bound_trail@.len()
        &&& forall|k: int, l: int| 0 <= k <= l < self.trail_lim@.len() ==> self.trail_lim@[k] <= self.trail_lim@[l]
        &&& self.saved@.len() == self.trail_lim@.len()
        &&& forall|k: int|
            0 <= k < self.saved@.len() ==> {
                let (l, u) = undo_bounds(
                    self.lbs@,
                    self.ubs@,
                    self.bound_trail@.subrange(self.trail_lim@[k] as int, self.bound_trail@.len() as int),
                );
                let (sl, su) = #[trigger] self.saved@[k];
                &&& sl.len() <= n
                &&& su.len() == sl.len()
                &&& l.take(sl.len() as int) == sl
                &&& u.take(su.len() as int) == su
            }
        &&& forall|k: int|
            0 <= k < self.lin_to_slack@.len() ==> {
                &&& (#[trigger] self.lin_to_slack@[k]).1 < n
                &&& self.lin_to_slack@[k].0.wf()
            }
    }

    /// An empty theory.
    pub fn new() -> (r: LraTheory)
        ensures
            r.wf(),
            r.num_vars() == 0,
            r.levels() == 0,
    {
        LraTheory {
            ints: Vec::new(),
            reals: Vec::new(),
            lbs: Vec::new(),
            ubs: Vec::new(),
            lin_to_slack: Vec::new(),
            tableau: Vec::new(),
            bound_trail: Vec::new(),
            trail_lim: Vec::new(),
            saved: Ghost(Seq::empty()),
        }
    }

    /// The value zero.
    pub fn zero() -> (r: InfRational)
        ensures
            r@ == IRatio::of_int(0),
    {
        InfRational::from_int(0)
    }

    /// The value `-∞`.
    pub fn negative_inf() -> (r: InfRational)
        ensures
            r@ == IRatio::neg_inf(),
            r == InfRational::neg_inf_spec(),
    {
        InfRational::negative_inf()
    }

    /// The value `+∞`.
    pub fn positive_inf() -> (r: InfRational)
        ensures
            r@ == IRatio::pos_inf(),
            r == InfRational::pos_inf_spec(),
    {
        InfRational::positive_inf()
    }

    /// Adds a variable with value zero and no bounds.
    fn mk_var(&mut self, is_int: bool) -> (r: usize)
        requires
            old(self).wf(),
            old(self).num_vars() < usize::MAX,
        ensures
            final(self).wf(),
            r == old(self).num_vars(),
            final(self).num_vars() == old(self).num_vars() + 1,
            final(self).int_var(r as int) == is_int,
            final(self).val(r as int) == IRatio::of_int(0),
            final(self).lower_bounds() == old(self).lower_bounds().push((None::<Lit>, InfRational::neg_inf_spec())),
            final(self).upper_bounds() == old(self).upper_bounds().push((None::<Lit>, InfRational::pos_inf_spec())),
            !final(self).basic(r as int),
            forall|v: int| 0 <= v < r ==> final(self).val(v) == old(self).val(v),
            forall|v: int| 0 <= v < r ==> final(self).int_var(v) == old(self).int_var(v),
            forall|v: int| 0 <= v < r ==> final(self).basic(v) == old(self).basic(v),
            forall|v: int| 0 <= v < r && old(self).basic(v) ==> final(self).row_of(v) == old(self).row_of(v),
            final(self).levels() == old(self).levels(),
            forall|k: int| 0 <= k < old(self).levels() ==> final(self).saved_at(k) == old(self).saved_at(k),
    {
        let var = self.reals.len();
        let ghost old_l = self.lbs@;
        let ghost old_u = self.ubs@;
        let ghost trail = self.bound_trail@;
        let lo = Self::negative_inf();
        let hi = Self::positive_inf();
        self.ints.push(is_int);
        self.reals.push(Self::zero());
        self.lbs.push((None, lo));
        self.ubs.push((None, hi));
        self.tableau.push(None);
        proof {
            assert(lo == InfRational::neg_inf_spec());
            assert(hi == InfRational::pos_inf_spec());
            assert forall|k: int| 0 <= k < self.saved@.len() implies {
                let (l, u) = undo_bounds(
                    self.lbs@,
                    self.ubs@,
                    self.bound_trail@.subrange(self.trail_lim@[k] as int, self.bound_trail@.len() as int),
                );
                let (sl, su) = #[trigger] self.saved@[k];
                &&& sl.len() <= self.reals@.len()
                &&& su.len() == sl.len()
                &&& l.take(sl.len() as int) == sl
                &&& u.take(su.len() as int) == su
            } by {
                let sub = trail.subrange(self.trail_lim@[k] as int, trail.len() as int);
                assert forall|q: int| 0 <= q < sub.len() implies (#[trigger] sub[q]).var() < old_l.len() by {
                    assert(sub[q] == trail[self.trail_lim@[k] + q]);
                }
                lemma_undo_push(old_l, old_u, sub, (None, lo), (None, hi));
                let (l0, u0) = undo_bounds(old_l, old_u, sub);
                let (sl, su) = self.saved@[k];
                assert(l0.push((None, lo)).take(sl.len() as int) =~= l0.take(sl.len() as int));
                assert(u0.push((None, hi)).take(su.len() as int) =~= u0.take(su.len() as int));
            }
            assert forall|b: int| 0 <= b < self.reals@.len() && #[trigger] self.tableau@[b] is Some implies {
                let row = self.tableau@[b]->0;
                &&& row.wf()
                &&& forall|x: usize|
                    #[trigger] row@.contains_key(x) ==> (x < self.reals@.len() && self.tableau@[x as int] is None && x != b)
            } by {
                assert(b < var);
            }
            assert(self.in_bounds(var as int)) by {
                lemma_iratio_trichotomy(IRatio::neg_inf(), IRatio::of_int(0));
                lemma_iratio_trichotomy(IRatio::of_int(0), IRatio::pos_inf());
            }
            Self::lemma_rows_extend(*old(self), *self);
        }
        var
    }
}

/// The clause `¬a ∨ ¬b` over the literals that are present.
pub open spec fn neg_lits(a: Option<Lit>, b: Option<Lit>) -> Seq<Lit> {
    (match a {
        Some(l) => seq![l.negated()],
        None => Seq::empty(),
    }) + (match b {
        Some(l) => seq![l.negated()],
        None => Seq::empty(),
    })
}

/// Adding a multiple of a null value leaves a finite value unchanged.
proof fn lemma_add_null(x: IRatio, d: IRatio, c: Ratio)
    requires
        x.wf(),
        d.wf(),
        c.wf(),
        x.real is Fin,
        d.real is Fin,
        d.eqv(IRatio::of_int(0)),
    ensures
        x.add(d.scale(c)).eqv(x),
{
    let xr = x.real->Fin_0;
    let dr = d.real->Fin_0;
    assert(dr.num == 0);
    assert(d.eps.num == 0);
    let p = dr.mul(c);
    let q = d.eps.mul(c);
    assert(p.num == 0) by (nonlinear_arith)
        requires
            p.num == dr.num * c.num,
            dr.num == 0,
    ;
    assert(q.num == 0) by (nonlinear_arith)
        requires
            q.num == d.eps.num * c.num,
            d.eps.num == 0,
    ;
    assert(xr.add(p).eqv(xr)) by (nonlinear_arith)
        requires
            p.num == 0,
    ;
    assert(x.eps.add(q).eqv(x.eps)) by (nonlinear_arith)
        requires
            q.num == 0,
    ;
}

impl LraTheory {
    /// `self` is `old` with `var` moved to `value`: every basic variable whose
    /// row holds `var` moves by the change times its coefficient; nothing else
    /// moves.
    pub open spec fn moved(self, old: LraTheory, var: int, value: IRatio) -> bool {
        &&& self.num_vars() == old.num_vars()
        &&& self.val(var).eqv(value)
        &&& forall|b: int|
            0 <= b < old.num_vars() && b != var ==> #[trigger] self.val(b) == (if old.basic(b) && old.row_of(
                b,
            )@.contains_key(var as usize) {
                self.val(b)
            } else {
                old.val(b)
            })
        &&& forall|b: int|
            0 <= b < old.num_vars() && old.basic(b) && #[trigger] old.row_of(b)@.contains_key(var as usize)
                ==> self.val(b).eqv(old.val(b).add(value.sub(old.val(var)).scale(old.row_of(b)@[var as usize]@)))
    }

    /// Rows, bounds, variable kinds and saved levels are those of `old`.
    pub open spec fn same_frame(self, old: LraTheory) -> bool {
        &&& self.num_vars() == old.num_vars()
        &&& self.lower_bounds() == old.lower_bounds()
        &&& self.upper_bounds() == old.upper_bounds()
        &&& forall|v: int| 0 <= v < old.num_vars() ==> #[trigger] self.basic(v) == old.basic(v)
        &&& forall|v: int| 0 <= v < old.num_vars() && old.basic(v) ==> #[trigger] self.row_of(v) == old.row_of(v)
        &&& forall|v: int| 0 <= v < old.num_vars() ==> #[trigger] self.int_var(v) == old.int_var(v)
        &&& self.levels() == old.levels()
        &&& forall|k: int| 0 <= k < old.levels() ==> #[trigger] self.saved_at(k) == old.saved_at(k)
    }

    /// Moves the non-basic variable `var` to `new_value`, moving every basic
    /// variable whose row holds `var` by the change times its coefficient.
    pub fn update(&mut self, var: usize, new_value: InfRational) -> (r: Result<(), LraError>)
        requires
            old(self).wf(),
            var < old(self).num_vars(),
            !old(self).basic(var as int),
            new_value@.real is Fin,
            old(self).lb_of(var as int).le(new_value@),
            new_value@.le(old(self).ub_of(var as int)),
        ensures
            final(self).wf(),
            final(self).same_frame(*old(self)),
            r is Ok || r == Err::<(), LraError>(LraError::Overflow),
            r is Err ==> *final(self) == *old(self),
            r is Ok ==> final(self).moved(*old(self), var as int, new_value@),
            final(self).slack_table() == old(self).slack_table(),
    {
        let n = self.reals.len();
        let delta = match new_value.checked_sub(&self.reals[var]) {
            Some(d) => d,
            None => {
                return Err(LraError::Overflow);
            },
        };
        let zero = Self::zero();
        if delta.eq_value(&zero) {
            proof {
                assert(self.val(var as int).eqv(new_value@)) by {
                    assert(delta@.wf());
                    assert(delta@.eqv(new_value@.sub(self.val(var as int))));
                    let a = new_value@;
                    let b = self.val(var as int);
                    let ar = a.real->Fin_0;
                    let br = b.real->Fin_0;
                    let dr = delta@.real->Fin_0;
                    assert(dr.num == 0);
                    assert(dr.num * ar.sub(br).den == ar.sub(br).num * dr.den);
                    assert(ar.sub(br).num == 0) by (nonlinear_arith)
                        requires
                            dr.num * ar.sub(br).den == ar.sub(br).num * dr.den,
                            dr.num == 0,
                            dr.den > 0,
                    ;
                    assert(delta@.eps.num == 0);
                    assert(a.eps.sub(b.eps).num == 0) by (nonlinear_arith)
                        requires
                            delta@.eps.num * a.eps.sub(b.eps).den == a.eps.sub(b.eps).num * delta@.eps.den,
                            delta@.eps.num == 0,
                            delta@.eps.den > 0,
                    ;
                    assert(b.real is Fin);
                    assert(br.eqv(ar)) by (nonlinear_arith)
                        requires
                            ar.num * br.den + (-br.num) * ar.den == 0,
                    ;
                    let ae = a.eps;
                    let be = b.eps;
                    assert(be.eqv(ae)) by (nonlinear_arith)
                        requires
                            ae.num * be.den + (-be.num) * ae.den == 0,
                    ;
                }
                assert forall|b: int|
                    0 <= b < self.num_vars() && self.basic(b) && #[trigger] self.row_of(b)@.contains_key(var)
                        implies self.val(b).eqv(
                        self.val(b).add(new_value@.sub(self.val(var as int)).scale(self.row_of(b)@[var]@)),
                    ) by {
                    let c = self.row_of(b)@[var]@;
                    let d = new_value@.sub(self.val(var as int));
                    assert(self.row_of(b)@[var]@.fits());
                    assert(d.eqv(delta@));
                    assert(d.wf()) by {
                        assert(new_value@.wf());
                        assert(self.val(var as int).wf());
                        assert(self.val(var as int).real is Fin);
                        crate::rational::lemma_iratio_ops_wf(new_value@, self.val(var as int), c);
                    }
                    assert(d.eqv(IRatio::of_int(0))) by {
                        crate::rational::lemma_iratio_eqv(d, delta@, IRatio::of_int(0));
                    }
                    lemma_add_null(self.val(b), d, c);
                    assert(self.val(b).wf() && self.val(b).real is Fin);
                    assert(d.real is Fin);
                    crate::rational::lemma_iratio_ops_wf(d, d, c);
                    crate::rational::lemma_iratio_ops_wf(self.val(b), d.scale(c), c);
                    crate::rational::lemma_iratio_eqv(self.val(b).add(d.scale(c)), self.val(b), self.val(b));
                }
            }
            return Ok(());
        }
        let mut next: Vec<InfRational> = Vec::new();
        let mut b: usize = 0;
        while b < n
            invariant
                self.wf(),
                n == self.num_vars(),
                var < n,
                !self.basic(var as int),
                new_value@.real is Fin,
                delta@.eqv(new_value@.sub(self.val(var as int))),
                delta@.real is Fin,
                b <= n,
                next.len() == b,
                forall|k: int| 0 <= k < b ==> (#[trigger] next@[k])@.real is Fin,
                forall|k: int| 0 <= k < b && k == var ==> #[trigger] next@[k] == new_value,
                forall|k: int|
                    0 <= k < b && k != var ==> #[trigger] next@[k] == (if self.basic(k) && self.row_of(
                        k,
                    )@.contains_key(var) {
                        next@[k]
                    } else {
                        self.reals@[k]
                    }),
                forall|k: int|
                    0 <= k < b && self.basic(k) && #[trigger] self.row_of(k)@.contains_key(var)
                        ==> next@[k]@.eqv(self.val(k).add(delta@.scale(self.row_of(k)@[var]@))),
            decreases n - b,
        {
            let x = self.reals[b];
            let nv = if b == var {
                new_value
            } else {
                match &self.tableau[b] {
                    Some(row) => {
                        match row.get(&var) {
                            Some(c) => {
                                let d = match delta.checked_scale(c) {
                                    Some(d) => d,
                                    None => {
                                        return Err(LraError::Overflow);
                                    },
                                };
                                let s = match x.checked_add(&d) {
                                    Some(s) => s,
                                    None => {
                                        return Err(LraError::Overflow);
                                    },
                                };
                                proof {
                                    assert(s@.real is Fin) by {
                                        assert(x@.real is Fin);
                                        if !(d@.real is Fin) {
                                            assert(d@.real.eqv(delta@.scale(c@).real));
                                        }
                                        assert(s@.real.eqv(x@.add(d@).real));
                                    }
                                    assert(x@.wf() && d@.wf() && c@.fits() && s@.wf() && delta@.wf());
                                    crate::rational::lemma_iratio_ops_wf(x@, d@, c@);
                                    crate::rational::lemma_iratio_ops_wf(delta@, x@, c@);
                                    crate::rational::lemma_iratio_ops_wf(x@, delta@.scale(c@), c@);
                                    crate::rational::lemma_iratio_add_eqv(x@, x@, d@, delta@.scale(c@));
                                    crate::rational::lemma_iratio_eqv(s@, x@.add(d@), x@.add(delta@.scale(c@)));
                                }
                                s
                            },
                            None => x,
                        }
                    },
                    None => x,
                }
            };
            next.push(nv);
            b += 1;
        }
        let ghost before = *self;
        self.reals = next;
        proof {
            assert forall|v: int| 0 <= v < n && #[trigger] self.tableau@[v] is None implies self.in_bounds(v) by {
                assert(before.in_bounds(v));
            }
            assert forall|b: int|
                0 <= b < n && before.basic(b) && #[trigger] before.row_of(b)@.contains_key(var)
                    implies self.val(b).eqv(
                    before.val(b).add(new_value@.sub(before.val(var as int)).scale(before.row_of(b)@[var]@)),
                ) by {
                let c = before.row_of(b)@[var]@;
                assert(c.fits());
                assert(delta@.wf());
                assert(before.val(b).wf() && before.val(b).real is Fin);
                assert(before.val(var as int).wf() && before.val(var as int).real is Fin);
                assert(new_value@.wf());
                crate::rational::lemma_iratio_ops_wf(delta@, delta@, c);
                crate::rational::lemma_iratio_ops_wf(before.val(b), delta@.scale(c), c);
                crate::rational::lemma_iratio_ops_wf(new_value@, before.val(var as int), c);
                crate::rational::lemma_iratio_ops_wf(new_value@.sub(before.val(var as int)), delta@, c);
                crate::rational::lemma_iratio_ops_wf(before.val(b), new_value@.sub(before.val(var as int)).scale(c), c);
                crate::rational::lemma_iratio_scale_eqv(delta@, new_value@.sub(before.val(var as int)), c);
                crate::rational::lemma_iratio_add_eqv(
                    before.val(b),
                    before.val(b),
                    delta@.scale(c),
                    new_value@.sub(before.val(var as int)).scale(c),
                );
                crate::rational::lemma_iratio_eqv(
                    self.val(b),
                    before.val(b).add(delta@.scale(c)),
                    before.val(b).add(new_value@.sub(before.val(var as int)).scale(c)),
                );
            }
            crate::rational::lemma_iratio_eqv(new_value@, new_value@, new_value@);
            Self::lemma_rows_moved(before, *self, var as int, new_value@);
        }
        Ok(())
    }
}

/// Undoing a recorded lower bound change gives back the bounds it changed.
proof fn lemma_undo_lb(lbs: Seq<Bound>, ubs: Seq<Bound>, suffix: Seq<BoundUpdate>, var: usize, nb: Bound)
    requires
        var < lbs.len(),
    ensures
        undo_bounds(
            lbs.update(var as int, nb),
            ubs,
            suffix.push(BoundUpdate::LowerBound { lit: lbs[var as int].0, var, val: lbs[var as int].1 }),
        ) == undo_bounds(lbs, ubs, suffix),
{
    let e = BoundUpdate::LowerBound { lit: lbs[var as int].0, var, val: lbs[var as int].1 };
    assert(suffix.push(e).drop_last() =~= suffix);
    assert(lbs.update(var as int, nb).update(var as int, (lbs[var as int].0, lbs[var as int].1)) =~= lbs);
}

/// Undoing a recorded upper bound change gives back the bounds it changed.
proof fn lemma_undo_ub(lbs: Seq<Bound>, ubs: Seq<Bound>, suffix: Seq<BoundUpdate>, var: usize, nb: Bound)
    requires
        var < ubs.len(),
    ensures
        undo_bounds(
            lbs,
            ubs.update(var as int, nb),
            suffix.push(BoundUpdate::UpperBound { lit: ubs[var as int].0, var, val: ubs[var as int].1 }),
        ) == undo_bounds(lbs, ubs, suffix),
{
    let e = BoundUpdate::UpperBound { lit: ubs[var as int].0, var, val: ubs[var as int].1 };
    assert(suffix.push(e).drop_last() =~= suffix);
    assert(ubs.update(var as int, nb).update(var as int, (ubs[var as int].0, ubs[var as int].1)) =~= ubs);
}

impl LraTheory {
    /// Adds an integer variable with value zero and no bounds.
    pub fn mk_int(&mut self) -> (r: usize)
        requires
            old(self).wf(),
            old(self).num_vars() < usize::MAX,
        ensures
            final(self).wf(),
            r == old(self).num_vars(),
            final(self).num_vars() == old(self).num_vars() + 1,
            final(self).int_var(r as int),
            final(self).val(r as int) == IRatio::of_int(0),
            final(self).lower_bounds() == old(self).lower_bounds().push((None::<Lit>, InfRational::neg_inf_spec())),
            final(self).upper_bounds() == old(self).upper_bounds().push((None::<Lit>, InfRational::pos_inf_spec())),
            !final(self).basic(r as int),
            forall|v: int| 0 <= v < r ==> final(self).val(v) == old(self).val(v),
            forall|v: int| 0 <= v < r ==> final(self).int_var(v) == old(self).int_var(v),
            forall|v: int| 0 <= v < r ==> final(self).basic(v) == old(self).basic(v),
            forall|v: int| 0 <= v < r && old(self).basic(v) ==> final(self).row_of(v) == old(self).row_of(v),
            final(self).levels() == old(self).levels(),
            forall|k: int| 0 <= k < old(self).levels() ==> final(self).saved_at(k) == old(self).saved_at(k),
    {
        self.mk_var(true)
    }

    /// Adds a real variable with value zero and no bounds.
    pub fn mk_real(&mut self) -> (r: usize)
        requires
            old(self).wf(),
            old(self).num_vars() < usize::MAX,
        ensures
            final(self).wf(),
            r == old(self).num_vars(),
            final(self).num_vars() == old(self).num_vars() + 1,
            !final(self).int_var(r as int),
            final(self).val(r as int) == IRatio::of_int(0),
            final(self).lower_bounds() == old(self).lower_bounds().push((None::<Lit>, InfRational::neg_inf_spec())),
            final(self).upper_bounds() == old(self).upper_bounds().push((None::<Lit>, InfRational::pos_inf_spec())),
            !final(self).basic(r as int),
            forall|v: int| 0 <= v < r ==> final(self).val(v) == old(self).val(v),
            forall|v: int| 0 <= v < r ==> final(self).int_var(v) == old(self).int_var(v),
            forall|v: int| 0 <= v < r ==> final(self).basic(v) == old(self).basic(v),
            forall|v: int| 0 <= v < r && old(self).basic(v) ==> final(self).row_of(v) == old(self).row_of(v),
            final(self).levels() == old(self).levels(),
            forall|k: int| 0 <= k < old(self).levels() ==> final(self).saved_at(k) == old(self).saved_at(k),
    {
        self.mk_var(false)
    }

    /// Number of variables.
    pub fn num_vars_exec(&self) -> (r: usize)
        ensures
            r == self.num_vars(),
    {
        self.reals.len()
    }

    /// The current value of `var`.
    pub fn value(&self, var: usize) -> (r: &InfRational)
        requires
            var < self.num_vars(),
        ensures
            r@ == self.val(var as int),
    {
        &self.reals[var]
    }

    /// The lower bound of `var`.
    pub fn lb(&self, var: usize) -> (r: &InfRational)
        requires
            self.wf(),
            var < self.num_vars(),
        ensures
            *r == self.lower_bounds()[var as int].1,
    {
        &self.lbs[var].1
    }

    /// The upper bound of `var`.
    pub fn ub(&self, var: usize) -> (r: &InfRational)
        requires
            self.wf(),
            var < self.num_vars(),
        ensures
            *r == self.upper_bounds()[var as int].1,
    {
        &self.ubs[var].1
    }

    /// Whether `var` is basic.
    pub fn is_basic(&self, var: usize) -> (r: bool)
        requires
            self.wf(),
            var < self.num_vars(),
        ensures
            r == self.basic(var as int),
    {
        self.tableau[var].is_some()
    }

    /// Whether `var` is an integer variable.
    pub fn is_int(&self, var: usize) -> (r: bool)
        requires
            self.wf(),
            var < self.num_vars(),
        ensures
            r == self.int_var(var as int),
    {
        self.ints[var]
    }

    /// The row of `var` when it is basic.
    pub fn row(&self, var: usize) -> (r: Option<&SparseRow>)
        requires
            self.wf(),
            var < self.num_vars(),
        ensures
            match r {
                Some(row) => self.basic(var as int) && *row == self.row_of(var as int),
                None => !self.basic(var as int),
            },
    {
        match &self.tableau[var] {
            Some(row) => Some(row),
            None => None,
        }
    }

    /// The basic variables whose row holds `var`, increasing.
    pub fn watches(&self, var: usize) -> (r: Vec<usize>)
        requires
            self.wf(),
        ensures
            forall|i: int, j: int| 0 <= i < j < r.len() ==> r@[i] < r@[j],
            forall|b: usize|
                r@.contains(b) <==> (b < self.num_vars() && self.basic(b as int) && self.row_of(b as int)@.contains_key(var)),
    {
        let mut out: Vec<usize> = Vec::new();
        let mut b: usize = 0;
        while b < self.tableau.len()
            invariant
                self.wf(),
                b <= self.tableau.len(),
                forall|i: int, j: int| 0 <= i < j < out.len() ==> out@[i] < out@[j],
                forall|i: int| 0 <= i < out.len() ==> out@[i] < b,
                forall|x: usize|
                    #[trigger] out@.contains(x) <==> (x < b && self.basic(x as int) && self.row_of(x as int)@.contains_key(var)),
            decreases self.tableau.len() - b,
        {
            let holds = match &self.tableau[b] {
                Some(row) => row.get(&var).is_some(),
                None => false,
            };
            proof {
                assert(holds == (self.basic(b as int) && self.row_of(b as int)@.contains_key(var)));
            }
            let ghost before = out@;
            if holds {
                out.push(b);
            }
            proof {
                assert forall|x: usize|
                    #[trigger] out@.contains(x) <==> (x < b + 1 && self.basic(x as int) && self.row_of(x as int)@.contains_key(var)) by {
                    if out@.contains(x) && x != b {
                        let k = choose|k: int| 0 <= k < out@.len() && out@[k] == x;
                        assert(before[k] == x);
                        assert(before.contains(x));
                    }
                    if x < b && self.basic(x as int) && self.row_of(x as int)@.contains_key(var) {
                        assert(before.contains(x));
                        let k = choose|k: int| 0 <= k < before.len() && before[k] == x;
                        assert(out@[k] == x);
                    }
                    if x == b && holds {
                        assert(out@[out@.len() - 1] == x);
                    }
                    if x == b && !holds && out@.contains(x) {
                        let k = choose|k: int| 0 <= k < out@.len() && out@[k] == x;
                        assert(before[k] < b);
                    }
                }
            }
            b += 1;
        }
        out
    }

    /// Raises the lower bound of `var` to `new_lb`, asserted by `lit`.
    ///
    /// Returns `Ok(false)` when the bound is no stronger than the current one,
    /// `Ok(true)` when it was recorded, and a conflict when it exceeds the upper
    /// bound. A non-basic variable below the new bound is moved up to it.
    pub fn set_lb(&mut self, lit: Option<Lit>, var: usize, new_lb: InfRational) -> (r: Result<bool, LraError>)
        requires
            old(self).wf(),
            var < old(self).num_vars(),
        ensures
            final(self).num_vars() == old(self).num_vars(),
            final(self).slack_table() == old(self).slack_table(),
            final(self).wf(),
            r is Err ==> *final(self) == *old(self),
            new_lb@.le(old(self).lb_of(var as int)) ==> r == Ok::<bool, LraError>(false) && *final(self) == *old(self),
            !new_lb@.le(old(self).lb_of(var as int)) && old(self).ub_of(var as int).lt(new_lb@) ==> (r matches Err(
                LraError::Conflict(c),
            ) && c@ == neg_lits(lit, old(self).upper_bounds()[var as int].0)),
            !new_lb@.le(old(self).lb_of(var as int)) && !old(self).ub_of(var as int).lt(new_lb@) ==> {
                &&& (r is Ok || r == Err::<bool, LraError>(LraError::Overflow))
                &&& (r is Err ==> !old(self).basic(var as int) && old(self).val(var as int).lt(new_lb@))
                &&& (r is Ok ==> {
                    &&& r == Ok::<bool, LraError>(true)
                    &&& final(self).wf()
                    &&& final(self).lower_bounds() == old(self).lower_bounds().update(var as int, (lit, new_lb))
                    &&& final(self).upper_bounds() == old(self).upper_bounds()
                    &&& (!old(self).basic(var as int) && old(self).val(var as int).lt(new_lb@) ==> final(self).moved(
                        *old(self),
                        var as int,
                        new_lb@,
                    ))
                    &&& (!(!old(self).basic(var as int) && old(self).val(var as int).lt(new_lb@)) ==> forall|v: int|
                        0 <= v < old(self).num_vars() ==> #[trigger] final(self).val(v) == old(self).val(v))
                    &&& forall|v: int| 0 <= v < old(self).num_vars() ==> #[trigger] final(self).basic(v) == old(self).basic(v)
                    &&& forall|v: int|
                        0 <= v < old(self).num_vars() && old(self).basic(v) ==> #[trigger] final(self).row_of(v) == old(self).row_of(v)
                    &&& final(self).levels() == old(self).levels()
                    &&& forall|k: int| 0 <= k < old(self).levels() ==> #[trigger] final(self).saved_at(k) == old(self).saved_at(k)
                })
            },
    {
        if new_lb.le(&self.lbs[var].1) {
            return Ok(false);
        }
        if self.ubs[var].1.lt(&new_lb) {
            let mut c: Vec<Lit> = Vec::new();
            if let Some(l) = lit {
                c.push(l.negate());
            }
            if let Some(l) = self.ubs[var].0 {
                c.push(l.negate());
            }
            proof {
                assert(c@ =~= neg_lits(lit, old(self).upper_bounds()[var as int].0));
            }
            return Err(LraError::Conflict(c));
        }
        proof {
            lemma_iratio_trichotomy(new_lb@, self.ub_of(var as int));
            lemma_iratio_trichotomy(self.lb_of(var as int), new_lb@);
            assert(new_lb@.le(self.ub_of(var as int)));
            assert(self.lb_of(var as int).le(new_lb@));
        }
        let ghost before = *self;
        if !self.is_basic(var) && self.reals[var].lt(&new_lb) {
            if !new_lb.is_finite() {
                return Err(LraError::Overflow);
            }
            match self.update(var, new_lb) {
                Ok(()) => {},
                Err(e) => {
                    return Err(e);
                },
            }
        }
        let ghost mid = *self;
        let old_bound = self.lbs[var];
        let ghost trail = self.bound_trail@;
        self.bound_trail.push(BoundUpdate::LowerBound { lit: old_bound.0, var, val: old_bound.1 });
        self.lbs.set(var, (lit, new_lb));
        proof {
            assert forall|k: int| 0 <= k < self.saved@.len() implies {
                let (l, u) = undo_bounds(
                    self.lbs@,
                    self.ubs@,
                    self.bound_trail@.subrange(self.trail_lim@[k] as int, self.bound_trail@.len() as int),
                );
                let (sl, su) = #[trigger] self.saved@[k];
                &&& sl.len() <= self.reals@.len()
                &&& su.len() == sl.len()
                &&& l.take(sl.len() as int) == sl
                &&& u.take(su.len() as int) == su
            } by {
                let sub = trail.subrange(self.trail_lim@[k] as int, trail.len() as int);
                assert(self.bound_trail@.subrange(self.trail_lim@[k] as int, self.bound_trail@.len() as int) =~= sub.push(
                    BoundUpdate::LowerBound { lit: old_bound.0, var, val: old_bound.1 },
                ));
                lemma_undo_lb(mid.lbs@, mid.ubs@, sub, var, (lit, new_lb));
            }
            let e_new = BoundUpdate::LowerBound { lit: old_bound.0, var, val: old_bound.1 };
            assert(self.bound_trail@ == trail.push(e_new));
            assert(old_bound.1@.le(new_lb@)) by {
                lemma_iratio_trichotomy(new_lb@, old_bound.1@);
            }
            assert forall|k: int| 0 <= k < self.bound_trail@.len() implies {
                let e = #[trigger] self.bound_trail@[k];
                if e.lower() {
                    e.value().le(self.lbs@[e.var() as int].1@)
                } else {
                    self.ubs@[e.var() as int].1@.le(e.value())
                }
            } by {
                let e = self.bound_trail@[k];
                if k < trail.len() {
                    assert(e == trail[k]);
                    assert(e == mid.bound_trail@[k]);
                    if e.lower() && e.var() == var {
                        assert(e.value().le(old_bound.1@));
                        assert(e.value().wf());
                        crate::rational::lemma_iratio_le_trans(e.value(), old_bound.1@, new_lb@);
                    }
                }
            }
            assert forall|p: int, q: int|
                0 <= p < q < self.bound_trail@.len() && (#[trigger] self.bound_trail@[p]).var() == (#[trigger] self.bound_trail@[q]).var()
                    && self.bound_trail@[p].lower() == self.bound_trail@[q].lower() implies if self.bound_trail@[p].lower() {
                self.bound_trail@[p].value().le(self.bound_trail@[q].value())
            } else {
                self.bound_trail@[q].value().le(self.bound_trail@[p].value())
            } by {
                assert(self.bound_trail@[p] == mid.bound_trail@[p]);
                if q < trail.len() {
                    assert(self.bound_trail@[q] == mid.bound_trail@[q]);
                } else {
                    assert(self.bound_trail@[q] == e_new);
                    let ep = mid.bound_trail@[p];
                    assert(ep.value().le(mid.lbs@[ep.var() as int].1@));
                }
            }
            assert forall|v: int| 0 <= v < self.reals@.len() && #[trigger] self.tableau@[v] is None implies self.in_bounds(v) by {
                assert(mid.in_bounds(v));
                if v == var {
                    if before.val(var as int).lt(new_lb@) {
                        assert(mid.val(var as int).eqv(new_lb@));
                        crate::rational::lemma_iratio_eqv(mid.val(var as int), new_lb@, new_lb@);
                        crate::rational::lemma_iratio_eqv(new_lb@, mid.val(var as int), mid.val(var as int));
                        crate::rational::lemma_iratio_le_trans(mid.val(var as int), new_lb@, self.ub_of(v));
                    } else {
                        lemma_iratio_trichotomy(before.val(var as int), new_lb@);
                    }
                }
            }
            assert forall|k: int| 0 <= k < self.bound_trail@.len() implies (#[trigger] self.bound_trail@[k]).var() < self.reals@.len() by {
                if k < trail.len() {
                    assert(self.bound_trail@[k] == trail[k]);
                }
            }
            assert forall|b: int| 0 <= b < self.reals@.len() implies #[trigger] self.val(b) == mid.val(b) by {
            }
            assert forall|b: int| 0 <= b < self.reals@.len() implies #[trigger] self.basic(b) == before.basic(b) by {
                assert(mid.basic(b) == before.basic(b));
            }
            assert forall|b: int| 0 <= b < self.reals@.len() && before.basic(b) implies #[trigger] self.row_of(b) == before.row_of(b) by {
                assert(mid.row_of(b) == before.row_of(b));
            }
            assert forall|k: int| 0 <= k < before.levels() implies #[trigger] self.saved_at(k) == before.saved_at(k) by {
                assert(self.saved_at(k) == mid.saved_at(k));
            }
            if !before.basic(var as int) && before.val(var as int).lt(new_lb@) {
                assert(mid.moved(before, var as int, new_lb@));
                assert(self.moved(before, var as int, new_lb@));
            }
        }
        Ok(true)
    }

    /// Lowers the upper bound of `var` to `new_ub`, asserted by `lit`.
    ///
    /// Returns `Ok(false)` when the bound is no stronger than the current one,
    /// `Ok(true)` when it was recorded, and a conflict when it is below the lower
    /// bound. A non-basic variable above the new bound is moved down to it.
    pub fn set_ub(&mut self, lit: Option<Lit>, var: usize, new_ub: InfRational) -> (r: Result<bool, LraError>)
        requires
            old(self).wf(),
            var < old(self).num_vars(),
        ensures
            final(self).num_vars() == old(self).num_vars(),
            final(self).slack_table() == old(self).slack_table(),
            final(self).wf(),
            r is Err ==> *final(self) == *old(self),
            old(self).ub_of(var as int).le(new_ub@) ==> r == Ok::<bool, LraError>(false) && *final(self) == *old(self),
            !old(self).ub_of(var as int).le(new_ub@) && new_ub@.lt(old(self).lb_of(var as int)) ==> (r matches Err(
                LraError::Conflict(c),
            ) && c@ == neg_lits(lit, old(self).lower_bounds()[var as int].0)),
            !old(self).ub_of(var as int).le(new_ub@) && !new_ub@.lt(old(self).lb_of(var as int)) ==> {
                &&& (r is Ok || r == Err::<bool, LraError>(LraError::Overflow))
                &&& (r is Err ==> !old(self).basic(var as int) && new_ub@.lt(old(self).val(var as int)))
                &&& (r is Ok ==> {
                    &&& r == Ok::<bool, LraError>(true)
                    &&& final(self).wf()
                    &&& final(self).upper_bounds() == old(self).upper_bounds().update(var as int, (lit, new_ub))
                    &&& final(self).lower_bounds() == old(self).lower_bounds()
                    &&& (!old(self).basic(var as int) && new_ub@.lt(old(self).val(var as int)) ==> final(self).moved(
                        *old(self),
                        var as int,
                        new_ub@,
                    ))
                    &&& (!(!old(self).basic(var as int) && new_ub@.lt(old(self).val(var as int))) ==> forall|v: int|
                        0 <= v < old(self).num_vars() ==> #[trigger] final(self).val(v) == old(self).val(v))
                    &&& forall|v: int| 0 <= v < old(self).num_vars() ==> #[trigger] final(self).basic(v) == old(self).basic(v)
                    &&& forall|v: int|
                        0 <= v < old(self).num_vars() && old(self).basic(v) ==> #[trigger] final(self).row_of(v) == old(self).row_of(v)
                    &&& final(self).levels() == old(self).levels()
                    &&& forall|k: int| 0 <= k < old(self).levels() ==> #[trigger] final(self).saved_at(k) == old(self).saved_at(k)
                })
            },
    {
        if self.ubs[var].1.le(&new_ub) {
            return Ok(false);
        }
        if new_ub.lt(&self.lbs[var].1) {
            let mut c: Vec<Lit> = Vec::new();
            if let Some(l) = lit {
                c.push(l.negate());
            }
            if let Some(l) = self.lbs[var].0 {
                c.push(l.negate());
            }
            proof {
                assert(c@ =~= neg_lits(lit, old(self).lower_bounds()[var as int].0));
            }
            return Err(LraError::Conflict(c));
        }
        proof {
            lemma_iratio_trichotomy(new_ub@, self.ub_of(var as int));
            lemma_iratio_trichotomy(self.lb_of(var as int), new_ub@);
            assert(new_ub@.le(self.ub_of(var as int)));
            assert(self.lb_of(var as int).le(new_ub@));
        }
        let ghost before = *self;
        if !self.is_basic(var) && new_ub.lt(&self.reals[var]) {
            if !new_ub.is_finite() {
                return Err(LraError::Overflow);
            }
            match self.update(var, new_ub) {
                Ok(()) => {},
                Err(e) => {
                    return Err(e);
                },
            }
        }
        let ghost mid = *self;
        let old_bound = self.ubs[var];
        let ghost trail = self.bound_trail@;
        self.bound_trail.push(BoundUpdate::UpperBound { lit: old_bound.0, var, val: old_bound.1 });
        self.ubs.set(var, (lit, new_ub));
        proof {
            assert forall|k: int| 0 <= k < self.saved@.len() implies {
                let (l, u) = undo_bounds(
                    self.lbs@,
                    self.ubs@,
                    self.bound_trail@.subrange(self.trail_lim@[k] as int, self.bound_trail@.len() as int),
                );
                let (sl, su) = #[trigger] self.saved@[k];
                &&& sl.len() <= self.reals@.len()
                &&& su.len() == sl.len()
                &&& l.take(sl.len() as int) == sl
                &&& u.take(su.len() as int) == su
            } by {
                let sub = trail.subrange(self.trail_lim@[k] as int, trail.len() as int);
                assert(self.bound_trail@.subrange(self.trail_lim@[k] as int, self.bound_trail@.len() as int) =~= sub.push(
                    BoundUpdate::UpperBound { lit: old_bound.0, var, val: old_bound.1 },
                ));
                lemma_undo_ub(mid.lbs@, mid.ubs@, sub, var, (lit, new_ub));
            }
            let e_new = BoundUpdate::UpperBound { lit: old_bound.0, var, val: old_bound.1 };
            assert(self.bound_trail@ == trail.push(e_new));
            assert(new_ub@.le(old_bound.1@)) by {
                lemma_iratio_trichotomy(new_ub@, old_bound.1@);
            }
            assert forall|k: int| 0 <= k < self.bound_trail@.len() implies {
                let e = #[trigger] self.bound_trail@[k];
                if e.lower() {
                    e.value().le(self.lbs@[e.var() as int].1@)
                } else {
                    self.ubs@[e.var() as int].1@.le(e.value())
                }
            } by {
                let e = self.bound_trail@[k];
                if k < trail.len() {
                    assert(e == trail[k]);
                    assert(e == mid.bound_trail@[k]);
                    if !e.lower() && e.var() == var {
                        assert(old_bound.1@.le(e.value()));
                        assert(e.value().wf());
                        crate::rational::lemma_iratio_le_trans(new_ub@, old_bound.1@, e.value());
                    }
                }
            }
            assert forall|p: int, q: int|
                0 <= p < q < self.bound_trail@.len() && (#[trigger] self.bound_trail@[p]).var() == (#[trigger] self.bound_trail@[q]).var()
                    && self.bound_trail@[p].lower() == self.bound_trail@[q].lower() implies if self.bound_trail@[p].lower() {
                self.bound_trail@[p].value().le(self.bound_trail@[q].value())
            } else {
                self.bound_trail@[q].value().le(self.bound_trail@[p].value())
            } by {
                assert(self.bound_trail@[p] == mid.bound_trail@[p]);
                if q < trail.len() {
                    assert(self.bound_trail@[q] == mid.bound_trail@[q]);
                } else {
                    assert(self.bound_trail@[q] == e_new);
                    let ep = mid.bound_trail@[p];
                    assert(mid.ubs@[ep.var() as int].1@.le(ep.value()));
                }
            }
            assert forall|v: int| 0 <= v < self.reals@.len() && #[trigger] self.tableau@[v] is None implies self.in_bounds(v) by {
                assert(mid.in_bounds(v));
                if v == var {
                    if new_ub@.lt(before.val(var as int)) {
                        assert(mid.val(var as int).eqv(new_ub@));
                        crate::rational::lemma_iratio_eqv(mid.val(var as int), new_ub@, new_ub@);
                        crate::rational::lemma_iratio_eqv(new_ub@, mid.val(var as int), mid.val(var as int));
                        crate::rational::lemma_iratio_le_trans(self.lb_of(v), new_ub@, mid.val(var as int));
                    } else {
                        lemma_iratio_trichotomy(before.val(var as int), new_ub@);
                    }
                }
            }
            assert forall|k: int| 0 <= k < self.bound_trail@.len() implies (#[trigger] self.bound_trail@[k]).var() < self.reals@.len() by {
                if k < trail.len() {
                    assert(self.bound_trail@[k] == trail[k]);
                }
            }
            assert forall|b: int| 0 <= b < self.reals@.len() implies #[trigger] self.val(b) == mid.val(b) by {
            }
            assert forall|b: int| 0 <= b < self.reals@.len() implies #[trigger] self.basic(b) == before.basic(b) by {
                assert(mid.basic(b) == before.basic(b));
            }
            assert forall|b: int| 0 <= b < self.reals@.len() && before.basic(b) implies #[trigger] self.row_of(b) == before.row_of(b) by {
                assert(mid.row_of(b) == before.row_of(b));
            }
            assert forall|k: int| 0 <= k < before.levels() implies #[trigger] self.saved_at(k) == before.saved_at(k) by {
                assert(self.saved_at(k) == mid.saved_at(k));
            }
            if !before.basic(var as int) && new_ub@.lt(before.val(var as int)) {
                assert(mid.moved(before, var as int, new_ub@));
                assert(self.moved(before, var as int, new_ub@));
            }
        }
        Ok(true)
    }
}

impl LraTheory {
    /// Opens a decision level, recording the current bounds.
    pub fn push(&mut self)
        requires
            old(self).wf(),
        ensures
            final(self).wf(),
            final(self).levels() == old(self).levels() + 1,
            final(self).saved_at(old(self).levels() as int) == (old(self).lower_bounds(), old(self).upper_bounds()),
            forall|k: int| 0 <= k < old(self).levels() ==> #[trigger] final(self).saved_at(k) == old(self).saved_at(k),
            final(self).lower_bounds() == old(self).lower_bounds(),
            final(self).upper_bounds() == old(self).upper_bounds(),
            final(self).num_vars() == old(self).num_vars(),
            forall|v: int| 0 <= v < old(self).num_vars() ==> #[trigger] final(self).val(v) == old(self).val(v),
            forall|v: int| 0 <= v < old(self).num_vars() ==> #[trigger] final(self).basic(v) == old(self).basic(v),
            forall|v: int|
                0 <= v < old(self).num_vars() && old(self).basic(v) ==> #[trigger] final(self).row_of(v) == old(self).row_of(v),
    {
        let ghost before = *self;
        self.trail_lim.push(self.bound_trail.len());
        self.saved = Ghost(self.saved@.push((self.lbs@, self.ubs@)));
        proof {
            let tl = self.bound_trail@.len() as int;
            assert(self.bound_trail@.subrange(tl, tl) =~= Seq::<BoundUpdate>::empty());
            assert(self.lbs@.take(self.lbs@.len() as int) =~= self.lbs@);
            assert(self.ubs@.take(self.ubs@.len() as int) =~= self.ubs@);
            assert forall|k: int| 0 <= k < self.saved@.len() implies {
                let (l, u) = undo_bounds(
                    self.lbs@,
                    self.ubs@,
                    self.bound_trail@.subrange(self.trail_lim@[k] as int, self.bound_trail@.len() as int),
                );
                let (sl, su) = #[trigger] self.saved@[k];
                &&& sl.len() <= self.reals@.len()
                &&& su.len() == sl.len()
                &&& l.take(sl.len() as int) == sl
                &&& u.take(su.len() as int) == su
            } by {
                if k < before.saved@.len() {
                    assert(self.saved@[k] == before.saved@[k]);
                    assert(self.trail_lim@[k] == before.trail_lim@[k]);
                }
            }
        }
    }

    /// Closes every decision level at or above `level`, restoring the bounds
    /// recorded when `level` was opened. Does nothing when fewer levels are open.
    pub fn cancel_until(&mut self, level: usize)
        requires
            old(self).wf(),
        ensures
            final(self).wf(),
            level >= old(self).levels() ==> *final(self) == *old(self),
            level < old(self).levels() ==> {
                &&& final(self).levels() == level
                &&& final(self).lower_bounds().take(old(self).saved_at(level as int).0.len() as int) == old(self).saved_at(
                    level as int,
                ).0
                &&& final(self).upper_bounds().take(old(self).saved_at(level as int).1.len() as int) == old(self).saved_at(
                    level as int,
                ).1
                &&& final(self).lower_bounds().len() == old(self).lower_bounds().len()
                &&& final(self).upper_bounds().len() == old(self).upper_bounds().len()
                &&& forall|k: int| 0 <= k < level ==> #[trigger] final(self).saved_at(k) == old(self).saved_at(k)
            },
            final(self).num_vars() == old(self).num_vars(),
            forall|v: int| 0 <= v < old(self).num_vars() ==> #[trigger] final(self).val(v) == old(self).val(v),
            forall|v: int| 0 <= v < old(self).num_vars() ==> #[trigger] final(self).basic(v) == old(self).basic(v),
            forall|v: int|
                0 <= v < old(self).num_vars() && old(self).basic(v) ==> #[trigger] final(self).row_of(v) == old(self).row_of(v),
            forall|v: int| 0 <= v < old(self).num_vars() ==> #[trigger] final(self).int_var(v) == old(self).int_var(v),
    {
        if level >= self.trail_lim.len() {
            return;
        }
        let ghost before = *self;
        let target = self.trail_lim[level];
        let ghost full = self.bound_trail@;
        let ghost goal = undo_bounds(self.lbs@, self.ubs@, full.subrange(target as int, full.len() as int));
        proof {
            assert(full.subrange(target as int, full.len() as int).len() == full.len() - target);
        }
        while self.bound_trail.len() > target
            invariant
                before.wf(),
                level < before.trail_lim@.len(),
                target == before.trail_lim@[level as int],
                full == before.bound_trail@,
                target <= self.bound_trail@.len() <= full.len(),
                self.bound_trail@ == full.take(self.bound_trail@.len() as int),
                self.lbs@.len() == before.lbs@.len(),
                self.ubs@.len() == before.ubs@.len(),
                self.reals == before.reals,
                self.tableau == before.tableau,
                self.ints == before.ints,
                self.trail_lim == before.trail_lim,
                self.saved == before.saved,
                self.lin_to_slack == before.lin_to_slack,
                undo_bounds(self.lbs@, self.ubs@, self.bound_trail@.subrange(target as int, self.bound_trail@.len() as int))
                    == goal,
                goal == undo_bounds(before.lbs@, before.ubs@, full.subrange(target as int, full.len() as int)),
                forall|k: int|
                    0 <= k < self.bound_trail@.len() ==> {
                        let e = #[trigger] self.bound_trail@[k];
                        if e.lower() {
                            e.value().le(self.lbs@[e.var() as int].1@)
                        } else {
                            self.ubs@[e.var() as int].1@.le(e.value())
                        }
                    },
                forall|v: int|
                    0 <= v < self.reals@.len() ==> {
                        &&& (#[trigger] self.lbs@[v]).1@.le(before.lbs@[v].1@)
                        &&& before.ubs@[v].1@.le(self.ubs@[v].1@)
                    },
            decreases self.bound_trail@.len(),
        {
            let ghost cur = self.bound_trail@;
            let ghost l0 = self.lbs@;
            let ghost u0 = self.ubs@;
            let e = self.bound_trail.pop().unwrap();
            proof {
                assert(cur.last() == e);
                assert(e == full[cur.len() - 1]);
                assert(e.var() < self.reals@.len()) by {
                    assert(before.bound_trail@[cur.len() - 1] == e);
                }
            }
            match e {
                BoundUpdate::LowerBound { lit, var, val } => {
                    self.lbs.set(var, (lit, val));
                },
                BoundUpdate::UpperBound { lit, var, val } => {
                    self.ubs.set(var, (lit, val));
                },
            }
            proof {
                let sub = cur.subrange(target as int, cur.len() as int);
                assert(sub.last() == e);
                assert(sub.drop_last() =~= self.bound_trail@.subrange(target as int, self.bound_trail@.len() as int));
                assert(self.bound_trail@ =~= full.take(self.bound_trail@.len() as int));
                assert forall|k: int| 0 <= k < self.bound_trail@.len() implies {
                    let e2 = #[trigger] self.bound_trail@[k];
                    if e2.lower() {
                        e2.value().le(self.lbs@[e2.var() as int].1@)
                    } else {
                        self.ubs@[e2.var() as int].1@.le(e2.value())
                    }
                } by {
                    let e2 = self.bound_trail@[k];
                    assert(e2 == cur[k]);
                    assert(e2 == before.bound_trail@[k]);
                    assert(e == before.bound_trail@[cur.len() - 1]);
                    if e2.var() == e.var() && e2.lower() == e.lower() {
                        assert(before.bound_trail@[k].var() == before.bound_trail@[cur.len() - 1].var());
                    }
                }
                assert forall|v: int| 0 <= v < self.reals@.len() implies {
                    &&& (#[trigger] self.lbs@[v]).1@.le(before.lbs@[v].1@)
                    &&& before.ubs@[v].1@.le(self.ubs@[v].1@)
                } by {
                    if v == e.var() {
                        assert(l0[v].1@.wf() && before.lbs@[v].1@.wf() && e.value().wf());
                        assert(u0[v].1@.wf() && before.ubs@[v].1@.wf());
                        if e.lower() {
                            crate::rational::lemma_iratio_le_trans(e.value(), l0[v].1@, before.lbs@[v].1@);
                        } else {
                            crate::rational::lemma_iratio_le_trans(before.ubs@[v].1@, u0[v].1@, e.value());
                        }
                    }
                }
            }
        }
        self.trail_lim.truncate(level);
        self.saved = Ghost(self.saved@.take(level as int));
        proof {
            let tl = self.bound_trail@.len() as int;
            assert(tl == target);
            assert(self.bound_trail@.subrange(tl, tl) =~= Seq::<BoundUpdate>::empty());
            assert(goal == (self.lbs@, self.ubs@));
            assert forall|v: int| 0 <= v < self.reals@.len() && #[trigger] self.tableau@[v] is None implies self.in_bounds(v) by {
                assert(before.in_bounds(v));
                assert(self.lbs@[v].1@.wf() && before.lbs@[v].1@.wf() && self.reals@[v]@.wf());
                assert(self.ubs@[v].1@.wf() && before.ubs@[v].1@.wf());
                crate::rational::lemma_iratio_le_trans(self.lbs@[v].1@, before.lbs@[v].1@, self.reals@[v]@);
                crate::rational::lemma_iratio_le_trans(self.reals@[v]@, before.ubs@[v].1@, self.ubs@[v].1@);
            }
            assert forall|v: int| 0 <= v < self.reals@.len() implies (#[trigger] self.lbs@[v]).1@.le(self.ubs@[v].1@) by {
                assert(self.lbs@[v].1@.wf() && before.lbs@[v].1@.wf());
                assert(self.ubs@[v].1@.wf() && before.ubs@[v].1@.wf());
                assert(before.lbs@[v].1@.le(before.ubs@[v].1@));
                crate::rational::lemma_iratio_le_trans(self.lbs@[v].1@, before.lbs@[v].1@, before.ubs@[v].1@);
                crate::rational::lemma_iratio_le_trans(self.lbs@[v].1@, before.ubs@[v].1@, self.ubs@[v].1@);
            }
            assert forall|k: int| 0 <= k < self.saved@.len() implies {
                let (l, u) = undo_bounds(
                    self.lbs@,
                    self.ubs@,
                    self.bound_trail@.subrange(self.trail_lim@[k] as int, self.bound_trail@.len() as int),
                );
                let (sl, su) = #[trigger] self.saved@[k];
                &&& sl.len() <= self.reals@.len()
                &&& su.len() == sl.len()
                &&& l.take(sl.len() as int) == sl
                &&& u.take(su.len() as int) == su
            } by {
                let lk = before.trail_lim@[k] as int;
                assert(self.trail_lim@[k] == lk);
                assert(self.saved@[k] == before.saved@[k]);
                assert(lk <= target);
                let s1 = full.subrange(lk, target as int);
                let s2 = full.subrange(target as int, full.len() as int);
                assert(full.subrange(lk, full.len() as int) =~= s1 + s2);
                assert(self.bound_trail@.subrange(lk, tl) =~= s1);
                lemma_undo_concat(before.lbs@, before.ubs@, s1, s2);
            }
            assert forall|p: int, q: int|
                0 <= p < q < self.bound_trail@.len() && (#[trigger] self.bound_trail@[p]).var() == (#[trigger] self.bound_trail@[q]).var()
                    && self.bound_trail@[p].lower() == self.bound_trail@[q].lower() implies if self.bound_trail@[p].lower() {
                self.bound_trail@[p].value().le(self.bound_trail@[q].value())
            } else {
                self.bound_trail@[q].value().le(self.bound_trail@[p].value())
            } by {
                assert(self.bound_trail@[p] == before.bound_trail@[p]);
                assert(self.bound_trail@[q] == before.bound_trail@[q]);
            }
            assert forall|k: int| 0 <= k < self.bound_trail@.len() implies (#[trigger] self.bound_trail@[k]).var() < self.reals@.len() by {
                assert(self.bound_trail@[k] == before.bound_trail@[k]);
            }
            assert forall|k: int| 0 <= k < self.trail_lim@.len() implies #[trigger] self.trail_lim@[k] <= self.bound_trail@.len() by {
                assert(self.trail_lim@[k] == before.trail_lim@[k]);
            }
            let (sl, su) = before.saved@[level as int];
            assert(before.saved@[level as int] == before.saved_at(level as int));
        }
    }
}

/// The row of the entering variable after a pivot, given the row `old` of the
/// leaving variable: the leaving variable gets `1 / c` and every other
/// variable `-a / c`, where `c` is the coefficient of the entering variable.
pub open spec fn pivot_row(old: Map<usize, Fraction>, entering: usize, leaving: usize, new: Map<usize, Fraction>) -> bool {
    let c = old[entering]@;
    &&& new.contains_key(leaving)
    &&& new[leaving]@.eqv(Ratio::of_int(1).div(c))
    &&& !new.contains_key(entering)
    &&& forall|v: usize|
        v != leaving && v != entering ==> (#[trigger] new.contains_key(v) <==> old.contains_key(v))
    &&& forall|v: usize|
        v != leaving && v != entering && #[trigger] old.contains_key(v) ==> new[v]@.eqv(
            old[v]@.mul(Ratio::of_int(1).div(c.neg())),
        )
}

impl LraTheory {
    /// Tableau entries after pivoting `entering` into the basis in place of
    /// `leaving`: the pivoted row and every other row rewritten by it.
    pub open spec fn pivoted(self, old: LraTheory, entering: usize, leaving: usize) -> bool {
        &&& self.basic(entering as int)
        &&& !self.basic(leaving as int)
        &&& forall|v: int|
            0 <= v < old.num_vars() && v != entering && v != leaving ==> #[trigger] self.basic(v) == old.basic(v)
        &&& pivot_row(old.row_of(leaving as int)@, entering, leaving, self.row_of(entering as int)@)
        &&& forall|b: int|
            0 <= b < old.num_vars() && b != leaving && b != entering && old.basic(b) ==> if old.row_of(
                b,
            )@.contains_key(entering) {
                forall|v: usize| #[trigger]
                    merged_entry(
                        old.row_of(b)@.remove(entering),
                        self.row_of(entering as int)@,
                        old.row_of(b)@[entering]@,
                        self.row_of(b)@,
                        v,
                    )
            } else {
                (#[trigger] self.row_of(b))@ == old.row_of(b)@
            }
    }

    /// Values, bounds, variable kinds and saved levels are those of `old`.
    pub open spec fn same_values_bounds(self, old: LraTheory) -> bool {
        &&& self.num_vars() == old.num_vars()
        &&& self.lower_bounds() == old.lower_bounds()
        &&& self.upper_bounds() == old.upper_bounds()
        &&& forall|v: int| 0 <= v < old.num_vars() ==> #[trigger] self.val(v) == old.val(v)
        &&& forall|v: int| 0 <= v < old.num_vars() ==> #[trigger] self.int_var(v) == old.int_var(v)
        &&& self.levels() == old.levels()
        &&& forall|k: int| 0 <= k < old.levels() ==> #[trigger] self.saved_at(k) == old.saved_at(k)
    }

    /// Exchanges the basic variable `leaving` with the non-basic variable
    /// `entering`, which occurs in its row: the row is solved for `entering`
    /// and substituted into every other row that holds `entering`.
    pub fn pivot(&mut self, entering: usize, leaving: usize) -> (r: Result<(), LraError>)
        requires
            old(self).wf_except(entering as int),
            entering < old(self).num_vars(),
            leaving < old(self).num_vars(),
            old(self).basic(leaving as int),
            !old(self).basic(entering as int),
            old(self).row_of(leaving as int)@.contains_key(entering),
            old(self).row_of(leaving as int)@[entering]@.num != 0,
            old(self).in_bounds(leaving as int),
        ensures
            r is Ok ==> final(self).wf(),
            r is Ok ==> final(self).same_values_bounds(*old(self)),
            r is Ok || r == Err::<(), LraError>(LraError::Overflow),
            r is Err ==> *final(self) == *old(self),
            r is Ok ==> final(self).pivoted(*old(self), entering, leaving),
    {
        let n = self.tableau.len();
        let mut new_row = self.tableau[leaving].as_ref().unwrap().dup();
        let pivot_coeff = new_row.remove(&entering).unwrap();
        let ghost old_row = self.row_of(leaving as int)@;
        let minus = pivot_coeff.neg();
        let inv = minus.recip();
        match new_row.scale(&inv) {
            Ok(()) => {},
            Err(_) => {
                return Err(LraError::Overflow);
            },
        }
        let ghost scaled = new_row@;
        let back = pivot_coeff.recip();
        new_row.insert(leaving, back);
        proof {
            assert(pivot_coeff == old_row[entering]);
            assert forall|v: usize|
                v != leaving && v != entering && #[trigger] old_row.contains_key(v) implies new_row@[v]@.eqv(
                old_row[v]@.mul(Ratio::of_int(1).div(old_row[entering]@.neg())),
            ) by {
                assert(new_row@[v] == scaled[v]);
                assert(scaled[v]@.eqv(old_row.remove(entering)[v]@.mul(inv@)));
                assert(old_row[v]@.fits());
                assert(inv@.fits());
                assert(inv@.eqv(Ratio::of_int(1).div(old_row[entering]@.neg())));
                lemma_mul_eqv_right(old_row[v]@, inv@, Ratio::of_int(1).div(old_row[entering]@.neg()));
                crate::fraction::lemma_ops_wf(old_row[v]@, inv@);
                crate::fraction::lemma_eqv_trans(
                    scaled[v]@,
                    old_row[v]@.mul(inv@),
                    old_row[v]@.mul(Ratio::of_int(1).div(old_row[entering]@.neg())),
                );
            }
            assert(pivot_row(old_row, entering, leaving, new_row@));
        }
        let mut next: Vec<Option<SparseRow>> = Vec::new();
        let mut b: usize = 0;
        while b < n
            invariant
                self.wf_except(entering as int),
                n == self.num_vars(),
                entering < n,
                leaving < n,
                entering != leaving,
                self.basic(leaving as int),
                !self.basic(entering as int),
                new_row.wf(),
                pivot_row(self.row_of(leaving as int)@, entering, leaving, new_row@),
                forall|x: usize| #[trigger] new_row@.contains_key(x) ==> x < n && (x == leaving || (!self.basic(x as int) && x != entering)),
                b <= n,
                next.len() == b,
                forall|k: int| 0 <= k < b && k != entering ==> ((#[trigger] next@[k]) is Some <==> (self.basic(k) && k != leaving)),
                forall|k: int| 0 <= k < b && k == entering ==> (#[trigger] next@[k]) is Some && next@[k]->0@ == new_row@,
                forall|k: int| 0 <= k < b && (#[trigger] next@[k]) is Some ==> next@[k]->0.wf(),
                forall|k: int|
                    0 <= k < b && k != entering && k != leaving && self.basic(k) ==> if self.row_of(k)@.contains_key(entering) {
                        forall|v: usize| #[trigger]
                            merged_entry(
                                self.row_of(k)@.remove(entering),
                                new_row@,
                                self.row_of(k)@[entering]@,
                                (#[trigger] next@[k])->0@,
                                v,
                            )
                    } else {
                        (#[trigger] next@[k])->0@ == self.row_of(k)@
                    },
            decreases n - b,
        {
            let ghost prev = next@;
            if b == leaving {
                next.push(None);
            } else if b == entering {
                next.push(Some(new_row.dup()));
            } else {
                match &self.tableau[b] {
                    None => {
                        next.push(None);
                    },
                    Some(row) => {
                        let mut r2 = row.dup();
                        let ghost orig = r2@;
                        match r2.remove(&entering) {
                            Some(ce) => {
                                let ghost removed = r2@;
                                match r2.add_scaled(&new_row, &ce) {
                                    Ok(()) => {},
                                    Err(_) => {
                                        return Err(LraError::Overflow);
                                    },
                                }
                                proof {
                                    assert(removed == orig.remove(entering));
                                    assert(ce == orig[entering]);
                                    assert(orig == self.row_of(b as int)@);
                                    assert(forall|v: usize| #[trigger]
                                        merged_entry(
                                            self.row_of(b as int)@.remove(entering),
                                            new_row@,
                                            self.row_of(b as int)@[entering]@,
                                            r2@,
                                            v,
                                        ));
                                }
                            },
                            None => {
                                proof {
                                    assert(r2@ == self.row_of(b as int)@);
                                    assert(!self.row_of(b as int)@.contains_key(entering));
                                }
                            },
                        }
                        next.push(Some(r2));
                    },
                }
            }
            proof {
                assert forall|k: int|
                    0 <= k < b + 1 && k != entering && k != leaving && self.basic(k) implies if self.row_of(k)@.contains_key(
                    entering,
                ) {
                    forall|v: usize| #[trigger]
                        merged_entry(
                            self.row_of(k)@.remove(entering),
                            new_row@,
                            self.row_of(k)@[entering]@,
                            (#[trigger] next@[k])->0@,
                            v,
                        )
                } else {
                    (#[trigger] next@[k])->0@ == self.row_of(k)@
                } by {
                    if k < b {
                        assert(next@[k] == prev[k]);
                    }
                }
            }
            b += 1;
        }
        let ghost before = *self;
        self.tableau = next;
        proof {
            assert forall|bb: int| 0 <= bb < n && #[trigger] self.tableau@[bb] is Some implies {
                let row = self.tableau@[bb]->0;
                &&& row.wf()
                &&& forall|x: usize|
                    #[trigger] row@.contains_key(x) ==> (x < n && self.tableau@[x as int] is None && x != bb)
            } by {
                let row = self.tableau@[bb]->0;
                if bb == entering {
                    assert(row@ == new_row@);
                    assert forall|x: usize| #[trigger] row@.contains_key(x) implies (x < n && self.tableau@[x as int] is None && x != bb) by {
                        assert(new_row@.contains_key(x));
                    }
                } else {
                    assert(before.basic(bb));
                    let orow = before.row_of(bb)@;
                    assert forall|x: usize| #[trigger] row@.contains_key(x) implies (x < n && self.tableau@[x as int] is None && x != bb) by {
                        if orow.contains_key(entering) {
                            assert(merged_entry(orow.remove(entering), new_row@, orow[entering]@, row@, x));
                            if orow.remove(entering).contains_key(x) {
                                assert(orow.contains_key(x));
                                assert(before.tableau@[bb] is Some);
                            } else {
                                assert(new_row@.contains_key(x));
                                if x == leaving {
                                } else {
                                    assert(!before.basic(x as int));
                                }
                            }
                        } else {
                            assert(row@ == before.row_of(bb)@);
                            assert(before.tableau@[bb] is Some);
                            assert(orow.contains_key(x));
                            assert(x != leaving);
                        }
                    }
                }
            }
            assert forall|v: int| 0 <= v < n && #[trigger] self.tableau@[v] is None implies self.in_bounds(v) by {
                if v != leaving {
                    assert(before.tableau@[v] is None);
                    assert(before.in_bounds(v));
                }
            }
            assert(self.pivoted(*old(self), entering, leaving));
            Self::lemma_rows_pivoted(*old(self), *self, entering, leaving);
        }
        Ok(())
    }
}

/// Multiplying by fractions of the same value gives fractions of the same value.
pub proof fn lemma_mul_eqv_right(a: Ratio, b: Ratio, b2: Ratio)
    requires
        b.eqv(b2),
    ensures
        a.mul(b).eqv(a.mul(b2)),
{
    assert((a.num * b.num) * (a.den * b2.den) == (a.num * b2.num) * (a.den * b.den)) by (nonlinear_arith)
        requires
            b.num * b2.den == b2.num * b.den,
    ;
}

impl LraTheory {
    /// Bounds, variable kinds and saved levels are those of `old`.
    pub open spec fn same_bounds(self, old: LraTheory) -> bool {
        &&& self.num_vars() == old.num_vars()
        &&& self.lower_bounds() == old.lower_bounds()
        &&& self.upper_bounds() == old.upper_bounds()
        &&& forall|v: int| 0 <= v < old.num_vars() ==> #[trigger] self.int_var(v) == old.int_var(v)
        &&& self.levels() == old.levels()
        &&& forall|k: int| 0 <= k < old.levels() ==> #[trigger] self.saved_at(k) == old.saved_at(k)
    }

    /// `self` is `old` with the basic variable `leaving` set to `value` and the
    /// non-basic `entering` moved by `theta = (value - old value of leaving) / c`,
    /// `c` the coefficient of `entering` in the row of `leaving`; every other
    /// basic variable whose row holds `entering` moves by `theta` times its
    /// coefficient.
    pub open spec fn moved_through(self, old: LraTheory, entering: int, leaving: int, value: IRatio) -> bool {
        let theta = value.sub(old.val(leaving)).div(old.row_of(leaving)@[entering as usize]@);
        &&& self.val(leaving) == value
        &&& self.val(entering).eqv(old.val(entering).add(theta))
        &&& forall|b: int|
            0 <= b < old.num_vars() && b != entering && b != leaving && old.basic(b) && #[trigger] old.row_of(
                b,
            )@.contains_key(entering as usize) ==> self.val(b).eqv(old.val(b).add(theta.scale(old.row_of(b)@[entering as usize]@)))
        &&& forall|b: int|
            0 <= b < old.num_vars() && b != entering && b != leaving && !(old.basic(b) && old.row_of(b)@.contains_key(
                entering as usize,
            )) ==> #[trigger] self.val(b) == old.val(b)
    }

    /// Sets the basic variable `leaving` to `new_value`, moving the non-basic
    /// `entering` (and every basic variable whose row holds it) to keep the
    /// rows satisfied, then pivots `entering` into the basis in place of
    /// `leaving`.
    pub fn pivot_and_update(&mut self, entering: usize, leaving: usize, new_value: InfRational) -> (r: Result<(), LraError>)
        requires
            old(self).wf(),
            entering < old(self).num_vars(),
            leaving < old(self).num_vars(),
            old(self).basic(leaving as int),
            !old(self).basic(entering as int),
            old(self).row_of(leaving as int)@.contains_key(entering),
            old(self).row_of(leaving as int)@[entering]@.num != 0,
            new_value@.real is Fin,
            old(self).lb_of(leaving as int).le(new_value@),
            new_value@.le(old(self).ub_of(leaving as int)),
        ensures
            r is Ok || r == Err::<(), LraError>(LraError::Overflow),
            r is Err ==> *final(self) == *old(self),
            r is Ok ==> {
                &&& final(self).wf()
                &&& final(self).same_bounds(*old(self))
                &&& final(self).pivoted(*old(self), entering, leaving)
                &&& final(self).moved_through(*old(self), entering as int, leaving as int, new_value@)
            },
    {
        let n = self.reals.len();
        let pc = *self.tableau[leaving].as_ref().unwrap().get(&entering).unwrap();
        let diff = match new_value.checked_sub(&self.reals[leaving]) {
            Some(d) => d,
            None => {
                return Err(LraError::Overflow);
            },
        };
        let theta = match diff.checked_div(&pc) {
            Some(t) => t,
            None => {
                return Err(LraError::Overflow);
            },
        };
        let ghost th = new_value@.sub(self.val(leaving as int)).div(pc@);
        proof {
            assert(pc == self.row_of(leaving as int)@[entering]);
            assert(diff@.wf() && new_value@.wf() && self.val(leaving as int).wf() && self.val(leaving as int).real is Fin);
            assert(pc@.fits());
            crate::rational::lemma_iratio_div_eqv(diff@, new_value@.sub(self.val(leaving as int)), pc@);
            crate::rational::lemma_iratio_ops_wf(new_value@, self.val(leaving as int), pc@);
            crate::rational::lemma_iratio_div_wf(new_value@.sub(self.val(leaving as int)), pc@);
            crate::rational::lemma_iratio_div_wf(diff@, pc@);
            assert(theta@.wf());
            crate::rational::lemma_iratio_eqv(theta@, diff@.div(pc@), th);
            assert(theta@.eqv(th));
            assert(theta@.real is Fin);
            assert(th.real is Fin && th.wf());
        }
        let mut next: Vec<InfRational> = Vec::new();
        let mut b: usize = 0;
        while b < n
            invariant
                self.wf(),
                n == self.num_vars(),
                entering < n,
                leaving < n,
                entering != leaving,
                self.basic(leaving as int),
                !self.basic(entering as int),
                new_value@.real is Fin,
                theta@.eqv(th),
                theta@.real is Fin,
                th.real is Fin,
                th.wf(),
                b <= n,
                next.len() == b,
                forall|k: int| 0 <= k < b ==> (#[trigger] next@[k])@.real is Fin,
                forall|k: int| 0 <= k < b && k == leaving ==> #[trigger] next@[k] == new_value,
                forall|k: int| 0 <= k < b && k == entering ==> (#[trigger] next@[k])@.eqv(self.val(k).add(th)),
                forall|k: int|
                    0 <= k < b && k != entering && k != leaving && self.basic(k) && self.row_of(k)@.contains_key(entering)
                        ==> (#[trigger] next@[k])@.eqv(self.val(k).add(th.scale(self.row_of(k)@[entering]@))),
                forall|k: int|
                    0 <= k < b && k != entering && k != leaving && !(self.basic(k) && self.row_of(k)@.contains_key(entering))
                        ==> #[trigger] next@[k] == self.reals@[k],
            decreases n - b,
        {
            let x = self.reals[b];
            let mut scale_by: Option<Fraction> = None;
            if b != leaving && b != entering {
                if let Some(row) = &self.tableau[b] {
                    if let Some(c) = row.get(&entering) {
                        scale_by = Some(*c);
                    }
                }
            }
            proof {
                assert(x@.wf() && x@.real is Fin);
            }
            let nv = if b == leaving {
                new_value
            } else if b == entering {
                match x.checked_add(&theta) {
                    Some(v) => {
                        proof {
                            crate::rational::lemma_iratio_ops_wf(x@, theta@, Ratio::of_int(1));
                            crate::rational::lemma_iratio_ops_wf(x@, th, Ratio::of_int(1));
                            crate::rational::lemma_iratio_eqv(x@, x@, x@);
                            crate::rational::lemma_iratio_add_eqv(x@, x@, theta@, th);
                            assert(v@.wf());
                            crate::rational::lemma_iratio_eqv(v@, x@.add(theta@), x@.add(th));
                            assert(v@.real is Fin);
                        }
                        v
                    },
                    None => {
                        return Err(LraError::Overflow);
                    },
                }
            } else {
                match scale_by {
                    Some(c) => {
                        let d = match theta.checked_scale(&c) {
                            Some(d) => d,
                            None => {
                                return Err(LraError::Overflow);
                            },
                        };
                        match x.checked_add(&d) {
                            Some(v) => {
                                proof {
                                    assert(c@.fits());
                                    crate::rational::lemma_iratio_ops_wf(theta@, theta@, c@);
                                    crate::rational::lemma_iratio_ops_wf(th, th, c@);
                                    crate::rational::lemma_iratio_scale_eqv(theta@, th, c@);
                                    assert(d@.wf());
                                    crate::rational::lemma_iratio_eqv(d@, theta@.scale(c@), th.scale(c@));
                                    crate::rational::lemma_iratio_ops_wf(x@, d@, c@);
                                    crate::rational::lemma_iratio_ops_wf(x@, th.scale(c@), c@);
                                    crate::rational::lemma_iratio_eqv(x@, x@, x@);
                                    crate::rational::lemma_iratio_add_eqv(x@, x@, d@, th.scale(c@));
                                    assert(v@.wf());
                                    crate::rational::lemma_iratio_eqv(v@, x@.add(d@), x@.add(th.scale(c@)));
                                    assert(v@.real is Fin);
                                }
                                v
                            },
                            None => {
                                return Err(LraError::Overflow);
                            },
                        }
                    },
                    None => x,
                }
            };
            let ghost prev = next@;
            next.push(nv);
            proof {
                assert forall|k: int| 0 <= k < b + 1 implies (#[trigger] next@[k])@.real is Fin by {
                    if k < b {
                        assert(next@[k] == prev[k]);
                    }
                }
            }
            b += 1;
        }
        let ghost before = *self;
        let mut vals = next;
        std::mem::swap(&mut self.reals, &mut vals);
        proof {
            let old_e = before.val(entering as int);
            let old_l = before.val(leaving as int);
            let target = old_e.add(th);
            let one = Ratio::of_int(1);
            assert(old_e.wf() && old_e.real is Fin && old_l.wf() && old_l.real is Fin);
            assert(new_value@.wf());
            crate::rational::lemma_iratio_ops_wf(old_e, th, one);
            crate::rational::lemma_iratio_ops_wf(target, old_e, one);
            crate::rational::lemma_iratio_add_sub(old_e, th);
            assert forall|bb: int| 0 <= bb < n && bb != entering implies if before.basic(bb) && before.row_of(bb)@.contains_key(
                entering,
            ) {
                (#[trigger] self.val(bb)).eqv(before.val(bb).add(target.sub(old_e).scale(before.row_of(bb)@[entering]@)))
            } else {
                self.val(bb) == before.val(bb)
            } by {
                if before.basic(bb) && before.row_of(bb)@.contains_key(entering) {
                    let c = before.row_of(bb)@[entering]@;
                    let ob = before.val(bb);
                    assert(c.fits());
                    assert(ob.wf() && ob.real is Fin && self.val(bb).wf());
                    crate::rational::lemma_iratio_ops_wf(th, th, c);
                    crate::rational::lemma_iratio_ops_wf(target.sub(old_e), th, c);
                    crate::rational::lemma_iratio_ops_wf(ob, th.scale(c), c);
                    crate::rational::lemma_iratio_ops_wf(ob, target.sub(old_e).scale(c), c);
                    crate::rational::lemma_iratio_scale_eqv(target.sub(old_e), th, c);
                    crate::rational::lemma_iratio_eqv(ob, ob, ob);
                    crate::rational::lemma_iratio_add_eqv(ob, ob, target.sub(old_e).scale(c), th.scale(c));
                    crate::rational::lemma_iratio_eqv(
                        ob.add(target.sub(old_e).scale(c)),
                        ob.add(th.scale(c)),
                        ob.add(th.scale(c)),
                    );
                    if bb == leaving {
                        let dv = new_value@.sub(old_l);
                        crate::rational::lemma_iratio_ops_wf(new_value@, old_l, c);
                        assert(c == pc@);
                        assert(th == dv.div(c));
                        crate::rational::lemma_iratio_div_scale(dv, c);
                        crate::rational::lemma_iratio_eqv(th.scale(c), dv, dv);
                        crate::rational::lemma_iratio_add_eqv(ob, ob, th.scale(c), dv);
                        crate::rational::lemma_iratio_add_sub(old_l, new_value@);
                        crate::rational::lemma_iratio_ops_wf(ob, dv, c);
                        crate::rational::lemma_iratio_eqv(ob.add(th.scale(c)), ob.add(dv), new_value@);
                        crate::rational::lemma_iratio_eqv(new_value@, ob.add(th.scale(c)), ob.add(target.sub(old_e).scale(c)));
                        crate::rational::lemma_iratio_eqv(ob.add(th.scale(c)), new_value@, new_value@);
                        crate::rational::lemma_iratio_eqv(ob.add(target.sub(old_e).scale(c)), ob.add(th.scale(c)), new_value@);
                        crate::rational::lemma_iratio_eqv(new_value@, ob.add(target.sub(old_e).scale(c)), ob.add(target.sub(old_e).scale(c)));
                    } else {
                        crate::rational::lemma_iratio_eqv(ob.add(target.sub(old_e).scale(c)), ob.add(th.scale(c)), self.val(bb));
                        crate::rational::lemma_iratio_eqv(ob.add(th.scale(c)), self.val(bb), self.val(bb));
                        crate::rational::lemma_iratio_eqv(self.val(bb), ob.add(th.scale(c)), ob.add(target.sub(old_e).scale(c)));
                    }
                }
            }
            assert(self.val(entering as int).eqv(target));
            Self::lemma_rows_moved(before, *self, entering as int, target);
            assert(self.wf_except(entering as int)) by {
                assert forall|v: int| 0 <= v < n && v != entering && #[trigger] self.tableau@[v] is None implies self.in_bounds(v) by {
                    assert(before.in_bounds(v));
                    assert(v != leaving);
                }
            }
            assert(self.in_bounds(leaving as int));
        }
        let ghost mid = *self;
        match self.pivot(entering, leaving) {
            Ok(()) => {},
            Err(e) => {
                std::mem::swap(&mut self.reals, &mut vals);
                return Err(e);
            },
        }
        proof {
            assert forall|bb: int| 0 <= bb < n && bb != entering && bb != leaving && before.basic(bb)
                && #[trigger] before.row_of(bb)@.contains_key(entering) implies self.val(bb).eqv(
                before.val(bb).add(th.scale(before.row_of(bb)@[entering]@)),
            ) by {
                assert(self.val(bb) == mid.val(bb));
            }
            assert forall|bb: int| 0 <= bb < n && bb != entering && bb != leaving && !(before.basic(bb) && before.row_of(bb)@.contains_key(
                entering,
            )) implies #[trigger] self.val(bb) == before.val(bb) by {
                assert(self.val(bb) == mid.val(bb));
            }
            assert(self.val(entering as int) == mid.val(entering as int));
            assert(self.val(leaving as int) == mid.val(leaving as int));
            assert forall|bb: int| 0 <= bb < n && bb != entering && bb != leaving implies #[trigger] self.basic(bb) == before.basic(bb) by {
                assert(self.basic(bb) == mid.basic(bb));
            }
            assert(self.pivoted(before, entering, leaving));
        }
        Ok(())
    }
}

impl LraTheory {
    /// The basic variable `b` is below its lower bound (`below`) or above its
    /// upper bound (`!below`).
    pub open spec fn violated(self, b: int, below: bool) -> bool {
        if below {
            self.val(b).lt(self.lb_of(b))
        } else {
            self.ub_of(b).lt(self.val(b))
        }
    }

    /// `v` has a non-zero coefficient in the row of `leaving` and can move in
    /// the direction that brings `leaving` back towards its violated bound.
    pub open spec fn can_move(self, leaving: int, below: bool, v: usize) -> bool {
        let c = self.row_of(leaving)@[v]@;
        &&& c.num != 0
        &&& if below == (c.num > 0) {
            self.val(v as int).lt(self.ub_of(v as int))
        } else {
            self.lb_of(v as int).lt(self.val(v as int))
        }
    }

    /// The literal of the bound that stops `v` from repairing `leaving`.
    pub open spec fn guard(self, leaving: int, below: bool, v: usize) -> Option<Lit> {
        if below == (self.row_of(leaving)@[v]@.num > 0) {
            self.upper_bounds()[v as int].0
        } else {
            self.lower_bounds()[v as int].0
        }
    }

    /// The literal of the bound that `leaving` violates.
    pub open spec fn own_guard(self, leaving: int, below: bool) -> Option<Lit> {
        if below {
            self.lower_bounds()[leaving].0
        } else {
            self.upper_bounds()[leaving].0
        }
    }

    /// `l` belongs to the explanation of why `leaving` cannot be repaired: it is
    /// the negation of a blocking bound's literal or of the violated bound's.
    pub open spec fn explains(self, leaving: int, below: bool, l: Lit) -> bool {
        ||| exists|v: usize| #[trigger]
            self.row_of(leaving)@.contains_key(v) && self.guard(leaving, below, v) == Some(l.negated())
        ||| self.own_guard(leaving, below) == Some(l.negated())
    }

    /// The first basic variable outside its bounds, with the side it violates.
    fn find_violation(&self) -> (r: Option<(usize, bool)>)
        requires
            self.wf(),
        ensures
            match r {
                Some((b, below)) => b < self.num_vars() && self.basic(b as int) && self.violated(b as int, below),
                None => forall|v: int| 0 <= v < self.num_vars() ==> #[trigger] self.in_bounds(v),
            },
    {
        let mut b: usize = 0;
        while b < self.reals.len()
            invariant
                self.wf(),
                b <= self.reals.len(),
                forall|v: int| 0 <= v < b ==> #[trigger] self.in_bounds(v),
            decreases self.reals.len() - b,
        {
            if self.tableau[b].is_some() {
                if self.reals[b].lt(&self.lbs[b].1) {
                    return Some((b, true));
                }
                if self.ubs[b].1.lt(&self.reals[b]) {
                    return Some((b, false));
                }
                proof {
                    lemma_iratio_trichotomy(self.val(b as int), self.lb_of(b as int));
                    lemma_iratio_trichotomy(self.ub_of(b as int), self.val(b as int));
                }
            }
            b += 1;
        }
        None
    }

    /// The first variable of the row of `leaving` that can move to repair it.
    fn find_entering(&self, leaving: usize, below: bool) -> (r: Option<usize>)
        requires
            self.wf(),
            leaving < self.num_vars(),
            self.basic(leaving as int),
        ensures
            match r {
                Some(e) => self.row_of(leaving as int)@.contains_key(e) && self.can_move(leaving as int, below, e),
                None => forall|v: usize| #[trigger]
                    self.row_of(leaving as int)@.contains_key(v) ==> !self.can_move(leaving as int, below, v),
            },
    {
        let row = self.tableau[leaving].as_ref().unwrap();
        let terms = row.iter();
        proof {
            row.lemma_entries();
        }
        let mut i: usize = 0;
        while i < terms.len()
            invariant
                self.wf(),
                leaving < self.num_vars(),
                self.basic(leaving as int),
                *row == self.row_of(leaving as int),
                row.wf(),
                terms@ == row.seq(),
                sorted_vars(row.seq()),
                row@ == coeff_map(row.seq()),
                i <= terms.len(),
                forall|k: int| 0 <= k < i ==> !self.can_move(leaving as int, below, #[trigger] terms@[k].0),
            decreases terms.len() - i,
        {
            let (v, c) = terms[i];
            proof {
                lemma_coeff_at(row.seq(), i as int);
                assert(row@[v] == c);
                assert(v < self.num_vars());
            }
            if !c.is_zero() {
                let up = below == c.is_positive();
                let movable = if up {
                    self.reals[v].lt(&self.ubs[v].1)
                } else {
                    self.lbs[v].1.lt(&self.reals[v])
                };
                if movable {
                    return Some(v);
                }
            }
            i += 1;
        }
        proof {
            assert forall|v: usize| #[trigger]
                self.row_of(leaving as int)@.contains_key(v) implies !self.can_move(leaving as int, below, v) by {
                let k = choose|k: int| 0 <= k < row.seq().len() && row.seq()[k].0 == v;
                assert(terms@[k].0 == v);
            }
        }
        None
    }

    /// The clause explaining why the basic variable `leaving` cannot be
    /// repaired: the negations of the literals of the blocking bounds and of
    /// the violated bound, sorted, without repeats.
    fn explain(&self, leaving: usize, below: bool) -> (r: Vec<Lit>)
        requires
            self.wf(),
            leaving < self.num_vars(),
            self.basic(leaving as int),
        ensures
            forall|l: Lit| #[trigger] r@.contains(l) <==> self.explains(leaving as int, below, l),
            forall|i: int, j: int| 0 <= i < j < r@.len() ==> r@[i].before(r@[j]),
    {
        let row = self.tableau[leaving].as_ref().unwrap();
        let terms = row.iter();
        proof {
            row.lemma_entries();
        }
        let mut out: Vec<Lit> = Vec::new();
        let mut i: usize = 0;
        while i < terms.len()
            invariant
                self.wf(),
                leaving < self.num_vars(),
                self.basic(leaving as int),
                *row == self.row_of(leaving as int),
                terms@ == row.seq(),
                sorted_vars(row.seq()),
                row@ == coeff_map(row.seq()),
                i <= terms.len(),
                forall|l: Lit|
                    #[trigger] out@.contains(l) <==> exists|k: int|
                        0 <= k < i && self.guard(leaving as int, below, #[trigger] terms@[k].0) == Some(l.negated()),
            decreases terms.len() - i,
        {
            let (v, c) = terms[i];
            proof {
                lemma_coeff_at(row.seq(), i as int);
                assert(row@[v] == c);
                assert(v < self.num_vars());
            }
            let g = if below == c.is_positive() {
                self.ubs[v].0
            } else {
                self.lbs[v].0
            };
            let ghost prev = out@;
            if let Some(l) = g {
                out.push(l.negate());
            }
            proof {
                assert forall|l: Lit|
                    #[trigger] out@.contains(l) <==> exists|k: int|
                        0 <= k < i + 1 && self.guard(leaving as int, below, #[trigger] terms@[k].0) == Some(l.negated()) by {
                    if out@.contains(l) {
                        let idx = choose|idx: int| 0 <= idx < out@.len() && out@[idx] == l;
                        if idx < prev.len() {
                            assert(prev[idx] == l);
                            assert(prev.contains(l));
                        } else {
                            assert(l.negated() == g->0);
                            assert(self.guard(leaving as int, below, terms@[i as int].0) == Some(l.negated()));
                        }
                    }
                    if exists|k: int| 0 <= k < i + 1 && self.guard(leaving as int, below, #[trigger] terms@[k].0) == Some(l.negated()) {
                        let k = choose|k: int| 0 <= k < i + 1 && self.guard(leaving as int, below, #[trigger] terms@[k].0) == Some(l.negated());
                        if k < i {
                            assert(prev.contains(l));
                            let idx = choose|idx: int| 0 <= idx < prev.len() && prev[idx] == l;
                            assert(out@[idx] == l);
                        } else {
                            assert(g == Some(l.negated()));
                            assert(out@[out@.len() - 1] == l.negated().negated());
                            assert(l.negated().negated() == l);
                        }
                    }
                }
            }
            i += 1;
        }
        let own = if below {
            self.lbs[leaving].0
        } else {
            self.ubs[leaving].0
        };
        let ghost prev = out@;
        if let Some(l) = own {
            out.push(l.negate());
        }
        proof {
            assert forall|l: Lit| #[trigger] out@.contains(l) <==> self.explains(leaving as int, below, l) by {
                let g1 = exists|v: usize| #[trigger]
                    self.row_of(leaving as int)@.contains_key(v) && self.guard(leaving as int, below, v) == Some(l.negated());
                let g2 = exists|k: int|
                    0 <= k < terms@.len() && self.guard(leaving as int, below, #[trigger] terms@[k].0) == Some(l.negated());
                if g1 {
                    let v = choose|v: usize| #[trigger]
                        self.row_of(leaving as int)@.contains_key(v) && self.guard(leaving as int, below, v) == Some(l.negated());
                    let k = choose|k: int| 0 <= k < row.seq().len() && row.seq()[k].0 == v;
                    assert(terms@[k].0 == v);
                }
                if g2 {
                    let k = choose|k: int|
                        0 <= k < terms@.len() && self.guard(leaving as int, below, #[trigger] terms@[k].0) == Some(l.negated());
                    lemma_coeff_at(row.seq(), k);
                }
                if out@.contains(l) {
                    let idx = choose|idx: int| 0 <= idx < out@.len() && out@[idx] == l;
                    if idx < prev.len() {
                        assert(prev[idx] == l);
                        assert(prev.contains(l));
                    } else {
                        assert(l.negated() == own->0);
                    }
                }
                if self.own_guard(leaving as int, below) == Some(l.negated()) {
                    assert(out@[out@.len() - 1] == l.negated().negated());
                    assert(l.negated().negated() == l);
                }
                if prev.contains(l) {
                    let idx = choose|idx: int| 0 <= idx < prev.len() && prev[idx] == l;
                    assert(out@[idx] == l);
                }
            }
        }
        sort_dedup(&mut out);
        out
    }

    /// Repairs the assignment so that every variable lies within its bounds,
    /// pivoting basic variables out of violated bounds (the first violated
    /// basic variable, with the first variable of its row that can move).
    ///
    /// Returns a conflict when some basic variable is outside a bound and no
    /// variable of its row can move to repair it.
    pub fn check(&mut self) -> (r: Result<(), LraError>)
        requires
            old(self).wf(),
        ensures
            final(self).wf(),
            final(self).same_bounds(*old(self)),
            r is Ok ==> forall|v: int| 0 <= v < final(self).num_vars() ==> #[trigger] final(self).in_bounds(v),
            r matches Err(LraError::Conflict(c)) ==> exists|leaving: int, below: bool| {
                &&& 0 <= leaving < final(self).num_vars()
                &&& final(self).basic(leaving)
                &&& #[trigger] final(self).violated(leaving, below)
                &&& forall|v: usize| #[trigger]
                    final(self).row_of(leaving)@.contains_key(v) ==> !final(self).can_move(leaving, below, v)
                &&& forall|l: Lit| #[trigger] c@.contains(l) <==> final(self).explains(leaving, below, l)
                &&& forall|i: int, j: int| 0 <= i < j < c@.len() ==> c@[i].before(c@[j])
            },
    {
        let ghost orig = *self;
        let mut fuel: u64 = u64::MAX;
        while fuel > 0
            invariant
                self.wf(),
                self.same_bounds(orig),
                orig == *old(self),
            decreases fuel,
        {
            fuel -= 1;
            match self.find_violation() {
                None => {
                    return Ok(());
                },
                Some((leaving, below)) => {
                    match self.find_entering(leaving, below) {
                        Some(entering) => {
                            let target = if below {
                                self.lbs[leaving].1
                            } else {
                                self.ubs[leaving].1
                            };
                            if !target.is_finite() {
                                return Err(LraError::Overflow);
                            }
                            proof {
                                assert(self.val(leaving as int).wf() && target@.wf());
                                assert(self.lb_of(leaving as int).wf() && self.ub_of(leaving as int).wf());
                                if below {
                                    lemma_iratio_trichotomy(self.lb_of(leaving as int), self.ub_of(leaving as int));
                                    crate::rational::lemma_iratio_eqv(target@, target@, target@);
                                } else {
                                    lemma_iratio_trichotomy(self.lb_of(leaving as int), self.ub_of(leaving as int));
                                    crate::rational::lemma_iratio_eqv(target@, target@, target@);
                                }
                                assert(!self.basic(entering as int));
                                assert(entering < self.num_vars());
                            }
                            let ghost pre = *self;
                            match self.pivot_and_update(entering, leaving, target) {
                                Ok(()) => {},
                                Err(e) => {
                                    return Err(e);
                                },
                            }
                            proof {
                                assert forall|k: int| 0 <= k < orig.levels() implies #[trigger] self.saved_at(k) == orig.saved_at(k) by {
                                    assert(self.saved_at(k) == pre.saved_at(k));
                                }
                                assert forall|v: int| 0 <= v < orig.num_vars() implies #[trigger] self.int_var(v) == orig.int_var(v) by {
                                    assert(self.int_var(v) == pre.int_var(v));
                                }
                            }
                        },
                        None => {
                            let c = self.explain(leaving, below);
                            return Err(LraError::Conflict(c));
                        },
                    }
                },
            }
        }
        Err(LraError::Unresolved)
    }
}

/// The coefficient of `v` in `m`, zero when `m` has none.
pub open spec fn coef(m: Map<usize, Fraction>, v: usize) -> Ratio {
    if m.contains_key(v) {
        m[v]@
    } else {
        Ratio::zero()
    }
}

/// Adding a zero-valued fraction changes nothing up to `eqv`.
pub proof fn lemma_add_zero_valued(a: Ratio, z: Ratio)
    requires
        z.num == 0,
        z.den > 0,
        a.den > 0,
    ensures
        a.add(z).eqv(a),
        Ratio::zero().add(a).eqv(a),
{
    assert(a.add(z).eqv(a)) by (nonlinear_arith)
        requires
            z.num == 0,
    ;
    assert(Ratio::zero().add(a).eqv(a)) by (nonlinear_arith);
}

impl LraTheory {
    /// The value of the linear combination `s` under the current assignment.
    pub open spec fn row_eval(self, s: Seq<(usize, Fraction)>) -> IRatio
        decreases s.len(),
    {
        if s.len() == 0 {
            IRatio::of_int(0)
        } else {
            self.row_eval(s.drop_last()).add(self.val(s.last().0 as int).scale(s.last().1@))
        }
    }

    /// `Σ m[b] · (coefficient of v in the row of b)` over the basic variables
    /// `b < k` that `m` holds.
    pub open spec fn subst_sum(self, m: Map<usize, Fraction>, v: usize, k: int) -> Ratio
        decreases k,
    {
        if k <= 0 {
            Ratio::zero()
        } else {
            let rest = self.subst_sum(m, v, k - 1);
            if self.basic(k - 1) && m.contains_key((k - 1) as usize) {
                rest.add(m[(k - 1) as usize]@.mul(coef(self.row_of(k - 1)@, v)))
            } else {
                rest
            }
        }
    }

    proof fn lemma_subst_sum_wf(self, m: Map<usize, Fraction>, v: usize, k: int)
        requires
            self.wf(),
            k <= self.num_vars(),
        ensures
            self.subst_sum(m, v, k).wf(),
        decreases k,
    {
        if k > 0 {
            self.lemma_subst_sum_wf(m, v, k - 1);
            if self.basic(k - 1) && m.contains_key((k - 1) as usize) {
                let c = coef(self.row_of(k - 1)@, v);
                assert(m[(k - 1) as usize]@.fits());
                if self.row_of(k - 1)@.contains_key(v) {
                    assert(self.row_of(k - 1)@[v]@.fits());
                }
                crate::fraction::lemma_ops_wf(m[(k - 1) as usize]@, c);
                crate::fraction::lemma_ops_wf(self.subst_sum(m, v, k - 1), m[(k - 1) as usize]@.mul(c));
            }
        }
    }

    /// `Σ r[b]·f(b)` over the basic variables `b < k` that `r` holds.
    pub open spec fn basic_sum(self, r: Map<usize, Fraction>, f: spec_fn(int) -> Ratio, k: int) -> Ratio
        decreases k,
    {
        if k <= 0 {
            Ratio::zero()
        } else if self.basic(k - 1) && r.contains_key((k - 1) as usize) {
            self.basic_sum(r, f, k - 1).add(r[(k - 1) as usize]@.mul(f(k - 1)))
        } else {
            self.basic_sum(r, f, k - 1)
        }
    }

    /// The substitution sums, as coefficients, sum to the basic part of `r`
    /// when each basic variable has the value of its row under `f`.
    proof fn lemma_subst_dot(self, r: Map<usize, Fraction>, f: spec_fn(int) -> Ratio, k: int)
        requires
            self.wf(),
            0 <= k <= self.num_vars(),
            all_wf(f, self.num_vars() as int),
            forall|b: int|
                0 <= b < self.num_vars() && #[trigger] self.basic(b) ==> f(b).eqv(
                    dot(coefs(self.row_of(b)@), f, self.num_vars() as int),
                ),
        ensures
            dot(|x: int| self.subst_sum(r, x as usize, k), f, self.num_vars() as int).eqv(self.basic_sum(r, f, k)),
            self.basic_sum(r, f, k).wf(),
        decreases k,
    {
        let n = self.num_vars() as int;
        let g = |x: int| self.subst_sum(r, x as usize, k);
        assert forall|x: int| 0 <= x < n implies (#[trigger] g(x)).wf() by {
            self.lemma_subst_sum_wf(r, x as usize, k);
        }
        if k == 0 {
            assert forall|x: int| 0 <= x < n implies (#[trigger] g(x)).num == 0 by {}
            lemma_dot_zero(g, f, n);
            lemma_dot_wf(g, f, n);
            let d = dot(g, f, n);
            assert(d.eqv(Ratio::zero())) by (nonlinear_arith)
                requires
                    d.num == 0,
            ;
        } else {
            let j = k - 1;
            self.lemma_subst_dot(r, f, j);
            let g0 = |x: int| self.subst_sum(r, x as usize, j);
            assert forall|x: int| 0 <= x < n implies (#[trigger] g0(x)).wf() by {
                self.lemma_subst_sum_wf(r, x as usize, j);
            }
            let s0 = self.basic_sum(r, f, j);
            lemma_dot_wf(g0, f, n);
            lemma_dot_wf(g, f, n);
            if self.basic(j) && r.contains_key(j as usize) {
                let a = r[j as usize]@;
                assert(a.fits());
                let row = self.row_of(j)@;
                let gr = coefs(row);
                lemma_parts_wf(Seq::<InfRational>::empty(), row, n);
                let t = |x: int| gr(x).mul(a);
                assert forall|x: int| 0 <= x < n implies (#[trigger] t(x)).wf() by {
                    assert(gr(x).wf());
                    lemma_ops_wf(gr(x), a);
                }
                assert forall|x: int| 0 <= x < n implies (#[trigger] g(x)).eqv(g0(x).add(t(x))) by {
                    lemma_mul_comm(a, gr(x));
                    lemma_eqv_refl(g(x));
                }
                lemma_dot_add(g0, t, g, f, n);
                assert forall|x: int| 0 <= x < n implies (#[trigger] t(x)).eqv(gr(x).mul(a)) by {
                    lemma_eqv_refl(t(x));
                }
                lemma_dot_scale(gr, t, a, f, n);
                // dot(t) ~ dot(gr)·a ~ f(j)·a == a·f(j)
                lemma_dot_wf(gr, f, n);
                lemma_dot_wf(t, f, n);
                assert(f(j).wf());
                lemma_eqv_sym(f(j), dot(gr, f, n));
                lemma_eqv_refl(a);
                lemma_mul_eqv(dot(gr, f, n), f(j), a, a);
                lemma_ops_wf(dot(gr, f, n), a);
                lemma_eqv_trans(dot(t, f, n), dot(gr, f, n).mul(a), f(j).mul(a));
                lemma_mul_comm(f(j), a);
                lemma_add_eqv(dot(g0, f, n), s0, dot(t, f, n), a.mul(f(j)));
                lemma_ops_wf(dot(g0, f, n), dot(t, f, n));
                lemma_eqv_trans(dot(g, f, n), dot(g0, f, n).add(dot(t, f, n)), s0.add(a.mul(f(j))));
                lemma_ops_wf(a, f(j));
                lemma_ops_wf(s0, a.mul(f(j)));
            } else {
                assert forall|x: int| 0 <= x < n implies (#[trigger] g(x)).eqv(g0(x)) by {
                    lemma_eqv_refl(g(x));
                }
                assert forall|x: int| 0 <= x < n implies (#[trigger] g(x)).num == 0 || f(x) == f(x) by {}
                lemma_dot_congr(g, g0, f, f, n);
                lemma_eqv_trans(dot(g, f, n), dot(g0, f, n), s0);
            }
        }
    }

    /// The basic part of a row sums to its basic sum.
    proof fn lemma_basic_part_dot(self, r: Map<usize, Fraction>, f: spec_fn(int) -> Ratio, k: int)
        requires
            self.wf(),
            0 <= k <= self.num_vars(),
            all_wf(f, self.num_vars() as int),
        ensures
            dot(|x: int| if self.basic(x) { coefs(r)(x) } else { Ratio::zero() }, f, k).eqv(self.basic_sum(r, f, k)),
        decreases k,
    {
        let n = self.num_vars() as int;
        let g = |x: int| if self.basic(x) { coefs(r)(x) } else { Ratio::zero() };
        lemma_parts_wf(Seq::<InfRational>::empty(), r, n);
        assert forall|x: int| 0 <= x < k implies (#[trigger] g(x)).wf() by {
            assert(coefs(r)(x).wf());
        }
        assert forall|x: int| 0 <= x < k implies (#[trigger] f(x)).wf() by {}
        if k == 0 {
            lemma_eqv_refl(Ratio::zero());
        } else {
            let j = k - 1;
            self.lemma_basic_part_dot(r, f, j);
            assert forall|x: int| 0 <= x < j implies (#[trigger] g(x)).wf() by {}
            assert forall|x: int| 0 <= x < j implies (#[trigger] f(x)).wf() by {}
            lemma_dot_wf(g, f, j);
            self.lemma_basic_sum_wf(r, f, j);
            let d0 = dot(g, f, j);
            let s0 = self.basic_sum(r, f, j);
            assert(f(j).wf() && g(j).wf());
            lemma_ops_wf(g(j), f(j));
            if self.basic(j) && r.contains_key(j as usize) {
                assert(g(j) == r[j as usize]@);
                lemma_eqv_refl(g(j).mul(f(j)));
                lemma_add_eqv(d0, s0, g(j).mul(f(j)), g(j).mul(f(j)));
            } else {
                lemma_zero_valued(f(j), g(j));
                lemma_add_zero_r(d0, g(j).mul(f(j)));
                lemma_eqv_trans(d0.add(g(j).mul(f(j))), d0, s0);
            }
        }
    }

    proof fn lemma_basic_sum_wf(self, r: Map<usize, Fraction>, f: spec_fn(int) -> Ratio, k: int)
        requires
            self.wf(),
            0 <= k <= self.num_vars(),
            all_wf(f, self.num_vars() as int),
        ensures
            self.basic_sum(r, f, k).wf(),
        decreases k,
    {
        if k > 0 {
            self.lemma_basic_sum_wf(r, f, k - 1);
            if self.basic(k - 1) && r.contains_key((k - 1) as usize) {
                assert(r[(k - 1) as usize]@.fits());
                assert(f(k - 1).wf());
                lemma_ops_wf(r[(k - 1) as usize]@, f(k - 1));
                lemma_ops_wf(self.basic_sum(r, f, k - 1), r[(k - 1) as usize]@.mul(f(k - 1)));
            }
        }
    }

    /// A canonical form of `r` (over non-basic variables, with the
    /// coefficients of `r` plus the substituted rows) has the value of `r`
    /// when every basic variable has the value of its row under `f`.
    proof fn lemma_canonical_value(self, r: Map<usize, Fraction>, c: Map<usize, Fraction>, f: spec_fn(int) -> Ratio)
        requires
            self.wf(),
            all_wf(f, self.num_vars() as int),
            forall|b: int|
                0 <= b < self.num_vars() && #[trigger] self.basic(b) ==> f(b).eqv(
                    dot(coefs(self.row_of(b)@), f, self.num_vars() as int),
                ),
            forall|x: usize| #[trigger] c.contains_key(x) ==> x < self.num_vars() && !self.basic(x as int),
            forall|x: usize|
                x < self.num_vars() && !self.basic(x as int) ==> (#[trigger] coef(c, x)).eqv(
                    coef(r, x).add(self.subst_sum(r, x, self.num_vars() as int)),
                ),
        ensures
            dot(coefs(r), f, self.num_vars() as int).eqv(dot(coefs(c), f, self.num_vars() as int)),
    {
        let n = self.num_vars() as int;
        let gr = coefs(r);
        let gc = coefs(c);
        let g = |x: int| self.subst_sum(r, x as usize, n);
        let rn = |x: int| if self.basic(x) { Ratio::zero() } else { gr(x) };
        let rb = |x: int| if self.basic(x) { gr(x) } else { Ratio::zero() };
        let sum_c = |x: int| rn(x).add(g(x));
        let sum_r = |x: int| rn(x).add(rb(x));
        lemma_parts_wf(Seq::<InfRational>::empty(), r, n);
        lemma_parts_wf(Seq::<InfRational>::empty(), c, n);
        assert forall|x: int| 0 <= x < n implies (#[trigger] g(x)).wf() by {
            self.lemma_subst_sum_wf(r, x as usize, n);
        }
        assert forall|x: int| 0 <= x < n implies (#[trigger] rn(x)).wf() by {
            assert(gr(x).wf());
        }
        assert forall|x: int| 0 <= x < n implies (#[trigger] rb(x)).wf() by {
            assert(gr(x).wf());
        }
        assert forall|x: int| 0 <= x < n implies (#[trigger] sum_c(x)).wf() by {
            lemma_ops_wf(rn(x), g(x));
        }
        assert forall|x: int| 0 <= x < n implies (#[trigger] sum_r(x)).wf() by {
            lemma_ops_wf(rn(x), rb(x));
        }
        // the coefficients of c are those of the non-basic part of r plus the substitutions
        assert forall|x: int| 0 <= x < n implies (#[trigger] gc(x)).eqv(sum_c(x)) by {
            let v = x as usize;
            assert(v as int == x);
            if self.basic(x) {
                assert(!c.contains_key(v));
                self.lemma_subst_sum_basic(r, v, n);
                lemma_add_zero_r(g(x), Ratio::zero());
                assert(sum_c(x) == Ratio::zero().add(g(x)));
                assert(sum_c(x).eqv(Ratio::zero())) by (nonlinear_arith)
                    requires
                        sum_c(x).num == 0 * g(x).den + g(x).num * 1,
                        g(x).num == 0,
                ;
                lemma_eqv_sym(sum_c(x), Ratio::zero());
            } else {
                assert(coef(c, v).eqv(coef(r, v).add(self.subst_sum(r, v, n))));
            }
        }
        assert forall|x: int| 0 <= x < n implies (#[trigger] gr(x)).eqv(sum_r(x)) by {
            if self.basic(x) {
                lemma_add_zero_r(gr(x), Ratio::zero());
                lemma_eqv_sym(Ratio::zero().add(gr(x)), gr(x));
            } else {
                lemma_add_zero_r(gr(x), Ratio::zero());
                lemma_eqv_sym(gr(x).add(Ratio::zero()), gr(x));
            }
        }
        assert forall|x: int| 0 <= x < n implies (#[trigger] gc(x)).num == 0 || f(x) == f(x) by {}
        assert forall|x: int| 0 <= x < n implies (#[trigger] gr(x)).num == 0 || f(x) == f(x) by {}
        lemma_dot_congr(gc, sum_c, f, f, n);
        lemma_dot_congr(gr, sum_r, f, f, n);
        assert forall|x: int| 0 <= x < n implies (#[trigger] sum_c(x)).eqv(rn(x).add(g(x))) by {
            lemma_eqv_refl(sum_c(x));
        }
        assert forall|x: int| 0 <= x < n implies (#[trigger] sum_r(x)).eqv(rn(x).add(rb(x))) by {
            lemma_eqv_refl(sum_r(x));
        }
        lemma_dot_add(rn, g, sum_c, f, n);
        lemma_dot_add(rn, rb, sum_r, f, n);
        self.lemma_subst_dot(r, f, n);
        self.lemma_basic_part_dot(r, f, n);
        assert(rb == (|x: int| if self.basic(x) { coefs(r)(x) } else { Ratio::zero() }));
        lemma_dot_wf(rn, f, n);
        lemma_dot_wf(rb, f, n);
        lemma_dot_wf(g, f, n);
        lemma_dot_wf(gc, f, n);
        lemma_dot_wf(gr, f, n);
        lemma_dot_wf(sum_c, f, n);
        lemma_dot_wf(sum_r, f, n);
        let (dn, db, dg) = (dot(rn, f, n), dot(rb, f, n), dot(g, f, n));
        let sb = self.basic_sum(r, f, n);
        // dot(gc) ~ dn + dg ~ dn + sb ~ dn + db ~ dot(gr)
        lemma_eqv_trans(dot(gc, f, n), dot(sum_c, f, n), dn.add(dg));
        lemma_eqv_refl(dn);
        lemma_add_eqv(dn, dn, dg, sb);
        lemma_ops_wf(dn, dg);
        lemma_eqv_trans(dot(gc, f, n), dn.add(dg), dn.add(sb));
        lemma_eqv_sym(db, sb);
        lemma_add_eqv(dn, dn, sb, db);
        lemma_ops_wf(dn, sb);
        lemma_eqv_trans(dot(gc, f, n), dn.add(sb), dn.add(db));
        lemma_eqv_trans(dot(gr, f, n), dot(sum_r, f, n), dn.add(db));
        lemma_ops_wf(dn, db);
        lemma_eqv_sym(dot(gc, f, n), dn.add(db));
        lemma_eqv_trans(dot(gr, f, n), dn.add(db), dot(gc, f, n));
    }

    /// A basic variable has no coefficient in any substitution.
    proof fn lemma_subst_sum_basic(self, r: Map<usize, Fraction>, v: usize, k: int)
        requires
            self.wf(),
            v < self.num_vars(),
            self.basic(v as int),
            k <= self.num_vars(),
        ensures
            self.subst_sum(r, v, k).num == 0,
            self.subst_sum(r, v, k).den > 0,
        decreases k,
    {
        if k > 0 {
            self.lemma_subst_sum_basic(r, v, k - 1);
            if self.basic(k - 1) && r.contains_key((k - 1) as usize) {
                let row = self.row_of(k - 1)@;
                assert(self.tableau@[k - 1] is Some);
                assert(!row.contains_key(v)) by {
                    if row.contains_key(v) {
                        assert(self.tableau@[v as int] is None);
                    }
                }
                let a = r[(k - 1) as usize]@;
                assert(a.fits());
                lemma_zero_valued(a, Ratio::zero());
                let rest = self.subst_sum(r, v, k - 1);
                let t = a.mul(Ratio::zero());
                assert(rest.add(t).num == 0) by (nonlinear_arith)
                    requires
                        rest.num == 0,
                        t.num == 0,
                        rest.add(t).num == rest.num * t.den + t.num * rest.den,
                ;
                lemma_ops_wf(a, Ratio::zero());
                lemma_ops_wf(rest, t);
            }
        }
    }

    /// The value of `row` under the current assignment.
    pub fn row_value(&self, row: &SparseRow) -> (r: Result<InfRational, LraError>)
        requires
            self.wf(),
            row.wf(),
            forall|x: usize| #[trigger] row@.contains_key(x) ==> x < self.num_vars(),
        ensures
            r is Ok || r == Err::<InfRational, LraError>(LraError::Overflow),
            r matches Ok(v) ==> v@.eqv(self.row_eval(row.seq())) && v@.real is Fin,
    {
        let terms = row.iter();
        proof {
            row.lemma_entries();
        }
        let mut acc = Self::zero();
        let mut i: usize = 0;
        proof {
            assert(row.seq().take(0) =~= Seq::<(usize, Fraction)>::empty());
            crate::rational::lemma_iratio_eqv(acc@, acc@, acc@);
        }
        while i < terms.len()
            invariant
                self.wf(),
                row.wf(),
                terms@ == row.seq(),
                sorted_vars(row.seq()),
                row@ == coeff_map(row.seq()),
                forall|x: usize| #[trigger] row@.contains_key(x) ==> x < self.num_vars(),
                i <= terms.len(),
                acc@.real is Fin,
                acc@.eqv(self.row_eval(row.seq().take(i as int))),
                self.row_eval(row.seq().take(i as int)).wf(),
                self.row_eval(row.seq().take(i as int)).real is Fin,
            decreases terms.len() - i,
        {
            let (v, c) = terms[i];
            proof {
                lemma_coeff_at(row.seq(), i as int);
                assert(v < self.num_vars());
            }
            let t = match self.reals[v].checked_scale(&c) {
                Some(t) => t,
                None => {
                    return Err(LraError::Overflow);
                },
            };
            let a2 = match acc.checked_add(&t) {
                Some(a2) => a2,
                None => {
                    return Err(LraError::Overflow);
                },
            };
            proof {
                let s1 = row.seq().take(i + 1);
                assert(s1.drop_last() =~= row.seq().take(i as int));
                assert(s1.last() == (v, c));
                let prev = self.row_eval(row.seq().take(i as int));
                let x = self.val(v as int);
                assert(x.wf() && x.real is Fin && c@.fits() && t@.wf() && acc@.wf() && a2@.wf());
                crate::rational::lemma_iratio_ops_wf(x, x, c@);
                crate::rational::lemma_iratio_eqv(t@, x.scale(c@), x.scale(c@));
                assert(t@.real is Fin);
                crate::rational::lemma_iratio_ops_wf(acc@, t@, c@);
                crate::rational::lemma_iratio_ops_wf(prev, x.scale(c@), c@);
                crate::rational::lemma_iratio_add_eqv(acc@, prev, t@, x.scale(c@));
                crate::rational::lemma_iratio_eqv(a2@, acc@.add(t@), prev.add(x.scale(c@)));
                assert(a2@.real is Fin);
            }
            acc = a2;
            i += 1;
        }
        proof {
            assert(row.seq().take(terms.len() as int) =~= row.seq());
        }
        Ok(acc)
    }

    /// `row` with every basic variable replaced by its row: the coefficient of
    /// each basic variable `b` is removed and its multiples of the row of `b`
    /// are added.
    pub fn canonicalize(&self, row: SparseRow) -> (r: Result<SparseRow, LraError>)
        requires
            self.wf(),
            row.wf(),
            forall|x: usize| #[trigger] row@.contains_key(x) ==> x < self.num_vars(),
        ensures
            r is Ok || r == Err::<SparseRow, LraError>(LraError::Overflow),
            r matches Ok(c) ==> {
                &&& c.wf()
                &&& forall|x: usize| #[trigger] c@.contains_key(x) ==> x < self.num_vars() && !self.basic(x as int)
                &&& forall|x: usize|
                    #[trigger] row@.contains_key(x) && !self.basic(x as int) ==> c@.contains_key(x)
                &&& forall|x: usize|
                    x < self.num_vars() && !self.basic(x as int) ==> (#[trigger] coef(c@, x)).eqv(
                        coef(row@, x).add(self.subst_sum(row@, x, self.num_vars() as int)),
                    )
                &&& self.same_under_rows(row@, c@)
            },
    {
        let n = self.tableau.len();
        let ghost orig = row@;
        let mut cur = row;
        let mut b: usize = 0;
        proof {
            assert forall|x: usize| x < n && !self.basic(x as int) implies (#[trigger] coef(cur@, x)).eqv(
                coef(orig, x).add(self.subst_sum(orig, x, 0)),
            ) by {
                assert(coef(cur@, x).den > 0) by {
                    if cur@.contains_key(x) {
                        assert(cur@[x]@.fits());
                    }
                }
                lemma_add_zero_valued(coef(cur@, x), Ratio::zero());
            }
        }
        while b < n
            invariant
                self.wf(),
                n == self.num_vars(),
                cur.wf(),
                b <= n,
                forall|x: usize| #[trigger] cur@.contains_key(x) ==> x < n,
                forall|x: usize| #[trigger] cur@.contains_key(x) && x < b ==> !self.basic(x as int),
                forall|x: usize| b <= x < n && self.basic(x as int) ==> (#[trigger] cur@.contains_key(x) <==> orig.contains_key(x)),
                forall|x: usize| b <= x < n && self.basic(x as int) && #[trigger] cur@.contains_key(x) ==> cur@[x] == orig[x],
                forall|x: usize| #[trigger] orig.contains_key(x) && !self.basic(x as int) ==> cur@.contains_key(x),
                forall|x: usize|
                    x < n && !self.basic(x as int) ==> (#[trigger] coef(cur@, x)).eqv(
                        coef(orig, x).add(self.subst_sum(orig, x, b as int)),
                    ),
            decreases n - b,
        {
            let ghost start = cur@;
            if self.tableau[b].is_some() {
                if let Some(c) = cur.remove(&b) {
                    let brow = self.tableau[b].as_ref().unwrap();
                    let terms = brow.iter();
                    proof {
                        brow.lemma_entries();
                        assert(c == orig[b]);
                    }
                    let ghost removed = cur@;
                    let mut j: usize = 0;
                    proof {
                        assert forall|x: usize|
                            x < n && !self.basic(x as int) implies (#[trigger] coef(cur@, x)).eqv(
                            coef(removed, x).add(
                                if has_var(brow.seq().take(0), x) {
                                    c@.mul(coef(brow@, x))
                                } else {
                                    Ratio::zero()
                                },
                            ),
                        ) by {
                            assert(!has_var(brow.seq().take(0), x));
                            assert(coef(removed, x).den > 0) by {
                                if removed.contains_key(x) {
                                    assert(removed[x]@.fits());
                                }
                            }
                            lemma_add_zero_valued(coef(removed, x), Ratio::zero());
                            crate::fraction::lemma_eqv_sym(coef(removed, x).add(Ratio::zero()), coef(removed, x));
                        }
                    }
                    while j < terms.len()
                        invariant
                            self.wf(),
                            n == self.num_vars(),
                            b < n,
                            self.basic(b as int),
                            *brow == self.row_of(b as int),
                            terms@ == brow.seq(),
                            sorted_vars(brow.seq()),
                            brow@ == coeff_map(brow.seq()),
                            cur.wf(),
                            j <= terms.len(),
                            forall|x: usize| #[trigger] cur@.contains_key(x) ==> x < n,
                            forall|x: usize| #[trigger] cur@.contains_key(x) && x <= b ==> !self.basic(x as int),
                            forall|x: usize| b < x < n && self.basic(x as int) ==> (#[trigger] cur@.contains_key(x) <==> removed.contains_key(x)),
                            forall|x: usize| b < x < n && self.basic(x as int) && #[trigger] cur@.contains_key(x) ==> cur@[x] == removed[x],
                            forall|x: usize| #[trigger] removed.contains_key(x) && !self.basic(x as int) ==> cur@.contains_key(x),
                            forall|x: usize| #[trigger] cur@.contains_key(x) && !self.basic(x as int) ==> true,
                            forall|x: usize|
                                x < n && !self.basic(x as int) ==> (#[trigger] coef(cur@, x)).eqv(
                                    coef(removed, x).add(
                                        if has_var(brow.seq().take(j as int), x) {
                                            c@.mul(coef(brow@, x))
                                        } else {
                                            Ratio::zero()
                                        },
                                    ),
                                ),
                        decreases terms.len() - j,
                    {
                        let (v, cv) = terms[j];
                        proof {
                            lemma_coeff_at(brow.seq(), j as int);
                            assert(v < n && !self.basic(v as int));
                        }
                        let delta = match cv.checked_mul(&c) {
                            Some(d) => d,
                            None => {
                                return Err(LraError::Overflow);
                            },
                        };
                        let ghost before = cur@;
                        match cur.add_coeff(v, &delta) {
                            Ok(()) => {},
                            Err(_) => {
                                return Err(LraError::Overflow);
                            },
                        }
                        proof {
                            assert forall|x: usize|
                                x < n && !self.basic(x as int) implies (#[trigger] coef(cur@, x)).eqv(
                                coef(removed, x).add(
                                    if has_var(brow.seq().take(j + 1), x) {
                                        c@.mul(coef(brow@, x))
                                    } else {
                                        Ratio::zero()
                                    },
                                ),
                            ) by {
                                crate::sparse_row::lemma_has_var_take(brow.seq(), j as int, x);
                                assert(coef(removed, x).den > 0) by {
                                    if removed.contains_key(x) {
                                        assert(removed[x]@.fits());
                                    }
                                }
                                if x == v {
                                    assert(!has_var(brow.seq().take(j as int), x)) by {
                                        if has_var(brow.seq().take(j as int), x) {
                                            let k = choose|k: int| 0 <= k < brow.seq().take(j as int).len() && brow.seq().take(j as int)[k].0 == x;
                                            assert(brow.seq()[k].0 < brow.seq()[j as int].0);
                                        }
                                    }
                                    assert(coef(brow@, x) == cv@);
                                    assert(delta@.fits() && cv@.fits() && c@.fits());
                                    crate::fraction::lemma_ops_wf(cv@, c@);
                                    crate::fraction::lemma_ops_wf(c@, cv@);
                                    assert(delta@.eqv(c@.mul(cv@))) by {
                                        assert(c@.mul(cv@).eqv(cv@.mul(c@))) by (nonlinear_arith);
                                        crate::fraction::lemma_eqv_trans(delta@, cv@.mul(c@), c@.mul(cv@));
                                    }
                                    assert(coef(before, x).eqv(coef(removed, x).add(Ratio::zero())));
                                    lemma_add_zero_valued(coef(removed, x), Ratio::zero());
                                    crate::fraction::lemma_ops_wf(coef(removed, x), Ratio::zero());
                                    crate::fraction::lemma_eqv_trans(coef(before, x), coef(removed, x).add(Ratio::zero()), coef(removed, x));
                                    if delta@.num == 0 {
                                        assert(cur@ == before);
                                        assert(c@.mul(cv@).num == 0) by (nonlinear_arith)
                                            requires
                                                delta@.num * c@.mul(cv@).den == c@.mul(cv@).num * delta@.den,
                                                delta@.num == 0,
                                                delta@.den > 0,
                                        ;
                                        lemma_add_zero_valued(coef(removed, x), c@.mul(cv@));
                                        crate::fraction::lemma_eqv_sym(coef(removed, x).add(c@.mul(cv@)), coef(removed, x));
                                        crate::fraction::lemma_eqv_trans(coef(before, x), coef(removed, x), coef(removed, x).add(c@.mul(cv@)));
                                    } else if before.contains_key(x) {
                                        assert(cur@[x]@.eqv(before[x]@.add(delta@)));
                                        assert(before[x]@.fits());
                                        crate::fraction::lemma_add_eqv(before[x]@, coef(removed, x), delta@, c@.mul(cv@));
                                        crate::fraction::lemma_ops_wf(before[x]@, delta@);
                                        crate::fraction::lemma_eqv_trans(cur@[x]@, before[x]@.add(delta@), coef(removed, x).add(c@.mul(cv@)));
                                    } else {
                                        assert(cur@[x] == delta);
                                        assert(coef(before, x) == Ratio::zero());
                                        assert(Ratio::zero().eqv(coef(removed, x)));
                                        crate::fraction::lemma_eqv_sym(Ratio::zero(), coef(removed, x));
                                        crate::fraction::lemma_add_eqv(Ratio::zero(), coef(removed, x), delta@, c@.mul(cv@));
                                        lemma_add_zero_valued(delta@, Ratio::zero());
                                        crate::fraction::lemma_eqv_sym(Ratio::zero().add(delta@), delta@);
                                        crate::fraction::lemma_ops_wf(Ratio::zero(), delta@);
                                        crate::fraction::lemma_eqv_trans(delta@, Ratio::zero().add(delta@), coef(removed, x).add(c@.mul(cv@)));
                                    }
                                } else {
                                    assert(coef(cur@, x) == coef(before, x));
                                }
                            }
                        }
                        j += 1;
                    }
                    proof {
                        assert(brow.seq().take(terms.len() as int) =~= brow.seq());
                        assert forall|x: usize| #[trigger] orig.contains_key(x) && !self.basic(x as int) implies cur@.contains_key(x) by {
                            assert(start.contains_key(x));
                            assert(removed.contains_key(x));
                        }
                        assert forall|x: usize|
                            x < n && !self.basic(x as int) implies (#[trigger] coef(cur@, x)).eqv(
                            coef(orig, x).add(self.subst_sum(orig, x, b + 1)),
                        ) by {
                            let hv = has_var(brow.seq(), x);
                            let d = if hv { c@.mul(coef(brow@, x)) } else { Ratio::zero() };
                            assert(coef(removed, x) == coef(start, x));
                            assert(self.subst_sum(orig, x, b + 1) == self.subst_sum(orig, x, b as int).add(orig[b]@.mul(coef(self.row_of(b as int)@, x))));
                            self.lemma_subst_sum_wf(orig, x, b as int);
                            assert(coef(start, x).den > 0) by {
                                if start.contains_key(x) {
                                    assert(start[x]@.fits());
                                }
                            }
                            assert(coef(orig, x).den > 0) by {
                                if orig.contains_key(x) {
                                    assert(orig[x]@.fits());
                                }
                            }
                            assert(c@.fits());
                            if hv {
                                assert(brow@.contains_key(x));
                                assert(brow@[x]@.fits());
                            } else {
                                assert(!brow@.contains_key(x));
                                assert(c@.mul(coef(brow@, x)).num == 0) by (nonlinear_arith)
                                    requires
                                        coef(brow@, x).num == 0,
                                        c@.mul(coef(brow@, x)).num == c@.num * coef(brow@, x).num,
                                ;
                            }
                            let ms = c@.mul(coef(brow@, x));
                            crate::fraction::lemma_ops_wf(c@, coef(brow@, x));
                            crate::fraction::lemma_ops_wf(coef(orig, x), self.subst_sum(orig, x, b as int));
                            crate::fraction::lemma_ops_wf(coef(start, x), d);
                            crate::fraction::lemma_eqv_refl(d);
                            crate::fraction::lemma_add_eqv(coef(start, x), coef(orig, x).add(self.subst_sum(orig, x, b as int)), d, d);
                            crate::fraction::lemma_eqv_trans(coef(cur@, x), coef(start, x).add(d), coef(orig, x).add(self.subst_sum(orig, x, b as int)).add(d));
                            crate::rational::lemma_ratio_add_assoc(coef(orig, x), self.subst_sum(orig, x, b as int), d);
                            if !hv {
                                lemma_add_zero_valued(self.subst_sum(orig, x, b as int), ms);
                                lemma_add_zero_valued(self.subst_sum(orig, x, b as int), Ratio::zero());
                                crate::fraction::lemma_ops_wf(self.subst_sum(orig, x, b as int), ms);
                                crate::fraction::lemma_eqv_sym(self.subst_sum(orig, x, b as int).add(Ratio::zero()), self.subst_sum(orig, x, b as int));
                                crate::fraction::lemma_eqv_trans(
                                    self.subst_sum(orig, x, b as int).add(Ratio::zero()),
                                    self.subst_sum(orig, x, b as int),
                                    self.subst_sum(orig, x, b as int).add(ms),
                                );
                                crate::fraction::lemma_eqv_refl(coef(orig, x));
                                crate::fraction::lemma_add_eqv(
                                    coef(orig, x),
                                    coef(orig, x),
                                    self.subst_sum(orig, x, b as int).add(Ratio::zero()),
                                    self.subst_sum(orig, x, b as int).add(ms),
                                );
                                crate::fraction::lemma_ops_wf(self.subst_sum(orig, x, b as int), Ratio::zero());
                                crate::fraction::lemma_ops_wf(coef(orig, x), self.subst_sum(orig, x, b as int).add(Ratio::zero()));
                                crate::fraction::lemma_eqv_trans(
                                    coef(cur@, x),
                                    coef(orig, x).add(self.subst_sum(orig, x, b as int).add(Ratio::zero())),
                                    coef(orig, x).add(self.subst_sum(orig, x, b as int).add(ms)),
                                );
                            }
                        }
                    }
                }
            }
            proof {
                if !(self.basic(b as int) && start.contains_key(b)) {
                    if self.basic(b as int) {
                        assert(start.remove(b) =~= start);
                    }
                    assert(cur@ == start);
                    assert forall|x: usize|
                        x < n && !self.basic(x as int) implies (#[trigger] coef(cur@, x)).eqv(
                        coef(orig, x).add(self.subst_sum(orig, x, b + 1)),
                    ) by {
                        if self.basic(b as int) {
                            assert(!orig.contains_key(b));
                        }
                        assert(self.subst_sum(orig, x, b + 1) == self.subst_sum(orig, x, b as int));
                    }
                }
            }
            b += 1;
        }
        proof {
            self.lemma_canonical_same(orig, cur@);
        }
        Ok(cur)
    }
}

/// Absolute value of a fraction.
pub open spec fn abs_ratio(r: Ratio) -> Ratio {
    if r.num < 0 {
        r.neg()
    } else {
        r
    }
}

impl LraTheory {
    /// `v` can increase (`up`) or decrease (`!up`) without leaving its bounds.
    pub open spec fn movable(self, v: int, up: bool) -> bool {
        if up {
            self.val(v).lt(self.ub_of(v))
        } else {
            self.lb_of(v).lt(self.val(v))
        }
    }

    /// Every variable of `row` is a non-basic variable of the theory.
    pub open spec fn over_non_basic(self, row: SparseRow) -> bool {
        &&& row.wf()
        &&& forall|x: usize| #[trigger] row@.contains_key(x) ==> x < self.num_vars() && !self.basic(x as int)
    }

    /// No variable of `row` with a non-zero coefficient can move in the
    /// direction that improves `row` (increases it when `maximize`).
    pub open spec fn optimal_row(self, row: SparseRow, maximize: bool) -> bool {
        &&& self.over_non_basic(row)
        &&& forall|x: usize| #[trigger]
            row@.contains_key(x) && row@[x]@.num != 0 ==> !self.movable(x as int, maximize == (row@[x]@.num > 0))
    }

    /// Moving the non-basic `e` in direction `up` is stopped by no finite bound:
    /// neither its own nor that of any basic variable whose row holds it.
    pub open spec fn unblocked(self, e: int, up: bool) -> bool {
        &&& (if up {
            self.ub_of(e)
        } else {
            self.lb_of(e)
        }).real !is Fin
        &&& forall|b: int|
            0 <= b < self.num_vars() && self.basic(b) && #[trigger] self.row_of(b)@.contains_key(e as usize)
                && self.row_of(b)@[e as usize]@.num != 0 ==> (if up == (self.row_of(b)@[e as usize]@.num > 0) {
                self.ub_of(b)
            } else {
                self.lb_of(b)
            }).real !is Fin
    }

    /// The variable of the objective row with a non-zero coefficient that can
    /// move in its improving direction and has the largest coefficient in
    /// magnitude (the first such), with that direction.
    fn choose_entering(&self, row: &SparseRow, maximize: bool) -> (r: Option<(usize, bool)>)
        requires
            self.wf(),
            self.over_non_basic(*row),
        ensures
            match r {
                Some((e, up)) => {
                    &&& row@.contains_key(e)
                    &&& row@[e]@.num != 0
                    &&& up == (maximize == (row@[e]@.num > 0))
                    &&& self.movable(e as int, up)
                    &&& forall|x: usize| #[trigger]
                        row@.contains_key(x) && row@[x]@.num != 0 && self.movable(x as int, maximize == (row@[x]@.num > 0))
                            ==> abs_ratio(row@[x]@).le(abs_ratio(row@[e]@))
                },
                None => self.optimal_row(*row, maximize),
            },
    {
        let terms = row.iter();
        proof {
            row.lemma_entries();
        }
        let mut best: Option<(usize, bool, Fraction)> = None;
        let mut i: usize = 0;
        while i < terms.len()
            invariant
                self.wf(),
                self.over_non_basic(*row),
                terms@ == row.seq(),
                sorted_vars(row.seq()),
                row@ == coeff_map(row.seq()),
                i <= terms.len(),
                match best {
                    Some((e, up, m)) => {
                        &&& row@.contains_key(e)
                        &&& row@[e]@.num != 0
                        &&& up == (maximize == (row@[e]@.num > 0))
                        &&& self.movable(e as int, up)
                        &&& m@ == abs_ratio(row@[e]@)
                    },
                    None => true,
                },
                forall|k: int|
                    0 <= k < i && (#[trigger] terms@[k]).1@.num != 0 && self.movable(
                        terms@[k].0 as int,
                        maximize == (terms@[k].1@.num > 0),
                    ) ==> (best matches Some((_, _, bm)) && abs_ratio(terms@[k].1@).le(bm@)),
            decreases terms.len() - i,
        {
            let (v, c) = terms[i];
            proof {
                lemma_coeff_at(row.seq(), i as int);
                assert(v < self.num_vars());
            }
            if !c.is_zero() {
                let up = maximize == c.is_positive();
                let can = if up {
                    self.reals[v].lt(&self.ubs[v].1)
                } else {
                    self.lbs[v].1.lt(&self.reals[v])
                };
                if can {
                    let mag = if c.is_positive() {
                        c
                    } else {
                        c.neg()
                    };
                    proof {
                        assert(mag@ == abs_ratio(c@));
                    }
                    let replace = match best {
                        None => true,
                        Some((_, _, m)) => m.lt(&mag),
                    };
                    let ghost old_best = best;
                    if replace {
                        best = Some((v, up, mag));
                    }
                    proof {
                        assert(mag@.fits());
                        if let Some((_, _, m)) = old_best {
                            assert(m@.fits());
                            crate::fraction::lemma_trichotomy(m@, mag@);
                        }
                        assert forall|k: int|
                            0 <= k < i + 1 && (#[trigger] terms@[k]).1@.num != 0 && self.movable(
                                terms@[k].0 as int,
                                maximize == (terms@[k].1@.num > 0),
                            ) implies (best matches Some((_, _, bm)) && abs_ratio(terms@[k].1@).le(bm@)) by {
                            if k < i {
                                let bm = match old_best {
                                    Some((_, _, m)) => m@,
                                    None => Ratio::zero(),
                                };
                                assert(abs_ratio(terms@[k].1@).le(bm));
                                if replace {
                                    assert(terms@[k].1@.fits());
                                    assert(bm.lt(mag@));
                                    crate::fraction::lemma_le_lt_trans(abs_ratio(terms@[k].1@), bm, mag@);
                                    crate::fraction::lemma_trichotomy(abs_ratio(terms@[k].1@), mag@);
                                }
                            } else {
                                if !replace {
                                    let bm = match old_best {
                                        Some((_, _, m)) => m@,
                                        None => Ratio::zero(),
                                    };
                                    crate::fraction::lemma_trichotomy(bm, mag@);
                                } else {
                                    crate::fraction::lemma_eqv_refl(mag@);
                                }
                            }
                        }
                    }
                }
            }
            i += 1;
        }
        proof {
            assert forall|x: usize| #[trigger]
                row@.contains_key(x) && row@[x]@.num != 0 && self.movable(x as int, maximize == (row@[x]@.num > 0))
                    implies (best matches Some((_, _, bm)) && abs_ratio(row@[x]@).le(bm@)) by {
                let k = choose|k: int| 0 <= k < row.seq().len() && row.seq()[k].0 == x;
                lemma_coeff_at(row.seq(), k);
                assert(terms@[k].0 == x);
            }
        }
        match best {
            Some((e, up, _)) => Some((e, up)),
            None => None,
        }
    }

    /// How far the non-basic `e` can move in direction `up`: the leaving
    /// variable (if a row bound stops it first) and the value the stopping
    /// variable takes, or `(None, None)` when nothing stops it.
    fn ratio_test(&self, e: usize, up: bool) -> (r: Result<(Option<usize>, Option<InfRational>), LraError>)
        requires
            self.wf(),
            e < self.num_vars(),
            !self.basic(e as int),
        ensures
            r is Ok || r == Err::<(Option<usize>, Option<InfRational>), LraError>(LraError::Overflow),
            r matches Ok((None, None)) ==> self.unblocked(e as int, up),
            r matches Ok((None, Some(t))) ==> t == (if up {
                self.upper_bounds()[e as int].1
            } else {
                self.lower_bounds()[e as int].1
            }) && t@.real is Fin,
            r matches Ok((Some(l), t)) ==> {
                &&& l < self.num_vars()
                &&& self.basic(l as int)
                &&& self.row_of(l as int)@.contains_key(e)
                &&& self.row_of(l as int)@[e]@.num != 0
                &&& t is Some
                &&& t->0 == (if up == (self.row_of(l as int)@[e]@.num > 0) {
                    self.upper_bounds()[l as int].1
                } else {
                    self.lower_bounds()[l as int].1
                })
                &&& t->0@.real is Fin
            },
    {
        let self_bound = if up {
            self.ubs[e].1
        } else {
            self.lbs[e].1
        };
        let mut best_target: Option<InfRational> = None;
        let mut leaving: Option<usize> = None;
        let mut leaving_target: Option<InfRational> = None;
        if self_bound.is_finite() {
            best_target = Some(self_bound);
            leaving_target = Some(self_bound);
        }
        let n = self.tableau.len();
        let mut b: usize = 0;
        while b < n
            invariant
                self.wf(),
                n == self.num_vars(),
                e < n,
                !self.basic(e as int),
                b <= n,
                self_bound == (if up {
                    self.upper_bounds()[e as int].1
                } else {
                    self.lower_bounds()[e as int].1
                }),
                leaving is None && leaving_target is None ==> {
                    &&& self_bound@.real !is Fin
                    &&& best_target is None
                    &&& forall|k: int|
                        0 <= k < b && self.basic(k) && #[trigger] self.row_of(k)@.contains_key(e) && self.row_of(k)@[e]@.num
                            != 0 ==> (if up == (self.row_of(k)@[e]@.num > 0) {
                            self.ub_of(k)
                        } else {
                            self.lb_of(k)
                        }).real !is Fin
                },
                leaving is None && leaving_target is Some ==> leaving_target->0 == self_bound && self_bound@.real is Fin,
                leaving is Some ==> {
                    let l = leaving->0;
                    &&& l < n
                    &&& self.basic(l as int)
                    &&& self.row_of(l as int)@.contains_key(e)
                    &&& self.row_of(l as int)@[e]@.num != 0
                    &&& leaving_target is Some
                    &&& leaving_target->0 == (if up == (self.row_of(l as int)@[e]@.num > 0) {
                        self.upper_bounds()[l as int].1
                    } else {
                        self.lower_bounds()[l as int].1
                    })
                    &&& leaving_target->0@.real is Fin
                },
                leaving_target is Some ==> best_target is Some,
            decreases n - b,
        {
            if let Some(row) = &self.tableau[b] {
                if let Some(c) = row.get(&e) {
                    if !c.is_zero() {
                        let moves_up = up == c.is_positive();
                        let bound = if moves_up {
                            self.ubs[b].1
                        } else {
                            self.lbs[b].1
                        };
                        if bound.is_finite() {
                            let d = match bound.checked_sub(&self.reals[b]) {
                                Some(d) => d,
                                None => {
                                    return Err(LraError::Overflow);
                                },
                            };
                            let sd = match d.checked_div(c) {
                                Some(sd) => sd,
                                None => {
                                    return Err(LraError::Overflow);
                                },
                            };
                            let target = match self.reals[e].checked_add(&sd) {
                                Some(t) => t,
                                None => {
                                    return Err(LraError::Overflow);
                                },
                            };
                            let better = match best_target {
                                None => true,
                                Some(cur) => {
                                    let strictly = if up {
                                        target.lt(&cur)
                                    } else {
                                        cur.lt(&target)
                                    };
                                    strictly || (target.eq_value(&cur) && match leaving {
                                        Some(l) => b < l,
                                        None => false,
                                    })
                                },
                            };
                            if better {
                                best_target = Some(target);
                                leaving = Some(b);
                                leaving_target = Some(bound);
                            }
                        }
                    }
                }
            }
            b += 1;
        }
        Ok((leaving, leaving_target))
    }

    /// Moves the assignment towards the optimum of `objective` (its maximum
    /// when `maximize`, else its minimum) by pivoting, and returns the value
    /// reached, or the matching infinity when the objective is unbounded.
    pub fn optimize(&mut self, objective: SparseRow, maximize: bool) -> (r: Result<InfRational, LraError>)
        requires
            old(self).wf(),
            objective.wf(),
            forall|x: usize| #[trigger] objective@.contains_key(x) ==> x < old(self).num_vars(),
        ensures
            final(self).wf(),
            final(self).same_bounds(*old(self)),
            r is Ok || r == Err::<InfRational, LraError>(LraError::Overflow) || r == Err::<InfRational, LraError>(
                LraError::Unresolved,
            ),
            r matches Ok(v) ==> {
                ||| (v@ == (if maximize {
                    IRatio::pos_inf()
                } else {
                    IRatio::neg_inf()
                }) && exists|row: SparseRow, e: usize| {
                    &&& final(self).over_non_basic(row)
                    &&& final(self).same_under_rows(objective@, row@)
                    &&& #[trigger] row@.contains_key(e)
                    &&& row@[e]@.num != 0
                    &&& final(self).movable(e as int, maximize == (row@[e]@.num > 0))
                    &&& final(self).unblocked(e as int, maximize == (row@[e]@.num > 0))
                })
                ||| (v@.real is Fin && v@.eqv(final(self).row_eval(objective.seq())) && exists|row: SparseRow| #[trigger]
                    final(self).optimal_row(row, maximize) && final(self).same_under_rows(objective@, row@) && v@.eqv(
                    final(self).row_eval(row.seq()),
                ))
            },
    {
        let ghost orig = *self;
        let ghost goal = objective;
        let mut obj_row = match self.canonicalize(objective) {
            Ok(r) => r,
            Err(e) => {
                return Err(e);
            },
        };
        let mut fuel: u64 = u64::MAX;
        while fuel > 0
            invariant
                self.wf(),
                self.same_bounds(orig),
                orig == *old(self),
                self.over_non_basic(obj_row),
                goal == objective,
                goal.wf(),
                forall|x: usize| #[trigger] goal@.contains_key(x) ==> x < self.num_vars(),
                self.same_under_rows(goal@, obj_row@),
            decreases fuel,
        {
            fuel -= 1;
            match self.choose_entering(&obj_row, maximize) {
                None => {
                    let v = match self.row_value(&obj_row) {
                        Ok(v) => v,
                        Err(e) => {
                            return Err(e);
                        },
                    };
                    proof {
                        self.lemma_optimum_value(goal, obj_row, v@);
                    }
                    return Ok(v);
                },
                Some((entering, up)) => {
                    let test = match self.ratio_test(entering, up) {
                        Ok(t) => t,
                        Err(e) => {
                            return Err(e);
                        },
                    };
                    match test {
                        (None, None) => {
                            let v = if maximize {
                                Self::positive_inf()
                            } else {
                                Self::negative_inf()
                            };
                            return Ok(v);
                        },
                        (None, Some(nv)) => {
                            proof {
                                assert(self.lb_of(entering as int).le(self.ub_of(entering as int)));
                                crate::rational::lemma_iratio_eqv(nv@, nv@, nv@);
                            }
                            let ghost pre = *self;
                            match self.update(entering, nv) {
                                Ok(()) => {},
                                Err(e) => {
                                    return Err(e);
                                },
                            }
                            proof {
                                assert forall|x: usize| #[trigger] obj_row@.contains_key(x) implies x < self.num_vars() && !self.basic(x as int) by {
                                    assert(self.basic(x as int) == pre.basic(x as int));
                                }
                                self.lemma_same_under_frame(pre, goal@, obj_row@);
                            }
                        },
                        (Some(l), Some(nv)) => {
                            proof {
                                assert(self.lb_of(l as int).le(self.ub_of(l as int)));
                                crate::rational::lemma_iratio_eqv(nv@, nv@, nv@);
                            }
                            let ghost pre = *self;
                            match self.pivot_and_update(entering, l, nv) {
                                Ok(()) => {},
                                Err(e) => {
                                    return Err(e);
                                },
                            }
                            let ghost before_row = obj_row@;
                            let coeff = obj_row.remove(&entering).unwrap();
                            let new_row = self.tableau[entering].as_ref().unwrap();
                            match obj_row.add_scaled(new_row, &coeff) {
                                Ok(()) => {},
                                Err(_) => {
                                    return Err(LraError::Overflow);
                                },
                            }
                            proof {
                                assert forall|x: usize| #[trigger] obj_row@.contains_key(x) implies x < self.num_vars() && !self.basic(x as int) by {
                                    assert(merged_entry(before_row.remove(entering), new_row@, coeff@, obj_row@, x));
                                    if before_row.remove(entering).contains_key(x) {
                                        assert(before_row.contains_key(x));
                                        assert(x != entering);
                                        if x != l {
                                            assert(self.basic(x as int) == pre.basic(x as int));
                                        }
                                    } else {
                                        assert(new_row@.contains_key(x));
                                    }
                                }
                                assert forall|xs: Seq<IRatio>| #[trigger] self.satisfies_rows(xs) implies {
                                    &&& dot(coefs(goal@), value_reals(xs), self.num_vars() as int).eqv(
                                        dot(coefs(obj_row@), value_reals(xs), self.num_vars() as int),
                                    )
                                    &&& dot(coefs(goal@), value_eps(xs), self.num_vars() as int).eqv(
                                        dot(coefs(obj_row@), value_eps(xs), self.num_vars() as int),
                                    )
                                } by {
                                    Self::lemma_rows_back(pre, *self, entering, l, xs);
                                    assert(pre.satisfies_rows(xs));
                                    assert(before_row.contains_key(entering));
                                    assert(coeff@ == before_row[entering]@);
                                    self.lemma_subst_step(xs, before_row, obj_row@, entering);
                                    self.lemma_same_chain(goal@, before_row, obj_row@, xs);
                                }
                            }
                        },
                        (Some(_), None) => {
                            return Err(LraError::Overflow);
                        },
                    }
                },
            }
        }
        Err(LraError::Unresolved)
    }
}

/// The fractional part `x - floor(x)` of a fraction.
pub open spec fn frac_of(f: Fraction) -> Ratio {
    f@.sub(f.floor_spec())
}

impl LraTheory {
    /// The value of `v` is a whole number with no infinitesimal part.
    pub open spec fn integral(self, v: int) -> bool {
        &&& self.val(v).eps.num == 0
        &&& self.val(v).real matches ExtRatio::Fin(x) && x.is_int()
    }

    /// Checks that every integer variable has a whole value; otherwise returns
    /// the first one that does not, with the rational part of its value.
    pub fn check_ints(&self) -> (r: Result<(), (usize, Rational)>)
        requires
            self.wf(),
        ensures
            r is Ok ==> forall|v: int| 0 <= v < self.num_vars() && #[trigger] self.int_var(v) ==> self.integral(v),
            r matches Err((v, q)) ==> {
                &&& v < self.num_vars()
                &&& self.int_var(v as int)
                &&& !self.integral(v as int)
                &&& q@ == self.val(v as int).real
                &&& forall|u: int| 0 <= u < v && #[trigger] self.int_var(u) ==> self.integral(u)
            },
    {
        let mut v: usize = 0;
        while v < self.reals.len()
            invariant
                self.wf(),
                v <= self.reals.len(),
                forall|u: int| 0 <= u < v && #[trigger] self.int_var(u) ==> self.integral(u),
            decreases self.reals.len() - v,
        {
            if self.ints[v] {
                let x = &self.reals[v];
                let whole = match x.rational_part() {
                    Rational::Finite(f) => f.is_integer(),
                    _ => false,
                };
                if !x.infinitesimal_part().is_zero() || !whole {
                    return Err((v, *x.rational_part()));
                }
            }
            v += 1;
        }
        Ok(())
    }

    /// A Gomory cut for the basic variable `basic_var` when its value has a
    /// fractional part `f0` and every variable of its row is an integer
    /// variable: the row of the fractional parts of its coefficients (those
    /// that are not zero), with `f0`. `None` when there is no such cut.
    pub fn generate_gomory_cut(&self, basic_var: usize) -> (r: Option<(SparseRow, Fraction)>)
        requires
            self.wf(),
            basic_var < self.num_vars(),
        ensures
            r matches Some((cut, f0)) ==> {
                &&& self.basic(basic_var as int)
                &&& cut.wf()
                &&& f0@.num != 0
                &&& self.val(basic_var as int).real matches ExtRatio::Fin(x) && f0@.eqv(
                    x.sub(Ratio { num: x.num / x.den, den: 1 }),
                )
                &&& forall|v: usize| #[trigger] self.row_of(basic_var as int)@.contains_key(v) ==> self.int_var(v as int)
                &&& forall|v: usize| #[trigger]
                    cut@.contains_key(v) <==> (self.row_of(basic_var as int)@.contains_key(v) && frac_of(
                        self.row_of(basic_var as int)@[v],
                    ).num != 0)
                &&& forall|v: usize| #[trigger]
                    cut@.contains_key(v) ==> cut@[v]@.eqv(frac_of(self.row_of(basic_var as int)@[v]))
                &&& cut@ != Map::<usize, Fraction>::empty()
            },
            r is None ==> {
                ||| !self.basic(basic_var as int)
                ||| (self.val(basic_var as int).real matches ExtRatio::Fin(x) && x.is_int())
                ||| exists|v: usize| #[trigger]
                    self.row_of(basic_var as int)@.contains_key(v) && !self.int_var(v as int)
                ||| forall|v: usize| #[trigger]
                    self.row_of(basic_var as int)@.contains_key(v) ==> frac_of(self.row_of(basic_var as int)@[v]).num == 0
            },
    {
        let val = match self.reals[basic_var].rational_part() {
            Rational::Finite(f) => *f,
            _ => {
                return None;
            },
        };
        let f0 = val.fract();
        proof {
            assert(val@.fits());
            assert(f0@.fits());
            let x = val@;
            let fl = val.floor_spec();
            crate::fraction::lemma_ops_wf(x, fl.neg());
            vstd::arithmetic::div_mod::lemma_fundamental_div_mod(x.num, x.den);
            if f0@.num == 0 {
                assert(x.sub(fl).num == 0) by (nonlinear_arith)
                    requires
                        f0@.num * x.sub(fl).den == x.sub(fl).num * f0@.den,
                        f0@.num == 0,
                        f0@.den > 0,
                ;
                assert(x.is_int()) by (nonlinear_arith)
                    requires
                        x.sub(fl).num == x.num * 1 + (-(x.num / x.den)) * x.den,
                        x.sub(fl).num == 0,
                        x.den > 0,
                        x.num == x.den * (x.num / x.den) + x.num % x.den,
                ;
            }
        }
        if f0.is_zero() {
            return None;
        }
        let row = match &self.tableau[basic_var] {
            Some(row) => row,
            None => {
                return None;
            },
        };
        let terms = row.iter();
        proof {
            row.lemma_entries();
        }
        let mut cut = SparseRow::new();
        let mut i: usize = 0;
        while i < terms.len()
            invariant
                self.wf(),
                basic_var < self.num_vars(),
                self.basic(basic_var as int),
                *row == self.row_of(basic_var as int),
                terms@ == row.seq(),
                sorted_vars(row.seq()),
                row@ == coeff_map(row.seq()),
                i <= terms.len(),
                cut.wf(),
                forall|k: int| 0 <= k < i ==> self.int_var(#[trigger] terms@[k].0 as int),
                forall|v: usize| #[trigger]
                    cut@.contains_key(v) <==> (has_var(row.seq().take(i as int), v) && frac_of(row@[v]).num != 0),
                forall|v: usize| #[trigger] cut@.contains_key(v) ==> cut@[v]@.eqv(frac_of(row@[v])),
            decreases terms.len() - i,
        {
            let (v, c) = terms[i];
            proof {
                lemma_coeff_at(row.seq(), i as int);
                assert(v < self.num_vars());
            }
            if !self.ints[v] {
                return None;
            }
            let fj = c.fract();
            let ghost before = cut@;
            proof {
                assert(fj@.fits() && c@.fits());
                crate::fraction::lemma_ops_wf(c@, c.floor_spec().neg());
                crate::sparse_row::lemma_eqv_zero(fj@, frac_of(c));
                assert(!cut@.contains_key(v)) by {
                    if cut@.contains_key(v) {
                        let k = choose|k: int| 0 <= k < row.seq().take(i as int).len() && row.seq().take(i as int)[k].0 == v;
                        assert(row.seq()[k].0 < row.seq()[i as int].0);
                    }
                }
            }
            if !fj.is_zero() {
                let _ = cut.add_coeff(v, &fj);
            }
            proof {
                assert forall|x: usize| #[trigger] cut@.contains_key(x) <==> (has_var(row.seq().take(i + 1), x) && frac_of(row@[x]).num != 0) by {
                    crate::sparse_row::lemma_has_var_take(row.seq(), i as int, x);
                }
            }
            i += 1;
        }
        proof {
            assert(row.seq().take(terms.len() as int) =~= row.seq());
            assert forall|v: usize| #[trigger] self.row_of(basic_var as int)@.contains_key(v) implies self.int_var(v as int) by {
                let k = choose|k: int| 0 <= k < row.seq().len() && row.seq()[k].0 == v;
                assert(terms@[k].0 == v);
            }
        }
        if cut.is_empty() {
            proof {
                assert forall|v: usize| #[trigger] self.row_of(basic_var as int)@.contains_key(v) implies frac_of(
                    self.row_of(basic_var as int)@[v],
                ).num == 0 by {
                    if frac_of(self.row_of(basic_var as int)@[v]).num != 0 {
                        assert(cut@.contains_key(v));
                    }
                }
            }
            None
        } else {
            Some((cut, f0))
        }
    }

    /// Makes the non-basic `var` basic with `row`, a combination of other
    /// non-basic variables, setting its value to that of the row.
    pub fn add_row(&mut self, var: usize, row: SparseRow) -> (r: Result<(), LraError>)
        requires
            old(self).wf(),
            var < old(self).num_vars(),
            !old(self).basic(var as int),
            row.wf(),
            forall|x: usize| #[trigger]
                row@.contains_key(x) ==> x < old(self).num_vars() && !old(self).basic(x as int) && x != var,
            forall|b: int|
                0 <= b < old(self).num_vars() && #[trigger] old(self).basic(b) ==> !old(self).row_of(b)@.contains_key(var),
        ensures
            r is Ok || r == Err::<(), LraError>(LraError::Overflow),
            r is Err ==> *final(self) == *old(self),
            r is Ok ==> {
                &&& final(self).wf()
                &&& final(self).same_bounds(*old(self))
                &&& final(self).basic(var as int)
                &&& final(self).row_of(var as int) == row
                &&& final(self).val(var as int).eqv(old(self).row_eval(row.seq()))
                &&& forall|v: int| 0 <= v < old(self).num_vars() && v != var ==> #[trigger] final(self).val(v) == old(self).val(v)
                &&& forall|v: int| 0 <= v < old(self).num_vars() && v != var ==> #[trigger] final(self).basic(v) == old(self).basic(v)
                &&& forall|v: int|
                    0 <= v < old(self).num_vars() && v != var && old(self).basic(v) ==> #[trigger] final(self).row_of(v) == old(self).row_of(v)
            },
    {
        let value = match self.row_value(&row) {
            Ok(v) => v,
            Err(e) => {
                return Err(e);
            },
        };
        let ghost before = *self;
        self.reals.set(var, value);
        self.tableau.set(var, Some(row));
        proof {
            assert forall|b: int| 0 <= b < self.reals@.len() && #[trigger] self.tableau@[b] is Some implies {
                let rw = self.tableau@[b]->0;
                &&& rw.wf()
                &&& forall|x: usize|
                    #[trigger] rw@.contains_key(x) ==> (x < self.reals@.len() && self.tableau@[x as int] is None && x != b)
            } by {
                if b != var {
                    assert(before.tableau@[b] is Some);
                    let rw = self.tableau@[b]->0;
                    assert forall|x: usize| #[trigger] rw@.contains_key(x) implies (x < self.reals@.len() && self.tableau@[x as int] is None && x != b) by {
                        assert(before.tableau@[x as int] is None);
                        assert(before.basic(b));
                        assert(x != var);
                    }
                }
            }
            assert forall|v: int| 0 <= v < self.reals@.len() && #[trigger] self.tableau@[v] is None implies self.in_bounds(v) by {
                assert(before.in_bounds(v));
            }
            assert forall|v: int| 0 <= v < self.reals@.len() implies (#[trigger] self.reals@[v])@.real is Fin by {
                if v != var {
                    assert(self.reals@[v] == before.reals@[v]);
                }
            }
            Self::lemma_rows_added(before, *self, var as int);
        }
        Ok(())
    }

    /// The slack variable standing for the combination `vars` of non-basic
    /// variables: the one recorded for a row with the same entries, or a new
    /// basic variable whose row is `vars` and whose value is that of `vars`.
    pub fn get_or_create_slack(&mut self, vars: SparseRow) -> (r: Result<usize, LraError>)
        requires
            old(self).wf(),
            old(self).num_vars() < usize::MAX,
            vars.wf(),
            forall|x: usize| #[trigger] vars@.contains_key(x) ==> x < old(self).num_vars() && !old(self).basic(x as int),
        ensures
            r is Ok || r == Err::<usize, LraError>(LraError::Overflow),
            r is Err ==> *final(self) == *old(self),
            r matches Ok(s) ==> final(self).slack_for(vars@, s),
            r matches Ok(s) ==> {
                &&& final(self).wf()
                &&& s < final(self).num_vars()
                &&& (*final(self) == *old(self) || {
                    &&& s == old(self).num_vars()
                    &&& final(self).num_vars() == old(self).num_vars() + 1
                    &&& final(self).basic(s as int)
                    &&& final(self).row_of(s as int)@ == vars@
                    &&& final(self).val(s as int).eqv(old(self).row_eval(vars.seq()))
                    &&& forall|v: int| 0 <= v < old(self).num_vars() ==> #[trigger] final(self).val(v) == old(self).val(v)
                    &&& forall|v: int| 0 <= v < old(self).num_vars() ==> #[trigger] final(self).basic(v) == old(self).basic(v)
                    &&& forall|v: int|
                        0 <= v < old(self).num_vars() && old(self).basic(v) ==> #[trigger] final(self).row_of(v) == old(self).row_of(v)
                })
            },
    {
        let mut k: usize = 0;
        while k < self.lin_to_slack.len()
            invariant
                self.wf(),
                k <= self.lin_to_slack.len(),
                vars.wf(),
            decreases self.lin_to_slack.len() - k,
        {
            if self.lin_to_slack[k].0.same_as(&vars) {
                proof {
                    let key = self.lin_to_slack@[k as int].0;
                    assert(key.wf());
                    key.lemma_entries();
                    vars.lemma_entries();
                    let s1 = key.seq();
                    let s2 = vars.seq();
                    assert forall|v: usize| #[trigger] key@.contains_key(v) implies vars@.contains_key(v) by {
                        let i = choose|i: int| 0 <= i < s1.len() && s1[i].0 == v;
                        assert(s2[i].0 == v);
                    }
                    assert forall|v: usize| #[trigger] vars@.contains_key(v) implies key@.contains_key(v) && key@[v]@.eqv(
                        vars@[v]@,
                    ) by {
                        let i = choose|i: int| 0 <= i < s2.len() && s2[i].0 == v;
                        assert(s1[i].0 == v);
                        lemma_coeff_at(s1, i);
                        lemma_coeff_at(s2, i);
                    }
                    assert(key@.dom() =~= vars@.dom());
                    assert(self.slack_table()[k as int] == self.lin_to_slack@[k as int]);
                }
                return Ok(self.lin_to_slack[k].1);
            }
            k += 1;
        }
        let value = match self.row_value(&vars) {
            Ok(v) => v,
            Err(e) => {
                return Err(e);
            },
        };
        let key = vars.dup();
        let ghost before = *self;
        let slack = self.mk_real();
        let ghost mid = *self;
        proof {
            assert forall|x: usize| #[trigger] vars@.contains_key(x) implies x < mid.num_vars() && !mid.basic(x as int) && x != slack by {
                assert(mid.basic(x as int) == before.basic(x as int));
            }
            assert(mid.row_eval(vars.seq()) == before.row_eval(vars.seq())) by {
                vars.lemma_entries();
                assert forall|k: int| 0 <= k < vars.seq().len() implies (#[trigger] vars.seq()[k]).0 < before.num_vars() by {
                    lemma_coeff_at(vars.seq(), k);
                }
                mid.lemma_row_eval_frame(before, vars.seq());
            }
        }
        self.reals.set(slack, value);
        self.tableau.set(slack, Some(vars));
        let ghost key_view = key@;
        self.lin_to_slack.push((key, slack));
        proof {
            let q = self.lin_to_slack@.len() - 1;
            assert(self.slack_table()[q] == self.lin_to_slack@[q]);
            assert(self.lin_to_slack@[q].0@ == vars@);
            assert(self.lin_to_slack@[q].0@.dom() =~= vars@.dom());
            assert forall|v: usize| #[trigger] vars@.contains_key(v) implies self.slack_table()[q].0@[v]@.eqv(vars@[v]@) by {
                crate::fraction::lemma_eqv_refl(vars@[v]@);
            }
        }
        proof {
            assert forall|b: int| 0 <= b < self.reals@.len() && #[trigger] self.tableau@[b] is Some implies {
                let rw = self.tableau@[b]->0;
                &&& rw.wf()
                &&& forall|x: usize|
                    #[trigger] rw@.contains_key(x) ==> (x < self.reals@.len() && self.tableau@[x as int] is None && x != b)
            } by {
                if b != slack {
                    assert(mid.tableau@[b] is Some);
                    let rw = self.tableau@[b]->0;
                    assert(before.basic(b));
                    assert(rw == before.row_of(b));
                    assert forall|x: usize| #[trigger] rw@.contains_key(x) implies (x < self.reals@.len() && self.tableau@[x as int] is None && x != b) by {
                        assert(mid.tableau@[x as int] is None);
                        assert(x < before.num_vars());
                    }
                } else {
                    let rw = self.tableau@[b]->0;
                    assert(rw == vars);
                    assert forall|x: usize| #[trigger] rw@.contains_key(x) implies (x < self.reals@.len() && self.tableau@[x as int] is None && x != b) by {
                        assert(vars@.contains_key(x));
                        assert(x < mid.num_vars() && !mid.basic(x as int) && x != slack);
                        assert(mid.tableau@[x as int] is None);
                    }
                }
            }
            assert forall|v: int| 0 <= v < self.reals@.len() && #[trigger] self.tableau@[v] is None implies self.in_bounds(v) by {
                assert(mid.in_bounds(v));
            }
            assert forall|v: int| 0 <= v < self.reals@.len() implies (#[trigger] self.reals@[v])@.real is Fin by {
                if v != slack {
                    assert(self.reals@[v] == mid.reals@[v]);
                }
            }
            assert forall|q: int| 0 <= q < self.lin_to_slack@.len() implies {
                &&& (#[trigger] self.lin_to_slack@[q]).1 < self.reals@.len()
                &&& self.lin_to_slack@[q].0.wf()
            } by {
                if q < mid.lin_to_slack@.len() {
                    assert(self.lin_to_slack@[q] == mid.lin_to_slack@[q]);
                }
            }
            assert forall|v: int| 0 <= v < before.num_vars() implies #[trigger] self.val(v) == before.val(v) by {
                assert(mid.val(v) == before.val(v));
            }
            assert forall|v: int| 0 <= v < before.num_vars() implies #[trigger] self.basic(v) == before.basic(v) by {
                assert(mid.basic(v) == before.basic(v));
            }
            assert forall|v: int| 0 <= v < before.num_vars() && before.basic(v) implies #[trigger] self.row_of(v) == before.row_of(v) by {
                assert(mid.row_of(v) == before.row_of(v));
            }
            assert forall|b: int| 0 <= b < mid.num_vars() && #[trigger] mid.basic(b) implies !mid.row_of(b)@.contains_key(
                slack,
            ) by {
                assert(b < before.num_vars());
                assert(before.basic(b));
                assert(mid.row_of(b) == before.row_of(b));
                if before.row_of(b)@.contains_key(slack) {
                    assert(before.tableau@[b] is Some);
                }
            }
            assert(self.tableau@ == mid.tableau@.update(slack as int, self.tableau@[slack as int]));
            Self::lemma_rows_added(mid, *self, slack as int);
        }
        Ok(slack)
    }

    /// Evaluating a combination of existing variables depends only on their values.
    proof fn lemma_row_eval_frame(self, other: LraTheory, s: Seq<(usize, Fraction)>)
        requires
            forall|k: int| 0 <= k < s.len() ==> (#[trigger] s[k]).0 < other.num_vars(),
            forall|v: int| 0 <= v < other.num_vars() ==> #[trigger] self.val(v) == other.val(v),
        ensures
            self.row_eval(s) == other.row_eval(s),
        decreases s.len(),
    {
        if s.len() > 0 {
            assert forall|k: int| 0 <= k < s.drop_last().len() implies (#[trigger] s.drop_last()[k]).0 < other.num_vars() by {
                assert(s.drop_last()[k] == s[k]);
            }
            self.lemma_row_eval_frame(other, s.drop_last());
            assert(s.last() == s[s.len() - 1]);
        }
    }
}

impl LraTheory {
    /// A consistent theory has a lower and an upper bound for each variable.
    pub proof fn lemma_bounds_len(self)
        requires
            self.wf(),
        ensures
            self.lower_bounds().len() == self.num_vars(),
            self.upper_bounds().len() == self.num_vars(),
    {
    }

    /// The row of a basic variable is well-formed and holds only non-basic
    /// variables of the theory.
    pub proof fn lemma_row_wf(self, b: int)
        requires
            self.wf(),
            0 <= b < self.num_vars(),
            self.basic(b),
        ensures
            self.row_of(b).wf(),
            forall|x: usize| #[trigger]
                self.row_of(b)@.contains_key(x) ==> x < self.num_vars() && !self.basic(x as int) && x != b,
    {
        assert(self.tableau@[b] is Some);
    }
}

} // verus!
