//! Sums `Σ g(v)·f(v)` of fraction-valued functions over the first `k`
//! indices, and the algebra that relates them up to `eqv`.
use crate::fraction::{lemma_add_eqv, lemma_eqv_refl, lemma_eqv_sym, lemma_eqv_trans, lemma_ops_wf, Ratio};
use vstd::prelude::*;

verus! {

/// `Σ_{0 <= v < k} g(v)·f(v)`.
pub open spec fn dot(g: spec_fn(int) -> Ratio, f: spec_fn(int) -> Ratio, k: int) -> Ratio
    decreases k,
{
    if k <= 0 {
        Ratio::zero()
    } else {
        dot(g, f, k - 1).add(g(k - 1).mul(f(k - 1)))
    }
}

/// Every value of `g` below `k` is well-formed.
pub open spec fn all_wf(g: spec_fn(int) -> Ratio, k: int) -> bool {
    forall|v: int| 0 <= v < k ==> (#[trigger] g(v)).wf()
}

pub proof fn lemma_add_comm(a: Ratio, b: Ratio)
    ensures
        a.add(b) == b.add(a),
{
    assert(a.den * b.den == b.den * a.den) by (nonlinear_arith);
}

pub proof fn lemma_mul_comm(a: Ratio, b: Ratio)
    ensures
        a.mul(b) == b.mul(a),
{
    assert(a.den * b.den == b.den * a.den) by (nonlinear_arith);
    assert(a.num * b.num == b.num * a.num) by (nonlinear_arith);
}

pub proof fn lemma_mul_assoc(a: Ratio, b: Ratio, c: Ratio)
    ensures
        a.mul(b).mul(c) == a.mul(b.mul(c)),
{
    assert((a.den * b.den) * c.den == a.den * (b.den * c.den)) by (nonlinear_arith);
    assert((a.num * b.num) * c.num == a.num * (b.num * c.num)) by (nonlinear_arith);
}

/// `(a + b)·c` and `a·c + b·c` have the same value.
pub proof fn lemma_distr_eqv(a: Ratio, b: Ratio, c: Ratio)
    ensures
        a.add(b).mul(c).eqv(a.mul(c).add(b.mul(c))),
{
    let l = a.add(b).mul(c);
    let r = a.mul(c).add(b.mul(c));
    let s = a.num * b.den + b.num * a.den;
    let k = c.num * c.den;
    assert((a.num * c.num) * (b.den * c.den) == k * (a.num * b.den)) by (nonlinear_arith)
        requires
            k == c.num * c.den,
    ;
    assert((b.num * c.num) * (a.den * c.den) == k * (b.num * a.den)) by (nonlinear_arith)
        requires
            k == c.num * c.den,
    ;
    assert(k * (a.num * b.den) + k * (b.num * a.den) == k * s) by (nonlinear_arith)
        requires
            s == a.num * b.den + b.num * a.den,
    ;
    assert(r.num == c.num * c.den * s);
    assert(r.den == (a.den * b.den * c.den) * c.den) by (nonlinear_arith)
        requires
            r.den == (a.den * c.den) * (b.den * c.den),
    ;
    assert(l.num == s * c.num);
    assert(l.den == a.den * b.den * c.den) by (nonlinear_arith)
        requires
            l.den == (a.den * b.den) * c.den,
    ;
    assert(l.num * r.den == r.num * l.den) by (nonlinear_arith)
        requires
            l.num == s * c.num,
            r.num == c.num * c.den * s,
            r.den == (a.den * b.den * c.den) * c.den,
            l.den == a.den * b.den * c.den,
    ;
}

/// Products respect `eqv` in both arguments.
pub proof fn lemma_mul_eqv(a: Ratio, a2: Ratio, b: Ratio, b2: Ratio)
    requires
        a.eqv(a2),
        b.eqv(b2),
    ensures
        a.mul(b).eqv(a2.mul(b2)),
{
    assert((a.num * b.num) * (a2.den * b2.den) == (a2.num * b2.num) * (a.den * b.den)) by (nonlinear_arith)
        requires
            a.num * a2.den == a2.num * a.den,
            b.num * b2.den == b2.num * b.den,
    {
        assert((a.num * b.num) * (a2.den * b2.den) == (a.num * a2.den) * (b.num * b2.den));
        assert((a2.num * b2.num) * (a.den * b.den) == (a2.num * a.den) * (b2.num * b.den));
    }
}

/// A fraction with a zero numerator has the value zero, and so does any
/// product with it.
pub proof fn lemma_zero_valued(a: Ratio, z: Ratio)
    requires
        z.num == 0,
        z.den > 0,
    ensures
        z.eqv(Ratio::zero()),
        a.mul(z).num == 0,
        z.mul(a).num == 0,
{
    assert(a.num * z.num == 0) by (nonlinear_arith)
        requires
            z.num == 0,
    ;
    assert(z.num * a.num == 0) by (nonlinear_arith)
        requires
            z.num == 0,
    ;
}

/// `a + z` has the value of `a` when `z` is zero-valued, on either side.
pub proof fn lemma_add_zero_r(a: Ratio, z: Ratio)
    requires
        a.wf(),
        z.wf(),
        z.num == 0,
    ensures
        a.add(z).eqv(a),
        z.add(a).eqv(a),
{
    assert(a.add(z).eqv(a)) by (nonlinear_arith)
        requires
            z.num == 0,
    ;
    lemma_add_comm(a, z);
}

/// `(x + y) + (z + w)` and `(x + z) + (y + w)` have the same value.
pub proof fn lemma_add_swap(x: Ratio, y: Ratio, z: Ratio, w: Ratio)
    requires
        x.wf(),
        y.wf(),
        z.wf(),
        w.wf(),
    ensures
        x.add(y).add(z.add(w)).eqv(x.add(z).add(y.add(w))),
{
    crate::rational::lemma_ratio_add_assoc(x, y, z.add(w));
    crate::rational::lemma_ratio_add_assoc(y, z, w);
    lemma_add_comm(y, z);
    crate::rational::lemma_ratio_add_assoc(z, y, w);
    crate::rational::lemma_ratio_add_assoc(x, z, y.add(w));
    lemma_eqv_refl(x.add(z).add(y.add(w)));
}

/// Well-formed sums.
pub proof fn lemma_dot_wf(g: spec_fn(int) -> Ratio, f: spec_fn(int) -> Ratio, k: int)
    requires
        all_wf(g, k),
        all_wf(f, k),
    ensures
        dot(g, f, k).wf(),
    decreases k,
{
    if k > 0 {
        lemma_dot_wf(g, f, k - 1);
        assert(g(k - 1).wf() && f(k - 1).wf());
        lemma_ops_wf(g(k - 1), f(k - 1));
        lemma_ops_wf(dot(g, f, k - 1), g(k - 1).mul(f(k - 1)));
    }
}

/// Summing coefficients pointwise sums the sums.
pub proof fn lemma_dot_add(g1: spec_fn(int) -> Ratio, g2: spec_fn(int) -> Ratio, g3: spec_fn(int) -> Ratio, f: spec_fn(int) -> Ratio, k: int)
    requires
        all_wf(g1, k),
        all_wf(g2, k),
        all_wf(g3, k),
        all_wf(f, k),
        forall|v: int| 0 <= v < k ==> (#[trigger] g3(v)).eqv(g1(v).add(g2(v))),
    ensures
        dot(g3, f, k).eqv(dot(g1, f, k).add(dot(g2, f, k))),
    decreases k,
{
    if k <= 0 {
        lemma_add_zero_r(Ratio::zero(), Ratio::zero());
        lemma_eqv_sym(Ratio::zero().add(Ratio::zero()), Ratio::zero());
    } else {
        let j = k - 1;
        lemma_dot_add(g1, g2, g3, f, j);
        lemma_dot_wf(g1, f, j);
        lemma_dot_wf(g2, f, j);
        lemma_dot_wf(g3, f, j);
        let (d1, d2, d3) = (dot(g1, f, j), dot(g2, f, j), dot(g3, f, j));
        let (a, b, c, x) = (g1(j), g2(j), g3(j), f(j));
        assert(a.wf() && b.wf() && c.wf() && x.wf());
        lemma_ops_wf(a, x);
        lemma_ops_wf(b, x);
        lemma_ops_wf(c, x);
        lemma_ops_wf(a, b);
        lemma_ops_wf(d1, d2);
        lemma_ops_wf(a.add(b), x);
        // c·x ~ (a + b)·x ~ a·x + b·x
        lemma_eqv_refl(x);
        lemma_mul_eqv(c, a.add(b), x, x);
        lemma_distr_eqv(a, b, x);
        lemma_eqv_trans(c.mul(x), a.add(b).mul(x), a.mul(x).add(b.mul(x)));
        // d3 + c·x ~ (d1 + d2) + (a·x + b·x) ~ (d1 + a·x) + (d2 + b·x)
        lemma_add_eqv(d3, d1.add(d2), c.mul(x), a.mul(x).add(b.mul(x)));
        lemma_add_swap(d1, d2, a.mul(x), b.mul(x));
        lemma_ops_wf(a.mul(x), b.mul(x));
        lemma_ops_wf(d1.add(d2), a.mul(x).add(b.mul(x)));
        lemma_eqv_trans(
            d3.add(c.mul(x)),
            d1.add(d2).add(a.mul(x).add(b.mul(x))),
            d1.add(a.mul(x)).add(d2.add(b.mul(x))),
        );
    }
}

/// Scaling coefficients pointwise scales the sum.
pub proof fn lemma_dot_scale(g1: spec_fn(int) -> Ratio, g2: spec_fn(int) -> Ratio, s: Ratio, f: spec_fn(int) -> Ratio, k: int)
    requires
        all_wf(g1, k),
        all_wf(g2, k),
        all_wf(f, k),
        s.wf(),
        forall|v: int| 0 <= v < k ==> (#[trigger] g2(v)).eqv(g1(v).mul(s)),
    ensures
        dot(g2, f, k).eqv(dot(g1, f, k).mul(s)),
    decreases k,
{
    if k <= 0 {
        lemma_zero_valued(Ratio::zero(), Ratio::zero());
        assert(Ratio::zero().mul(s).num == 0) by (nonlinear_arith);
    } else {
        let j = k - 1;
        lemma_dot_scale(g1, g2, s, f, j);
        lemma_dot_wf(g1, f, j);
        lemma_dot_wf(g2, f, j);
        let (d1, d2) = (dot(g1, f, j), dot(g2, f, j));
        let (a, c, x) = (g1(j), g2(j), f(j));
        assert(a.wf() && c.wf() && x.wf());
        lemma_ops_wf(a, x);
        lemma_ops_wf(c, x);
        lemma_ops_wf(a, s);
        lemma_ops_wf(d1, s);
        lemma_ops_wf(a.mul(x), s);
        lemma_ops_wf(a.mul(s), x);
        // c·x ~ (a·s)·x == a·(s·x) == a·(x·s) == (a·x)·s
        lemma_eqv_refl(x);
        lemma_mul_eqv(c, a.mul(s), x, x);
        lemma_mul_assoc(a, s, x);
        lemma_mul_comm(s, x);
        lemma_mul_assoc(a, x, s);
        assert(c.mul(x).eqv(a.mul(x).mul(s)));
        // d2 + c·x ~ d1·s + (a·x)·s ~ (d1 + a·x)·s
        lemma_add_eqv(d2, d1.mul(s), c.mul(x), a.mul(x).mul(s));
        lemma_distr_eqv(d1, a.mul(x), s);
        lemma_eqv_sym(d1.add(a.mul(x)).mul(s), d1.mul(s).add(a.mul(x).mul(s)));
        lemma_ops_wf(d1.mul(s), a.mul(x).mul(s));
        lemma_eqv_trans(d2.add(c.mul(x)), d1.mul(s).add(a.mul(x).mul(s)), d1.add(a.mul(x)).mul(s));
    }
}

/// Coefficients of the same value give sums of the same value, and
/// coefficients that are zero-valued make the values they multiply irrelevant.
pub proof fn lemma_dot_congr(g1: spec_fn(int) -> Ratio, g2: spec_fn(int) -> Ratio, f1: spec_fn(int) -> Ratio, f2: spec_fn(int) -> Ratio, k: int)
    requires
        all_wf(g1, k),
        all_wf(g2, k),
        all_wf(f1, k),
        all_wf(f2, k),
        forall|v: int| 0 <= v < k ==> (#[trigger] g1(v)).eqv(g2(v)),
        forall|v: int| 0 <= v < k ==> (#[trigger] g1(v)).num == 0 || f1(v) == f2(v),
    ensures
        dot(g1, f1, k).eqv(dot(g2, f2, k)),
    decreases k,
{
    if k > 0 {
        let j = k - 1;
        lemma_dot_congr(g1, g2, f1, f2, j);
        let (a, b, x, y) = (g1(j), g2(j), f1(j), f2(j));
        assert(a.wf() && b.wf() && x.wf() && y.wf());
        if a.num == 0 {
            assert(b.num == 0) by (nonlinear_arith)
                requires
                    a.num * b.den == b.num * a.den,
                    a.num == 0,
                    a.den > 0,
            ;
            lemma_zero_valued(x, a);
            lemma_zero_valued(y, b);
            assert(a.mul(x).eqv(b.mul(y))) by (nonlinear_arith)
                requires
                    a.mul(x).num == 0,
                    b.mul(y).num == 0,
            ;
        } else {
            lemma_eqv_refl(x);
            lemma_mul_eqv(a, b, x, y);
        }
        lemma_add_eqv(dot(g1, f1, j), dot(g2, f2, j), a.mul(x), b.mul(y));
    }
}

/// A sum whose coefficients are all zero-valued but the one of `x` is the
/// term of `x`.
pub proof fn lemma_dot_unit(g: spec_fn(int) -> Ratio, f: spec_fn(int) -> Ratio, x: int, k: int)
    requires
        all_wf(g, k),
        all_wf(f, k),
        0 <= x < k,
        forall|v: int| 0 <= v < k && v != x ==> (#[trigger] g(v)).num == 0,
    ensures
        dot(g, f, k).eqv(g(x).mul(f(x))),
    decreases k,
{
    lemma_dot_wf(g, f, k);
    let j = k - 1;
    assert(g(j).wf() && f(j).wf());
    lemma_ops_wf(g(j), f(j));
    if j == x {
        lemma_dot_zero(g, f, j);
        lemma_dot_wf(g, f, j);
        lemma_add_zero_r(g(j).mul(f(j)), dot(g, f, j));
    } else {
        lemma_dot_unit(g, f, x, j);
        lemma_dot_wf(g, f, j);
        lemma_zero_valued(f(j), g(j));
        lemma_add_zero_r(dot(g, f, j), g(j).mul(f(j)));
        assert(g(x).wf() && f(x).wf());
        lemma_ops_wf(g(x), f(x));
        lemma_eqv_trans(dot(g, f, k), dot(g, f, j), g(x).mul(f(x)));
    }
}

/// A sum whose coefficients are all zero-valued is zero.
pub proof fn lemma_dot_zero(g: spec_fn(int) -> Ratio, f: spec_fn(int) -> Ratio, k: int)
    requires
        all_wf(g, k),
        all_wf(f, k),
        forall|v: int| 0 <= v < k ==> (#[trigger] g(v)).num == 0,
    ensures
        dot(g, f, k).num == 0,
    decreases k,
{
    if k > 0 {
        let j = k - 1;
        lemma_dot_zero(g, f, j);
        lemma_dot_wf(g, f, j);
        assert(g(j).wf() && f(j).wf());
        lemma_zero_valued(f(j), g(j));
        let d = dot(g, f, j);
        let t = g(j).mul(f(j));
        assert(d.num * t.den + t.num * d.den == 0) by (nonlinear_arith)
            requires
                d.num == 0,
                t.num == 0,
        ;
    }
}

/// Changing the value of one variable `x` changes the sum by its coefficient
/// times the change; values with zero-valued coefficients may change freely.
pub proof fn lemma_dot_point(g: spec_fn(int) -> Ratio, f1: spec_fn(int) -> Ratio, f2: spec_fn(int) -> Ratio, x: int, k: int)
    requires
        all_wf(g, k),
        all_wf(f1, k),
        all_wf(f2, k),
        0 <= x < k,
        forall|v: int| 0 <= v < k && v != x ==> (#[trigger] g(v)).num == 0 || f1(v) == f2(v),
    ensures
        dot(g, f2, k).eqv(dot(g, f1, k).add(g(x).mul(f2(x).sub(f1(x))))),
    decreases k,
{
    let j = k - 1;
    lemma_dot_wf(g, f1, j);
    lemma_dot_wf(g, f2, j);
    assert(g(j).wf() && f1(j).wf() && f2(j).wf());
    assert(g(x).wf() && f1(x).wf() && f2(x).wf());
    let (c, a, b) = (g(x), f1(x), f2(x));
    lemma_ops_wf(b, a);
    lemma_ops_wf(c, b.sub(a));
    let delta = c.mul(b.sub(a));
    lemma_ops_wf(c, a);
    lemma_ops_wf(c, b);
    if j == x {
        // the sums below x agree
        assert forall|v: int| 0 <= v < j implies (#[trigger] g(v)).eqv(g(v)) by {
            lemma_eqv_refl(g(v));
        }
        lemma_dot_congr(g, g, f1, f2, j);
        let d1 = dot(g, f1, j);
        let d2 = dot(g, f2, j);
        // c·b ~ c·a + c·(b - a)
        assert(c.mul(b).eqv(c.mul(a).add(delta))) by {
            lemma_distr_eqv(a, b.sub(a), c);
            lemma_mul_comm(a.add(b.sub(a)), c);
            lemma_mul_comm(a, c);
            lemma_mul_comm(b.sub(a), c);
            assert(a.add(b.sub(a)).eqv(b)) by (nonlinear_arith)
                requires
                    a.den > 0,
                    b.den > 0,
            {
                assert(a.add(b.sub(a)).num == a.num * (b.den * a.den) + (b.num * a.den + (-a.num) * b.den) * a.den);
                assert(a.add(b.sub(a)).den == a.den * (b.den * a.den));
            }
            lemma_eqv_refl(c);
            lemma_mul_eqv(c, c, a.add(b.sub(a)), b);
            lemma_eqv_sym(c.mul(a.add(b.sub(a))), c.mul(b));
            lemma_ops_wf(a, b.sub(a));
            lemma_ops_wf(c, a.add(b.sub(a)));
            lemma_eqv_trans(c.mul(b), c.mul(a.add(b.sub(a))), c.mul(a).add(delta));
        }
        // d2 + c·b ~ d1 + (c·a + δ) == (d1 + c·a) + δ
        lemma_add_eqv(d2, d1, c.mul(b), c.mul(a).add(delta));
        crate::rational::lemma_ratio_add_assoc(d1, c.mul(a), delta);
    } else {
        lemma_dot_point(g, f1, f2, x, j);
        let d1 = dot(g, f1, j);
        let d2 = dot(g, f2, j);
        let (e, y1, y2) = (g(j), f1(j), f2(j));
        lemma_ops_wf(e, y1);
        lemma_ops_wf(e, y2);
        // e·y2 ~ e·y1
        assert(e.mul(y2).eqv(e.mul(y1))) by {
            if e.num == 0 {
                lemma_zero_valued(y1, e);
                lemma_zero_valued(y2, e);
                assert(e.mul(y2).eqv(e.mul(y1))) by (nonlinear_arith)
                    requires
                        e.mul(y1).num == 0,
                        e.mul(y2).num == 0,
                ;
            } else {
                lemma_eqv_refl(e.mul(y1));
            }
        }
        // d2 + e·y2 ~ (d1 + δ) + e·y1 ~ (d1 + e·y1) + δ
        lemma_add_eqv(d2, d1.add(delta), e.mul(y2), e.mul(y1));
        crate::rational::lemma_ratio_add_assoc(d1, delta, e.mul(y1));
        lemma_add_comm(delta, e.mul(y1));
        crate::rational::lemma_ratio_add_assoc(d1, e.mul(y1), delta);
        lemma_ops_wf(d1, delta);
        lemma_ops_wf(d1.add(delta), e.mul(y1));
    }
}

} // verus!
