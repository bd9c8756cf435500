//! Translation of the arithmetic terms of the input language into
//! arithmetic expressions: numerals and decimals become constants, declared
//! names their variables, and applications of `+`, `-`, `*`, `/`, `div` and
//! `mod` sums, negations, products and quotients, folded into a constant
//! where every operand is one.
use crate::ast::{ariths_model, lemma_ariths_model, ArithExpr, SArith};
use crate::fraction::{euclidean_div_mod, lemma_eqv_refl, Fraction, Ratio, MAG};
use vstd::prelude::*;

verus! {

broadcast use crate::fraction::lemma_fraction_fits;

/// A constant of the input language.
#[derive(Clone, Copy, Debug, PartialEq, Eq)]
pub enum SmtConstant {
    /// A numeral.
    Numeral(u64),
    /// A decimal, as its numerator and denominator.
    Decimal(u64, u64),
    /// Any other constant (a string, a bit vector).
    Other,
}

/// A term of the input language, as the reader hands it over.
#[derive(Debug)]
pub enum SmtTerm {
    /// A constant.
    Constant(SmtConstant),
    /// A name.
    Identifier(String),
    /// An operator applied to arguments.
    Application(String, Vec<SmtTerm>),
    /// Any other form (a binder, an annotation).
    Other,
}

/// Why a term could not be translated.
#[derive(Clone, Copy, Debug, PartialEq, Eq, Structural)]
pub enum TranslateError {
    /// A name that was not declared as an arithmetic variable.
    Undeclared,
    /// A constant that is neither a numeral nor a decimal.
    UnsupportedConstant,
    /// A term that is neither a constant, a name nor an application.
    UnsupportedTerm,
    /// An operator that is not arithmetic.
    UnsupportedOperator,
    /// An operator applied to the wrong number of arguments.
    Arity,
    /// A constant division by zero.
    DivisionByZero,
    /// `div` or `mod` of a constant that is not an integer.
    NotInteger,
    /// `div` or `mod` of a term that is not constant.
    NonConstantDivMod,
    /// An equality between terms of an uninterpreted sort, which only the
    /// solver that declared them can purify.
    UninterpretedEquality,
    /// A constant that does not fit in 64-bit fractions.
    Overflow,
}

/// Deep view of [`SmtTerm`].
pub enum STerm {
    Constant(SmtConstant),
    Identifier(Seq<char>),
    Application(Seq<char>, Seq<STerm>),
    Other,
}

impl SmtTerm {
    pub open spec fn model(&self) -> STerm
        decreases self,
    {
        match self {
            SmtTerm::Constant(c) => STerm::Constant(*c),
            SmtTerm::Identifier(n) => STerm::Identifier(n@),
            SmtTerm::Application(op, args) => STerm::Application(op@, terms_model(args@)),
            SmtTerm::Other => STerm::Other,
        }
    }
}

pub open spec fn terms_model(v: Seq<SmtTerm>) -> Seq<STerm>
    decreases v,
{
    if v.len() == 0 {
        Seq::empty()
    } else {
        seq![v[0].model()] + terms_model(v.drop_first())
    }
}

impl View for SmtTerm {
    type V = STerm;

    open spec fn view(&self) -> STerm {
        self.model()
    }
}

pub proof fn lemma_terms_model(v: Seq<SmtTerm>)
    ensures
        terms_model(v).len() == v.len(),
        forall|i: int| 0 <= i < v.len() ==> #[trigger] terms_model(v)[i] == v[i].model(),
    decreases v.len(),
{
    if v.len() > 0 {
        lemma_terms_model(v.drop_first());
    }
}

/// A translated term with exact constants: what a translation denotes.
pub enum RArith {
    Const(Ratio),
    Var(SArith),
    Add(Seq<RArith>),
    Mul(Seq<RArith>),
    Div(Box<RArith>, Box<RArith>),
    Neg(Box<RArith>),
}

/// The expression bound to `name` in the scope, the first binding first.
pub open spec fn lookup(sc: Seq<(Seq<char>, SArith)>, name: Seq<char>) -> Option<SArith>
    decreases sc.len(),
{
    if sc.len() == 0 {
        None
    } else if sc[0].0 == name {
        Some(sc[0].1)
    } else {
        lookup(sc.drop_first(), name)
    }
}

pub open spec fn all_const(xs: Seq<RArith>) -> bool {
    forall|i: int| 0 <= i < xs.len() ==> #[trigger] xs[i] is Const
}

/// The product of the constants of `xs`.
pub open spec fn product(xs: Seq<RArith>) -> Ratio
    decreases xs.len(),
{
    if xs.len() == 0 {
        Ratio::of_int(1)
    } else {
        product(xs.drop_last()).mul(xs.last()->Const_0)
    }
}

/// `x` negated: a constant by its opposite, anything else wrapped.
pub open spec fn negated(x: RArith) -> RArith {
    match x {
        RArith::Const(c) => RArith::Const(c.neg()),
        _ => RArith::Neg(Box::new(x)),
    }
}

/// The translation of the operator `op` applied to translated arguments.
pub open spec fn apply(op: Seq<char>, xs: Seq<RArith>) -> Result<RArith, TranslateError> {
    if op == "+"@ {
        Ok(RArith::Add(xs))
    } else if op == "*"@ {
        if all_const(xs) {
            Ok(RArith::Const(product(xs)))
        } else {
            Ok(RArith::Mul(xs))
        }
    } else if op == "-"@ {
        if xs.len() == 0 {
            Err(TranslateError::Arity)
        } else if xs.len() == 1 {
            Ok(negated(xs[0]))
        } else {
            Ok(RArith::Add(seq![xs[0]] + xs.drop_first().map_values(|x: RArith| negated(x))))
        }
    } else if op == "/"@ {
        if xs.len() != 2 {
            Err(TranslateError::Arity)
        } else {
            match (xs[0], xs[1]) {
                (RArith::Const(n), RArith::Const(d)) => if d.num == 0 {
                    Err(TranslateError::DivisionByZero)
                } else {
                    Ok(RArith::Const(n.div(d)))
                },
                (a, b) => Ok(RArith::Div(Box::new(a), Box::new(b))),
            }
        }
    } else if op == "div"@ || op == "mod"@ {
        if xs.len() != 2 {
            Err(TranslateError::Arity)
        } else {
            match (xs[0], xs[1]) {
                (RArith::Const(n), RArith::Const(d)) => if !(n.is_int() && d.is_int()) {
                    Err(TranslateError::NotInteger)
                } else if d.num == 0 {
                    Err(TranslateError::DivisionByZero)
                } else {
                    let a = n.num / n.den;
                    let b = d.num / d.den;
                    if op == "div"@ {
                        Ok(RArith::Const(Ratio::of_int(a / b)))
                    } else {
                        Ok(RArith::Const(Ratio::of_int(a % b)))
                    }
                },
                _ => Err(TranslateError::NonConstantDivMod),
            }
        }
    } else {
        Err(TranslateError::UnsupportedOperator)
    }
}

/// The translation of `t`, or the first error met (arguments from the
/// left), with exact constants.
pub open spec fn translation(sc: Seq<(Seq<char>, SArith)>, t: STerm) -> Result<RArith, TranslateError>
    decreases t, 1int,
{
    match t {
        STerm::Constant(SmtConstant::Numeral(n)) => Ok(RArith::Const(Ratio::of_int(n as int))),
        STerm::Constant(SmtConstant::Decimal(n, d)) => if d == 0 {
            Err(TranslateError::DivisionByZero)
        } else {
            Ok(RArith::Const(Ratio { num: n as int, den: d as int }))
        },
        STerm::Constant(SmtConstant::Other) => Err(TranslateError::UnsupportedConstant),
        STerm::Identifier(name) => match lookup(sc, name) {
            Some(e) => Ok(RArith::Var(e)),
            None => Err(TranslateError::Undeclared),
        },
        STerm::Application(op, args) => match translations(sc, args) {
            Ok(xs) => apply(op, xs),
            Err(x) => Err(x),
        },
        STerm::Other => Err(TranslateError::UnsupportedTerm),
    }
}

pub open spec fn translations(sc: Seq<(Seq<char>, SArith)>, ts: Seq<STerm>) -> Result<Seq<RArith>, TranslateError>
    decreases ts, 0int,
{
    if ts.len() == 0 {
        Ok(Seq::empty())
    } else {
        match translations(sc, ts.drop_last()) {
            Ok(xs) => match translation(sc, ts.last()) {
                Ok(x) => Ok(xs.push(x)),
                Err(e) => Err(e),
            },
            Err(e) => Err(e),
        }
    }
}

/// `e` is the expression that `x` denotes: the same shape, each constant
/// equal in value.
pub open spec fn denotes(e: SArith, x: RArith) -> bool
    decreases x,
{
    match x {
        RArith::Const(q) => e is Const && e->Const_0@.eqv(q) && q.wf(),
        RArith::Var(v) => e == v && !(v is Const),
        RArith::Add(xs) => e is Add && e->Add_0.len() == xs.len() && forall|i: int|
            0 <= i < xs.len() ==> denotes(#[trigger] e->Add_0[i], xs[i]),
        RArith::Mul(xs) => e is Mul && e->Mul_0.len() == xs.len() && forall|i: int|
            0 <= i < xs.len() ==> denotes(#[trigger] e->Mul_0[i], xs[i]),
        RArith::Div(a, b) => e is Div && denotes(*e->Div_0, *a) && denotes(*e->Div_1, *b),
        RArith::Neg(a) => e is Neg && denotes(*e->Neg_0, *a),
    }
}

/// Each expression of `es` denotes the term of `xs` at its place.
pub open spec fn denotes_each(es: Seq<SArith>, xs: Seq<RArith>) -> bool {
    es.len() == xs.len() && forall|i: int| 0 <= i < xs.len() ==> denotes(#[trigger] es[i], xs[i])
}

/// The scope as names and expressions.
pub open spec fn scope_view(vars: Seq<(String, ArithExpr)>) -> Seq<(Seq<char>, SArith)> {
    vars.map_values(|p: (String, ArithExpr)| (p.0@, p.1@))
}

/// Every name of the scope stands for a variable.
pub open spec fn scope_ok(vars: Seq<(String, ArithExpr)>) -> bool {
    forall|i: int| 0 <= i < vars.len() ==> (#[trigger] vars[i]).1@ is IntVar || vars[i].1@ is RealVar
}

proof fn lemma_lookup_var(sc: Seq<(Seq<char>, SArith)>, name: Seq<char>)
    requires
        forall|i: int| 0 <= i < sc.len() ==> (#[trigger] sc[i]).1 is IntVar || sc[i].1 is RealVar,
    ensures
        lookup(sc, name) matches Some(v) ==> !(v is Const),
    decreases sc.len(),
{
    if sc.len() > 0 && sc[0].0 != name {
        assert forall|i: int| 0 <= i < sc.drop_first().len() implies (#[trigger] sc.drop_first()[i]).1 is IntVar
            || sc.drop_first()[i].1 is RealVar by {
            assert(sc.drop_first()[i] == sc[i + 1]);
        }
        lemma_lookup_var(sc.drop_first(), name);
    }
}

/// The expression bound to `name`, the first binding first.
fn lookup_var(vars: &Vec<(String, ArithExpr)>, name: &String) -> (r: Option<ArithExpr>)
    ensures
        r matches Some(e) ==> lookup(scope_view(vars@), name@) == Some(e@),
        r is None ==> lookup(scope_view(vars@), name@) is None,
{
    let ghost sv = scope_view(vars@);
    let mut i: usize = 0;
    proof {
        assert(sv.subrange(0, sv.len() as int) =~= sv);
    }
    while i < vars.len()
        invariant
            i <= vars.len(),
            sv == scope_view(vars@),
            sv.len() == vars.len(),
            lookup(sv, name@) == lookup(sv.subrange(i as int, sv.len() as int), name@),
        decreases vars.len() - i,
    {
        let ghost rest = sv.subrange(i as int, sv.len() as int);
        proof {
            assert(rest[0] == (vars@[i as int].0@, vars@[i as int].1@));
            assert(rest.drop_first() =~= sv.subrange(i + 1, sv.len() as int));
        }
        if vars[i].0 == *name {
            return Some(vars[i].1.dup());
        }
        i += 1;
    }
    proof {
        assert(sv.subrange(vars.len() as int, sv.len() as int).len() == 0);
    }
    None
}

/// Whether `op` is the operator written `lit`.
fn is_op(op: &String, lit: &str) -> (r: bool)
    ensures
        r == (op@ == lit@),
{
    let l: String = lit.to_owned();
    *op == l
}

pub proof fn lemma_mul_eqv(a: Ratio, a2: Ratio, b: Ratio, b2: Ratio)
    requires
        a.eqv(a2),
        b.eqv(b2),
    ensures
        a.mul(b).eqv(a2.mul(b2)),
{
    let x = a.num * a2.den;
    let y = b.num * b2.den;
    assert((a.num * b.num) * (a2.den * b2.den) == x * y) by (nonlinear_arith)
        requires
            x == a.num * a2.den,
            y == b.num * b2.den,
    ;
    assert((a2.num * b2.num) * (a.den * b.den) == (a2.num * a.den) * (b2.num * b.den)) by (nonlinear_arith);
    assert(x == a2.num * a.den);
    assert(y == b2.num * b.den);
}

pub proof fn lemma_neg_eqv(a: Ratio, a2: Ratio)
    requires
        a.eqv(a2),
    ensures
        a.neg().eqv(a2.neg()),
{
    assert((-a.num) * a2.den == (-a2.num) * a.den) by (nonlinear_arith)
        requires
            a.num * a2.den == a2.num * a.den,
    ;
}

pub proof fn lemma_div_eqv(n: Ratio, n2: Ratio, d: Ratio, d2: Ratio)
    requires
        n.eqv(n2),
        d.eqv(d2),
        n.wf(),
        n2.wf(),
        d.wf(),
        d2.wf(),
        d.num != 0,
    ensures
        d2.num != 0,
        n.div(d).eqv(n2.div(d2)),
{
    assert(d2.num != 0) by (nonlinear_arith)
        requires
            d.num * d2.den == d2.num * d.den,
            d.num != 0,
            d2.den > 0,
            d.den > 0,
    ;
    crate::rational::lemma_ratio_div_eqv(n, n2, d);
    let x = n2.div(d);
    let y = n2.div(d2);
    if d.num > 0 {
        if d2.num > 0 {
            assert((n2.num * d.den) * (n2.den * d2.num) == (n2.num * d2.den) * (n2.den * d.num)) by (nonlinear_arith)
                requires
                    d.num * d2.den == d2.num * d.den,
            ;
        } else {
            assert(d2.num * d.den < 0) by (nonlinear_arith)
                requires
                    d2.num < 0,
                    d.den > 0,
            ;
            assert(d.num * d2.den > 0) by (nonlinear_arith)
                requires
                    d.num > 0,
                    d2.den > 0,
            ;
        }
    } else {
        if d2.num > 0 {
            assert(d2.num * d.den > 0) by (nonlinear_arith)
                requires
                    d2.num > 0,
                    d.den > 0,
            ;
            assert(d.num * d2.den < 0) by (nonlinear_arith)
                requires
                    d.num < 0,
                    d2.den > 0,
            ;
        } else {
            assert((-(n2.num * d.den)) * (-(n2.den * d2.num)) == (-(n2.num * d2.den)) * (-(n2.den * d.num))) by (nonlinear_arith)
                requires
                    d.num * d2.den == d2.num * d.den,
            ;
        }
    }
    assert(x.eqv(y));
    lemma_div_wf(n2, d);
    crate::fraction::lemma_eqv_trans(n.div(d), x, y);
}

pub proof fn lemma_div_wf(n: Ratio, d: Ratio)
    requires
        n.wf(),
        d.wf(),
        d.num != 0,
    ensures
        n.div(d).wf(),
{
    crate::fraction::lemma_ops_wf(n, d);
}

/// Two equal integers have the same integer value and denominators divide
/// their numerators alike.
pub proof fn lemma_int_eqv(n: Ratio, n2: Ratio)
    requires
        n.eqv(n2),
        n.wf(),
        n2.wf(),
        n.is_int(),
    ensures
        n2.is_int(),
        n.num / n.den == n2.num / n2.den,
{
    let k = n.num / n.den;
    vstd::arithmetic::div_mod::lemma_fundamental_div_mod(n.num, n.den);
    assert(n.num == k * n.den);
    assert(n2.num * n.den == k * n2.den * n.den) by (nonlinear_arith)
        requires
            n.num * n2.den == n2.num * n.den,
            n.num == k * n.den,
    ;
    assert(n2.num == k * n2.den) by (nonlinear_arith)
        requires
            n2.num * n.den == k * n2.den * n.den,
            n.den > 0,
    ;
    vstd::arithmetic::div_mod::lemma_div_multiples_vanish(k, n2.den);
    vstd::arithmetic::div_mod::lemma_mod_multiples_basic(k, n2.den);
    assert(k * n2.den == n2.den * k) by (nonlinear_arith);
}

/// A denoted expression is a constant exactly when the term is one.
proof fn lemma_const_iff(e: SArith, x: RArith)
    requires
        denotes(e, x),
    ensures
        (e is Const) == (x is Const),
{
}

/// Equal values: one is zero exactly when the other is.
proof fn lemma_zero_eqv(a: Ratio, b: Ratio)
    requires
        a.eqv(b),
        a.wf(),
        b.wf(),
    ensures
        (a.num == 0) == (b.num == 0),
{
    if a.num == 0 {
        assert(b.num * a.den == 0);
        assert(b.num == 0) by (nonlinear_arith)
            requires
                b.num * a.den == 0,
                a.den > 0,
        ;
    }
    if b.num == 0 {
        assert(a.num * b.den == 0);
        assert(a.num == 0) by (nonlinear_arith)
            requires
                a.num * b.den == 0,
                b.den > 0,
        ;
    }
}

/// The quotient and remainder of Euclidean division are unique.
proof fn lemma_euclid_unique(a: int, b: int, q: int, r: int)
    requires
        b != 0,
        a == q * b + r,
        0 <= r,
        r < (if b > 0 {
            b
        } else {
            -b
        }),
    ensures
        q == a / b,
        r == a % b,
{
    vstd::arithmetic::div_mod::lemma_fundamental_div_mod(a, b);
    let q0 = a / b;
    let r0 = a % b;
    assert(0 <= r0 < (if b > 0 {
        b
    } else {
        -b
    })) by {
        if b > 0 {
            vstd::arithmetic::div_mod::lemma_mod_bound(a, b);
        } else {
            assert(a % b >= 0 && a % b < -b) by (nonlinear_arith)
                requires
                    b < 0,
            ;
        }
    }
    assert((q - q0) * b == r0 - r) by (nonlinear_arith)
        requires
            a == q * b + r,
            a == b * q0 + r0,
    ;
    if q == q0 {
        assert(q * b == b * q0) by (nonlinear_arith)
            requires
                q == q0,
        ;
    }
    if q != q0 {
        assert(false) by (nonlinear_arith)
            requires
                (q - q0) * b == r0 - r,
                q != q0,
                0 <= r,
                0 <= r0,
                b > 0 ==> r < b && r0 < b,
                b < 0 ==> r < -b && r0 < -b,
                b != 0,
        ;
    }
}

/// The integer value of the integral `f`.
fn int_value(f: &Fraction) -> (r: i64)
    requires
        f@.is_int(),
    ensures
        r == f@.num / f@.den,
        r >= -MAG,
{
    let n = f.numer();
    let d = f.denom();
    proof {
        lemma_fraction_wf(*f);
    }
    let (q, rem) = euclidean_div_mod(n, d);
    proof {
        lemma_euclid_unique(n as int, d as int, q as int, rem as int);
        assert(rem == 0);
        assert(-MAG <= q <= MAG) by (nonlinear_arith)
            requires
                n == q * d,
                d >= 1,
                -MAG <= n <= MAG,
        ;
    }
    q as i64
}

proof fn lemma_fraction_wf(f: Fraction)
    ensures
        f@.wf(),
        -MAG <= f@.num <= MAG,
        f@.den <= MAG,
{
    crate::fraction::lemma_fraction_fits(f);
}

/// The translation of `op` applied to the translated arguments `es`, which
/// denote `xs`.
fn apply_op(op: &String, es: Vec<ArithExpr>, Ghost(xs): Ghost<Seq<RArith>>) -> (r: Result<ArithExpr, TranslateError>)
    requires
        denotes_each(ariths_model(es@), xs),
    ensures
        r matches Ok(e) ==> apply(op@, xs) matches Ok(x) && denotes(e@, x),
        r matches Err(err) ==> (err != TranslateError::Overflow ==> apply(op@, xs) == Err::<RArith, TranslateError>(err)),
        apply(op@, xs) matches Err(err) ==> r == Err::<ArithExpr, TranslateError>(err) || r == Err::<
            ArithExpr,
            TranslateError,
        >(TranslateError::Overflow),
{
    let ghost em = ariths_model(es@);
    proof {
        lemma_ariths_model(es@);
    }
    if is_op(op, "+") {
        proof {
            assert(ArithExpr::Add(es)@ == SArith::Add(em));
        }
        return Ok(ArithExpr::Add(es));
    }
    if is_op(op, "*") {
        let mut all = true;
        let mut i: usize = 0;
        while i < es.len()
            invariant
                i <= es.len(),
                em == ariths_model(es@),
                em.len() == es.len(),
                forall|k: int| 0 <= k < es.len() ==> #[trigger] em[k] == es@[k]@,
                denotes_each(em, xs),
                all == forall|k: int| 0 <= k < i ==> #[trigger] xs[k] is Const,
            decreases es.len() - i,
        {
            proof {
                lemma_const_iff(em[i as int], xs[i as int]);
            }
            if !matches!(es[i], ArithExpr::Const(_)) {
                all = false;
            }
            i += 1;
        }
        if all {
            let mut prod = Fraction::from_int(1);
            let mut j: usize = 0;
            proof {
                assert(xs.take(0) =~= Seq::<RArith>::empty());
            }
            while j < es.len()
                invariant
                    j <= es.len(),
                    em == ariths_model(es@),
                    em.len() == es.len(),
                    forall|k: int| 0 <= k < es.len() ==> #[trigger] em[k] == es@[k]@,
                    denotes_each(em, xs),
                    all_const(xs),
                    prod@.eqv(product(xs.take(j as int))),
                    product(xs.take(j as int)).wf(),
                decreases es.len() - j,
            {
                let c = match &es[j] {
                    ArithExpr::Const(c) => *c,
                    _ => {
                        proof {
                            assert(xs[j as int] is Const);
                            lemma_const_iff(em[j as int], xs[j as int]);
                        }
                        return Err(TranslateError::Overflow);
                    },
                };
                let ghost q = xs[j as int]->Const_0;
                let ghost p = product(xs.take(j as int));
                proof {
                    assert(xs[j as int] is Const);
                    assert(em[j as int] == SArith::Const(c));
                    assert(c@.eqv(q) && q.wf());
                    let t1 = xs.take(j + 1);
                    assert(t1.drop_last() =~= xs.take(j as int));
                    assert(t1.last() == xs[j as int]);
                }
                let next = match prod.checked_mul(&c) {
                    Some(x) => x,
                    None => {
                        return Err(TranslateError::Overflow);
                    },
                };
                proof {
                    lemma_fraction_wf(prod);
                    lemma_fraction_wf(c);
                    crate::fraction::lemma_ops_wf(prod@, c@);
                    crate::fraction::lemma_ops_wf(p, q);
                    lemma_mul_eqv(prod@, p, c@, q);
                    crate::fraction::lemma_eqv_trans(next@, prod@.mul(c@), p.mul(q));
                }
                prod = next;
                j += 1;
            }
            proof {
                assert(xs.take(es.len() as int) =~= xs);
            }
            return Ok(ArithExpr::Const(prod));
        } else {
            proof {
                assert(ArithExpr::Mul(es)@ == SArith::Mul(em));
            }
            return Ok(ArithExpr::Mul(es));
        }
    }
    if is_op(op, "-") {
        if es.len() == 0 {
            return Err(TranslateError::Arity);
        }
        if es.len() == 1 {
            proof {
                lemma_const_iff(em[0], xs[0]);
            }
            match &es[0] {
                ArithExpr::Const(c) => {
                    proof {
                        lemma_fraction_wf(*c);
                        let q = xs[0]->Const_0;
                        lemma_neg_eqv(c@, q);
                        crate::fraction::lemma_ops_wf(q, q);
                    }
                    return Ok(ArithExpr::Const(c.neg()));
                },
                other => {
                    let e = other.dup();
                    return Ok(ArithExpr::Neg(Box::new(e)));
                },
            }
        }
        let mut out: Vec<ArithExpr> = Vec::new();
        out.push(es[0].dup());
        let ghost target = seq![xs[0]] + xs.drop_first().map_values(|x: RArith| negated(x));
        let mut i: usize = 1;
        proof {
            lemma_ariths_model(out@);
        }
        while i < es.len()
            invariant
                1 <= i <= es.len(),
                em == ariths_model(es@),
                em.len() == es.len(),
                forall|k: int| 0 <= k < es.len() ==> #[trigger] em[k] == es@[k]@,
                denotes_each(em, xs),
                target == seq![xs[0]] + xs.drop_first().map_values(|x: RArith| negated(x)),
                out@.len() == i,
                forall|k: int| 0 <= k < i ==> denotes((#[trigger] out@[k])@, target[k]),
            decreases es.len() - i,
        {
            proof {
                lemma_const_iff(em[i as int], xs[i as int]);
                assert(target[i as int] == negated(xs[i as int]));
            }
            let item = match &es[i] {
                ArithExpr::Const(c) => {
                    proof {
                        lemma_fraction_wf(*c);
                        let q = xs[i as int]->Const_0;
                        lemma_neg_eqv(c@, q);
                        crate::fraction::lemma_ops_wf(q, q);
                    }
                    ArithExpr::Const(c.neg())
                },
                other => ArithExpr::Neg(Box::new(other.dup())),
            };
            out.push(item);
            i += 1;
        }
        proof {
            lemma_ariths_model(out@);
            assert forall|k: int| 0 <= k < target.len() implies denotes(#[trigger] ariths_model(out@)[k], target[k]) by {
                assert(ariths_model(out@)[k] == out@[k]@);
            }
        }
        return Ok(ArithExpr::Add(out));
    }
    if is_op(op, "/") {
        if es.len() != 2 {
            return Err(TranslateError::Arity);
        }
        proof {
            lemma_const_iff(em[0], xs[0]);
            lemma_const_iff(em[1], xs[1]);
        }
        if let (ArithExpr::Const(n), ArithExpr::Const(d)) = (&es[0], &es[1]) {
            proof {
                lemma_fraction_wf(*n);
                lemma_fraction_wf(*d);
                lemma_zero_eqv(d@, xs[1]->Const_0);
            }
            if d.is_zero() {
                return Err(TranslateError::DivisionByZero);
            }
            let f = match n.checked_div(d) {
                Some(f) => f,
                None => {
                    return Err(TranslateError::Overflow);
                },
            };
            proof {
                let qn = xs[0]->Const_0;
                let qd = xs[1]->Const_0;
                lemma_div_eqv(n@, qn, d@, qd);
                lemma_div_wf(n@, d@);
                lemma_div_wf(qn, qd);
                crate::fraction::lemma_eqv_trans(f@, n@.div(d@), qn.div(qd));
            }
            return Ok(ArithExpr::Const(f));
        }
        let a = es[0].dup();
        let b = es[1].dup();
        return Ok(ArithExpr::Div(Box::new(a), Box::new(b)));
    }
    let is_div = is_op(op, "div");
    if is_div || is_op(op, "mod") {
        if es.len() != 2 {
            return Err(TranslateError::Arity);
        }
        proof {
            lemma_const_iff(em[0], xs[0]);
            lemma_const_iff(em[1], xs[1]);
        }
        if let (ArithExpr::Const(n), ArithExpr::Const(d)) = (&es[0], &es[1]) {
            let ghost qn = xs[0]->Const_0;
            let ghost qd = xs[1]->Const_0;
            proof {
                lemma_fraction_wf(*n);
                lemma_fraction_wf(*d);
                if n@.is_int() {
                    lemma_int_eqv(n@, qn);
                }
                if qn.is_int() {
                    crate::fraction::lemma_eqv_sym(n@, qn);
                    lemma_int_eqv(qn, n@);
                }
                if d@.is_int() {
                    lemma_int_eqv(d@, qd);
                }
                if qd.is_int() {
                    crate::fraction::lemma_eqv_sym(d@, qd);
                    lemma_int_eqv(qd, d@);
                }
                lemma_zero_eqv(d@, qd);
            }
            if !(n.is_integer() && d.is_integer()) {
                return Err(TranslateError::NotInteger);
            }
            if d.is_zero() {
                return Err(TranslateError::DivisionByZero);
            }
            let a = int_value(n);
            let b = int_value(d);
            proof {
                assert(b != 0) by {
                    vstd::arithmetic::div_mod::lemma_fundamental_div_mod(d@.num, d@.den);
                }
            }
            let (q, r) = euclidean_div_mod(a, b);
            proof {
                lemma_euclid_unique(a as int, b as int, q as int, r as int);
            }
            if is_div {
                if q < -(MAG as i128) || q > MAG as i128 {
                    return Err(TranslateError::Overflow);
                }
                return Ok(ArithExpr::Const(Fraction::from_i64(q as i64)));
            } else {
                return Ok(ArithExpr::Const(Fraction::from_i64(r)));
            }
        }
        return Err(TranslateError::NonConstantDivMod);
    }
    Err(TranslateError::UnsupportedOperator)
}

/// An error in the translation of the first `j` arguments is the error of
/// the translation of them all.
proof fn lemma_translations_prefix(sc: Seq<(Seq<char>, SArith)>, ts: Seq<STerm>, j: int)
    requires
        0 <= j <= ts.len(),
        translations(sc, ts.take(j)) is Err,
    ensures
        translations(sc, ts) == translations(sc, ts.take(j)),
    decreases ts.len(),
{
    if j == ts.len() {
        assert(ts.take(j) =~= ts);
    } else {
        assert(ts.drop_last().take(j) =~= ts.take(j));
        lemma_translations_prefix(sc, ts.drop_last(), j);
    }
}

/// Translates the arguments from the left; the first error stops.
fn translate_args(vars: &Vec<(String, ArithExpr)>, args: &Vec<SmtTerm>) -> (r: Result<Vec<ArithExpr>, TranslateError>)
    requires
        scope_ok(vars@),
    ensures
        r matches Ok(es) ==> translations(scope_view(vars@), terms_model(args@)) matches Ok(xs) && denotes_each(
            ariths_model(es@),
            xs,
        ),
        r matches Err(err) ==> (err != TranslateError::Overflow ==> translations(scope_view(vars@), terms_model(args@))
            == Err::<Seq<RArith>, TranslateError>(err)),
        translations(scope_view(vars@), terms_model(args@)) matches Err(err) ==> r == Err::<
            Vec<ArithExpr>,
            TranslateError,
        >(err) || r == Err::<Vec<ArithExpr>, TranslateError>(TranslateError::Overflow),
    decreases args, 0int,
{
    let ghost sv = scope_view(vars@);
    let ghost tm = terms_model(args@);
    proof {
        lemma_terms_model(args@);
        assert(tm.take(0) =~= Seq::<STerm>::empty());
    }
    let mut out: Vec<ArithExpr> = Vec::new();
    let ghost mut xs: Seq<RArith> = Seq::empty();
    let mut i: usize = 0;
    while i < args.len()
        invariant
            i <= args.len(),
            scope_ok(vars@),
            sv == scope_view(vars@),
            tm == terms_model(args@),
            tm.len() == args.len(),
            forall|k: int| 0 <= k < args.len() ==> #[trigger] tm[k] == args@[k]@,
            translations(sv, tm.take(i as int)) == Ok::<Seq<RArith>, TranslateError>(xs),
            out@.len() == i,
            xs.len() == i,
            forall|k: int| 0 <= k < i ==> denotes((#[trigger] out@[k])@, xs[k]),
        decreases args.len() - i,
    {
        proof {
            vstd::std_specs::vec::axiom_vec_index_decreases(*args, i as int);
            let t1 = tm.take(i + 1);
            assert(t1.drop_last() =~= tm.take(i as int));
            assert(t1.last() == tm[i as int]);
        }
        match translate_arith_term(vars, &args[i]) {
            Ok(e) => {
                out.push(e);
                proof {
                    xs = xs.push(translation(sv, tm[i as int])->Ok_0);
                }
            },
            Err(err) => {
                proof {
                    if err != TranslateError::Overflow {
                        lemma_translations_prefix(sv, tm, i + 1);
                    }
                    if translations(sv, tm) is Err {
                        if translation(sv, tm[i as int]) is Err {
                            lemma_translations_prefix(sv, tm, i + 1);
                        }
                    }
                }
                return Err(err);
            },
        }
        i += 1;
    }
    proof {
        assert(tm.take(args.len() as int) =~= tm);
        lemma_ariths_model(out@);
        assert forall|k: int| 0 <= k < xs.len() implies denotes(#[trigger] ariths_model(out@)[k], xs[k]) by {
            assert(ariths_model(out@)[k] == out@[k]@);
        }
    }
    Ok(out)
}

/// Translates an arithmetic term of the input language, names read in the
/// scope `vars` (each bound to a variable).
pub fn translate_arith_term(vars: &Vec<(String, ArithExpr)>, term: &SmtTerm) -> (r: Result<ArithExpr, TranslateError>)
    requires
        scope_ok(vars@),
    ensures
        r matches Ok(e) ==> translation(scope_view(vars@), term@) matches Ok(x) && denotes(e@, x),
        r matches Err(err) ==> (err != TranslateError::Overflow ==> translation(scope_view(vars@), term@) == Err::<
            RArith,
            TranslateError,
        >(err)),
        translation(scope_view(vars@), term@) matches Err(err) ==> r == Err::<ArithExpr, TranslateError>(err) || r
            == Err::<ArithExpr, TranslateError>(TranslateError::Overflow),
    decreases term, 1int,
{
    let ghost sv = scope_view(vars@);
    match term {
        SmtTerm::Constant(SmtConstant::Numeral(n)) => {
            if *n > MAG as u64 {
                return Err(TranslateError::Overflow);
            }
            Ok(ArithExpr::Const(Fraction::from_i64(*n as i64)))
        },
        SmtTerm::Constant(SmtConstant::Decimal(n, d)) => {
            if *d == 0 {
                return Err(TranslateError::DivisionByZero);
            }
            if *n > MAG as u64 || *d > MAG as u64 {
                return Err(TranslateError::Overflow);
            }
            match Fraction::new(*n as i64, *d as i64) {
                Some(f) => Ok(ArithExpr::Const(f)),
                None => Err(TranslateError::Overflow),
            }
        },
        SmtTerm::Constant(SmtConstant::Other) => Err(TranslateError::UnsupportedConstant),
        SmtTerm::Identifier(name) => {
            proof {
                assert forall|i: int| 0 <= i < sv.len() implies (#[trigger] sv[i]).1 is IntVar || sv[i].1 is RealVar by {
                    assert(sv[i].1 == vars@[i].1@);
                }
                lemma_lookup_var(sv, name@);
            }
            match lookup_var(vars, name) {
                Some(e) => Ok(e),
                None => Err(TranslateError::Undeclared),
            }
        },
        SmtTerm::Application(op, args) => {
            let es = match translate_args(vars, args) {
                Ok(es) => es,
                Err(err) => {
                    return Err(err);
                },
            };
            let ghost xs = translations(sv, terms_model(args@))->Ok_0;
            apply_op(op, es, Ghost(xs))
        },
        SmtTerm::Other => Err(TranslateError::UnsupportedTerm),
    }
}

} // verus!
