//! Human-readable text of expressions: variables as a letter and an index,
//! `¬`, `∧`, `∨` and `≤`, `≥` for the connectives and comparisons, and
//! arithmetic in parenthesised infix form.
use crate::ast::{
    bools_model, ariths_model, exprs_model, lemma_ariths_model, lemma_bools_model, lemma_exprs_model, ArithExpr, BoolExpr, EnumExpr, EufExpr,
    Expr, SArith, SBool, SEuf, SExpr,
};
use crate::fraction::{Fraction, Ratio};
use vstd::prelude::*;
use vstd::string::*;

verus! {

broadcast use crate::fraction::lemma_fraction_fits;

/// The decimal digit `d`.
pub open spec fn digit_text(d: nat) -> Seq<char> {
    if d == 0 {
        "0"@
    } else if d == 1 {
        "1"@
    } else if d == 2 {
        "2"@
    } else if d == 3 {
        "3"@
    } else if d == 4 {
        "4"@
    } else if d == 5 {
        "5"@
    } else if d == 6 {
        "6"@
    } else if d == 7 {
        "7"@
    } else if d == 8 {
        "8"@
    } else {
        "9"@
    }
}

/// The decimal digits of `n`.
pub open spec fn nat_text(n: nat) -> Seq<char>
    decreases n,
{
    if n < 10 {
        digit_text(n)
    } else {
        nat_text(n / 10) + digit_text(n % 10)
    }
}

/// An integer in decimal, with a minus sign when negative.
pub open spec fn int_text(v: int) -> Seq<char> {
    if v < 0 {
        "-"@ + nat_text((-v) as nat)
    } else {
        nat_text(v as nat)
    }
}

/// A fraction as its numerator, followed by `/` and its denominator unless
/// that is one.
pub open spec fn frac_text(f: Ratio) -> Seq<char> {
    if f.den == 1 {
        int_text(f.num)
    } else {
        int_text(f.num) + "/"@ + nat_text(f.den as nat)
    }
}

/// The text of an arithmetic expression.
pub open spec fn arith_text(e: SArith) -> Seq<char>
    decreases e, 1int,
{
    match e {
        SArith::Const(c) => frac_text(c@),
        SArith::IntVar(v) => "i"@ + nat_text(v.0 as nat),
        SArith::RealVar(v) => "r"@ + nat_text(v.0 as nat),
        SArith::Add(ts) => if ts.len() == 0 {
            "()"@
        } else {
            "("@ + sum_text(ts) + ")"@
        },
        SArith::Neg(x) => "-"@ + arith_text(*x),
        SArith::Mul(ts) => "("@ + join_ariths(ts, " * "@) + ")"@,
        SArith::Div(a, b) => "("@ + arith_text(*a) + " / "@ + arith_text(*b) + ")"@,
    }
}

/// The terms of a sum: the first as it is, each later one after ` + `, or
/// after ` - ` with its negation dropped.
pub open spec fn sum_text(ts: Seq<SArith>) -> Seq<char>
    decreases ts, 0int,
{
    if ts.len() == 0 {
        Seq::empty()
    } else if ts.len() == 1 {
        arith_text(ts[0])
    } else {
        sum_text(ts.drop_last()) + match ts.last() {
            SArith::Neg(x) => " - "@ + arith_text(*x),
            t => " + "@ + arith_text(t),
        }
    }
}

/// The texts of `ts` separated by `sep`.
pub open spec fn join_ariths(ts: Seq<SArith>, sep: Seq<char>) -> Seq<char>
    decreases ts, 0int,
{
    if ts.len() == 0 {
        Seq::empty()
    } else if ts.len() == 1 {
        arith_text(ts[0])
    } else {
        join_ariths(ts.drop_last(), sep) + sep + arith_text(ts.last())
    }
}

/// The text of an enum expression: the variable, or `#` and the constant.
pub open spec fn enum_text(e: EnumExpr) -> Seq<char> {
    match e {
        EnumExpr::Var(v) => "e"@ + nat_text(v.0 as nat),
        EnumExpr::Const(c) => "#"@ + int_text(c as int),
    }
}

/// The text of a formula.
pub open spec fn bool_text(e: SBool) -> Seq<char>
    decreases e, 1int,
{
    match e {
        SBool::True => "true"@,
        SBool::False => "false"@,
        SBool::Var(v) => "b"@ + nat_text(v.0 as nat),
        SBool::Not(x) => "¬"@ + bool_text(*x),
        SBool::And(ts) => "("@ + join_bools(ts, " ∧ "@) + ")"@,
        SBool::Or(ts) => "("@ + join_bools(ts, " ∨ "@) + ")"@,
        SBool::Lt(a, b) => arith_text(a) + " < "@ + arith_text(b),
        SBool::Le(a, b) => arith_text(a) + " ≤ "@ + arith_text(b),
        SBool::Ge(a, b) => arith_text(a) + " ≥ "@ + arith_text(b),
        SBool::Gt(a, b) => arith_text(a) + " > "@ + arith_text(b),
        SBool::Eq(a, b) => expr_text(*a) + " = "@ + expr_text(*b),
        SBool::DlLt(f, t, c) => dl_text(f.0, t.0, " < "@, c),
        SBool::DlLe(f, t, c) => dl_text(f.0, t.0, " ≤ "@, c),
        SBool::DlEq(f, t, c) => dl_text(f.0, t.0, " = "@, c),
        SBool::DlGe(f, t, c) => dl_text(f.0, t.0, " ≥ "@, c),
        SBool::DlGt(f, t, c) => dl_text(f.0, t.0, " > "@, c),
    }
}

/// `to - from`, the relation and the bound.
pub open spec fn dl_text(from: usize, to: usize, rel: Seq<char>, c: Fraction) -> Seq<char> {
    "d"@ + nat_text(to as nat) + " - "@ + "d"@ + nat_text(from as nat) + rel + frac_text(c@)
}

/// The texts of `ts` separated by `sep`.
pub open spec fn join_bools(ts: Seq<SBool>, sep: Seq<char>) -> Seq<char>
    decreases ts, 0int,
{
    if ts.len() == 0 {
        Seq::empty()
    } else if ts.len() == 1 {
        bool_text(ts[0])
    } else {
        join_bools(ts.drop_last(), sep) + sep + bool_text(ts.last())
    }
}

/// The text of an expression of any theory.
pub open spec fn expr_text(e: SExpr) -> Seq<char>
    decreases e, 2int,
{
    match e {
        SExpr::Bool(b) => bool_text(b),
        SExpr::Enum(x) => enum_text(x),
        SExpr::Arith(a) => arith_text(a),
        SExpr::Euf(u) => euf_text(u),
    }
}

/// The text of a term of an uninterpreted sort.
pub open spec fn euf_text(e: SEuf) -> Seq<char>
    decreases e, 1int,
{
    match e {
        SEuf::Var(v) => "u"@ + nat_text(v.0 as nat),
        SEuf::App(f, args) => "f"@ + nat_text(f.0 as nat) + "("@ + join_exprs(args, ", "@) + ")"@,
    }
}

/// The texts of `ts` separated by `sep`.
pub open spec fn join_exprs(ts: Seq<SExpr>, sep: Seq<char>) -> Seq<char>
    decreases ts, 0int,
{
    if ts.len() == 0 {
        Seq::empty()
    } else if ts.len() == 1 {
        expr_text(ts[0])
    } else {
        join_exprs(ts.drop_last(), sep) + sep + expr_text(ts.last())
    }
}

/// Appends `s` to `out`.
fn push(out: &mut String, s: &str)
    ensures
        final(out)@ == old(out)@ + s@,
{
    out.append(s);
}

/// Appends the decimal digits of `n`.
fn push_nat(out: &mut String, n: u64)
    ensures
        final(out)@ == old(out)@ + nat_text(n as nat),
    decreases n,
{
    let ghost start = out@;
    if n >= 10 {
        push_nat(out, n / 10);
    }
    let d = n % 10;
    if d == 0 {
        push(out, "0");
    } else if d == 1 {
        push(out, "1");
    } else if d == 2 {
        push(out, "2");
    } else if d == 3 {
        push(out, "3");
    } else if d == 4 {
        push(out, "4");
    } else if d == 5 {
        push(out, "5");
    } else if d == 6 {
        push(out, "6");
    } else if d == 7 {
        push(out, "7");
    } else if d == 8 {
        push(out, "8");
    } else {
        push(out, "9");
    }
    proof {
        if n >= 10 {
            assert(out@ =~= start + (nat_text((n / 10) as nat) + digit_text((n % 10) as nat)));
        } else {
            assert(out@ =~= start + digit_text(n as nat));
        }
    }
}

/// Appends an integer in decimal.
fn push_int(out: &mut String, v: i64)
    requires
        v > i64::MIN,
    ensures
        final(out)@ == old(out)@ + int_text(v as int),
{
    let ghost start = out@;
    if v < 0 {
        push(out, "-");
        push_nat(out, (-v) as u64);
        proof {
            assert(out@ =~= start + ("-"@ + nat_text((-v) as nat)));
        }
    } else {
        push_nat(out, v as u64);
    }
}

/// Appends a fraction.
fn push_frac(out: &mut String, f: &Fraction)
    ensures
        final(out)@ == old(out)@ + frac_text(f@),
{
    let ghost start = out@;
    let n = f.numer();
    let d = f.denom();
    proof {
        assert(f@.fits());
    }
    push_int(out, n);
    if d != 1 {
        push(out, "/");
        push_nat(out, d as u64);
        proof {
            assert(out@ =~= start + (int_text(n as int) + "/"@ + nat_text(d as nat)));
        }
    }
}

/// Appends a letter and an index.
fn push_var(out: &mut String, letter: &str, n: usize)
    ensures
        final(out)@ == old(out)@ + (letter@ + nat_text(n as nat)),
{
    let ghost start = out@;
    push(out, letter);
    push_nat(out, n as u64);
    proof {
        assert(out@ =~= start + (letter@ + nat_text(n as nat)));
    }
}

/// Appends the text of an arithmetic expression.
pub fn write_arith(out: &mut String, e: &ArithExpr)
    ensures
        final(out)@ == old(out)@ + arith_text(e@),
    decreases e, 1int,
{
    let ghost start = out@;
    match e {
        ArithExpr::Const(c) => push_frac(out, c),
        ArithExpr::IntVar(v) => push_var(out, "i", v.0),
        ArithExpr::RealVar(v) => push_var(out, "r", v.0),
        ArithExpr::Add(ts) => {
            if ts.len() == 0 {
                push(out, "()");
                proof {
                    lemma_ariths_model(ts@);
                }
            } else {
                push(out, "(");
                write_sum(out, ts);
                push(out, ")");
                proof {
                    lemma_ariths_model(ts@);
                    assert(out@ =~= start + ("("@ + sum_text(ariths_model(ts@)) + ")"@));
                }
            }
        },
        ArithExpr::Neg(x) => {
            push(out, "-");
            write_arith(out, x);
            proof {
                assert(out@ =~= start + ("-"@ + arith_text(x@)));
            }
        },
        ArithExpr::Mul(ts) => {
            push(out, "(");
            write_ariths(out, ts, " * ");
            push(out, ")");
            proof {
                assert(out@ =~= start + ("("@ + join_ariths(ariths_model(ts@), " * "@) + ")"@));
            }
        },
        ArithExpr::Div(a, b) => {
            push(out, "(");
            write_arith(out, a);
            push(out, " / ");
            write_arith(out, b);
            push(out, ")");
            proof {
                assert(out@ =~= start + ("("@ + arith_text(a@) + " / "@ + arith_text(b@) + ")"@));
            }
        },
    }
}

/// Appends the terms of a non-empty sum.
fn write_sum(out: &mut String, ts: &Vec<ArithExpr>)
    requires
        ts.len() > 0,
    ensures
        final(out)@ == old(out)@ + sum_text(ariths_model(ts@)),
    decreases ts, 0int,
{
    let ghost start = out@;
    let ghost m = ariths_model(ts@);
    proof {
        lemma_ariths_model(ts@);
        vstd::std_specs::vec::axiom_vec_index_decreases(*ts, 0);
        assert(m.take(1).len() == 1 && m.take(1)[0] == m[0]);
    }
    write_arith(out, &ts[0]);
    let mut i: usize = 1;
    while i < ts.len()
        invariant
            1 <= i <= ts.len(),
            m == ariths_model(ts@),
            m.len() == ts.len(),
            forall|k: int| 0 <= k < ts.len() ==> #[trigger] m[k] == ts@[k]@,
            out@ == start + sum_text(m.take(i as int)),
        decreases ts.len() - i,
    {
        let ghost before = out@;
        proof {
            vstd::std_specs::vec::axiom_vec_index_decreases(*ts, i as int);
            assert(m.take(i + 1).drop_last() =~= m.take(i as int));
            assert(m.take(i + 1).last() == m[i as int]);
        }
        match &ts[i] {
            ArithExpr::Neg(x) => {
                push(out, " - ");
                write_arith(out, x);
                proof {
                    assert(out@ =~= before + (" - "@ + arith_text(x@)));
                }
            },
            t => {
                push(out, " + ");
                write_arith(out, t);
                proof {
                    assert(m[i as int] !is Neg);
                    assert(out@ =~= before + (" + "@ + arith_text(t@)));
                }
            },
        }
        proof {
            assert(out@ =~= start + sum_text(m.take(i + 1)));
        }
        i += 1;
    }
    proof {
        assert(m.take(ts.len() as int) =~= m);
    }
}

/// Appends the texts of `ts` separated by `sep`.
fn write_ariths(out: &mut String, ts: &Vec<ArithExpr>, sep: &str)
    ensures
        final(out)@ == old(out)@ + join_ariths(ariths_model(ts@), sep@),
    decreases ts, 0int,
{
    let ghost start = out@;
    let ghost m = ariths_model(ts@);
    proof {
        lemma_ariths_model(ts@);
        assert(m.take(0) =~= Seq::<SArith>::empty());
    }
    let mut i: usize = 0;
    while i < ts.len()
        invariant
            i <= ts.len(),
            m == ariths_model(ts@),
            m.len() == ts.len(),
            forall|k: int| 0 <= k < ts.len() ==> #[trigger] m[k] == ts@[k]@,
            out@ == start + join_ariths(m.take(i as int), sep@),
        decreases ts.len() - i,
    {
        let ghost before = out@;
        proof {
            vstd::std_specs::vec::axiom_vec_index_decreases(*ts, i as int);
            assert(m.take(i + 1).drop_last() =~= m.take(i as int));
            assert(m.take(i + 1).last() == m[i as int]);
        }
        if i > 0 {
            push(out, sep);
        }
        write_arith(out, &ts[i]);
        proof {
            if i == 0 {
                assert(m.take(1)[0] == m[0]);
            }
            assert(out@ =~= start + join_ariths(m.take(i + 1), sep@));
        }
        i += 1;
    }
    proof {
        assert(m.take(ts.len() as int) =~= m);
    }
}

/// Appends the text of an enum expression.
pub fn write_enum(out: &mut String, e: &EnumExpr)
    ensures
        final(out)@ == old(out)@ + enum_text(*e),
{
    match e {
        EnumExpr::Var(v) => push_var(out, "e", v.0),
        EnumExpr::Const(c) => {
            let ghost start = out@;
            push(out, "#");
            push_int(out, *c as i64);
            proof {
                assert(out@ =~= start + ("#"@ + int_text(*c as int)));
            }
        },
    }
}

/// Appends `to - from`, the relation and the bound.
fn write_dl(out: &mut String, from: usize, to: usize, rel: &str, c: &Fraction)
    ensures
        final(out)@ == old(out)@ + dl_text(from, to, rel@, *c),
{
    let ghost start = out@;
    push_var(out, "d", to);
    push(out, " - ");
    push_var(out, "d", from);
    push(out, rel);
    push_frac(out, c);
    proof {
        assert(out@ =~= start + dl_text(from, to, rel@, *c));
    }
}

/// Appends `a`, the relation and `b`.
fn write_relation(out: &mut String, a: &ArithExpr, rel: &str, b: &ArithExpr)
    ensures
        final(out)@ == old(out)@ + (arith_text(a@) + rel@ + arith_text(b@)),
{
    let ghost start = out@;
    write_arith(out, a);
    push(out, rel);
    write_arith(out, b);
    proof {
        assert(out@ =~= start + (arith_text(a@) + rel@ + arith_text(b@)));
    }
}

/// Appends the text of a formula.
pub fn write_bool(out: &mut String, e: &BoolExpr)
    ensures
        final(out)@ == old(out)@ + bool_text(e@),
    decreases e, 1int,
{
    let ghost start = out@;
    match e {
        BoolExpr::True => push(out, "true"),
        BoolExpr::False => push(out, "false"),
        BoolExpr::Var(v) => push_var(out, "b", v.0),
        BoolExpr::Not(x) => {
            push(out, "¬");
            write_bool(out, x);
            proof {
                assert(out@ =~= start + ("¬"@ + bool_text(x@)));
            }
        },
        BoolExpr::And(ts) => {
            push(out, "(");
            write_bools(out, ts, " ∧ ");
            push(out, ")");
            proof {
                assert(out@ =~= start + ("("@ + join_bools(bools_model(ts@), " ∧ "@) + ")"@));
            }
        },
        BoolExpr::Or(ts) => {
            push(out, "(");
            write_bools(out, ts, " ∨ ");
            push(out, ")");
            proof {
                assert(out@ =~= start + ("("@ + join_bools(bools_model(ts@), " ∨ "@) + ")"@));
            }
        },
        BoolExpr::Lt(a, b) => write_relation(out, a, " < ", b),
        BoolExpr::Le(a, b) => write_relation(out, a, " ≤ ", b),
        BoolExpr::Ge(a, b) => write_relation(out, a, " ≥ ", b),
        BoolExpr::Gt(a, b) => write_relation(out, a, " > ", b),
        BoolExpr::Eq(a, b) => {
            write_expr(out, a);
            push(out, " = ");
            write_expr(out, b);
            proof {
                assert(out@ =~= start + (expr_text((**a)@) + " = "@ + expr_text((**b)@)));
            }
        },
        BoolExpr::DlLt(f, t, c) => write_dl(out, f.0, t.0, " < ", c),
        BoolExpr::DlLe(f, t, c) => write_dl(out, f.0, t.0, " ≤ ", c),
        BoolExpr::DlEq(f, t, c) => write_dl(out, f.0, t.0, " = ", c),
        BoolExpr::DlGe(f, t, c) => write_dl(out, f.0, t.0, " ≥ ", c),
        BoolExpr::DlGt(f, t, c) => write_dl(out, f.0, t.0, " > ", c),
    }
}

/// Appends the texts of `ts` separated by `sep`.
fn write_bools(out: &mut String, ts: &Vec<BoolExpr>, sep: &str)
    ensures
        final(out)@ == old(out)@ + join_bools(bools_model(ts@), sep@),
    decreases ts, 0int,
{
    let ghost start = out@;
    let ghost m = bools_model(ts@);
    proof {
        lemma_bools_model(ts@);
        assert(m.take(0) =~= Seq::<SBool>::empty());
    }
    let mut i: usize = 0;
    while i < ts.len()
        invariant
            i <= ts.len(),
            m == bools_model(ts@),
            m.len() == ts.len(),
            forall|k: int| 0 <= k < ts.len() ==> #[trigger] m[k] == ts@[k]@,
            out@ == start + join_bools(m.take(i as int), sep@),
        decreases ts.len() - i,
    {
        proof {
            vstd::std_specs::vec::axiom_vec_index_decreases(*ts, i as int);
            assert(m.take(i + 1).drop_last() =~= m.take(i as int));
            assert(m.take(i + 1).last() == m[i as int]);
        }
        if i > 0 {
            push(out, sep);
        }
        write_bool(out, &ts[i]);
        proof {
            if i == 0 {
                assert(m.take(1)[0] == m[0]);
            }
            assert(out@ =~= start + join_bools(m.take(i + 1), sep@));
        }
        i += 1;
    }
    proof {
        assert(m.take(ts.len() as int) =~= m);
    }
}

/// Appends the text of an expression of any theory.
pub fn write_expr(out: &mut String, e: &Expr)
    ensures
        final(out)@ == old(out)@ + expr_text(e@),
    decreases e, 2int,
{
    match e {
        Expr::Bool(b) => write_bool(out, b),
        Expr::Enum(x) => write_enum(out, x),
        Expr::Arith(a) => write_arith(out, a),
        Expr::Euf(u) => write_euf(out, u),
    }
}

/// Appends the text of a term of an uninterpreted sort.
pub fn write_euf(out: &mut String, e: &EufExpr)
    ensures
        final(out)@ == old(out)@ + euf_text(e@),
    decreases e, 1int,
{
    let ghost start = out@;
    match e {
        EufExpr::Var(v) => push_var(out, "u", v.0),
        EufExpr::App(f, args) => {
            push_var(out, "f", f.0);
            push(out, "(");
            write_exprs(out, args, ", ");
            push(out, ")");
            proof {
                assert(out@ =~= start + ("f"@ + nat_text(f.0 as nat) + "("@ + join_exprs(exprs_model(args@), ", "@) + ")"@));
            }
        },
    }
}

/// Appends the texts of `ts` separated by `sep`.
fn write_exprs(out: &mut String, ts: &Vec<Expr>, sep: &str)
    ensures
        final(out)@ == old(out)@ + join_exprs(exprs_model(ts@), sep@),
    decreases ts, 0int,
{
    let ghost start = out@;
    let ghost m = exprs_model(ts@);
    proof {
        lemma_exprs_model(ts@);
        assert(m.take(0) =~= Seq::<SExpr>::empty());
    }
    let mut i: usize = 0;
    while i < ts.len()
        invariant
            i <= ts.len(),
            m == exprs_model(ts@),
            m.len() == ts.len(),
            forall|k: int| 0 <= k < ts.len() ==> #[trigger] m[k] == ts@[k]@,
            out@ == start + join_exprs(m.take(i as int), sep@),
        decreases ts.len() - i,
    {
        proof {
            vstd::std_specs::vec::axiom_vec_index_decreases(*ts, i as int);
            assert(m.take(i + 1).drop_last() =~= m.take(i as int));
            assert(m.take(i + 1).last() == m[i as int]);
        }
        if i > 0 {
            push(out, sep);
        }
        write_expr(out, &ts[i]);
        proof {
            if i == 0 {
                assert(m.take(1)[0] == m[0]);
            }
            assert(out@ =~= start + join_exprs(m.take(i + 1), sep@));
        }
        i += 1;
    }
    proof {
        assert(m.take(ts.len() as int) =~= m);
    }
}

impl BoolExpr {
    /// The text of the formula.
    pub fn to_text(&self) -> (r: String)
        ensures
            r@ == bool_text(self@),
    {
        let mut s = String::new();
        write_bool(&mut s, self);
        s
    }
}

impl ArithExpr {
    /// The text of the expression.
    pub fn to_text(&self) -> (r: String)
        ensures
            r@ == arith_text(self@),
    {
        let mut s = String::new();
        write_arith(&mut s, self);
        s
    }
}

impl Expr {
    /// The text of the expression.
    pub fn to_text(&self) -> (r: String)
        ensures
            r@ == expr_text(self@),
    {
        let mut s = String::new();
        write_expr(&mut s, self);
        s
    }
}

impl EufExpr {
    /// The text of the term.
    pub fn to_text(&self) -> (r: String)
        ensures
            r@ == euf_text(self@),
    {
        let mut s = String::new();
        write_euf(&mut s, self);
        s
    }
}

impl EnumExpr {
    /// The text of the expression.
    pub fn to_text(&self) -> (r: String)
        ensures
            r@ == enum_text(*self),
    {
        let mut s = String::new();
        write_enum(&mut s, self);
        s
    }
}

} // verus!
