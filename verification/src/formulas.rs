//! Translation of the Boolean terms of the input language into formulas:
//! `true`, `false` and declared names, the connectives `and`, `or`, `not`
//! and `=>`, comparisons of arithmetic terms, and equalities between
//! formulas or between arithmetic terms.
use crate::ast::{bools_model, lemma_bools_model, or_items, ArithExpr, BoolExpr, SBool, SExpr};
use crate::smt::{
    denotes, lemma_terms_model, scope_ok, scope_view, terms_model, translate_arith_term, translation, RArith, STerm,
    SmtTerm, TranslateError,
};
use crate::ast::SArith;
use crate::fraction::{lemma_add_eqv, lemma_eqv_refl, lemma_eqv_sym, lemma_eqv_trans, lemma_ops_wf, Ratio};
use crate::smt::{all_const, apply, lemma_div_eqv, lemma_div_wf, lemma_int_eqv, lemma_mul_eqv, lemma_neg_eqv, lookup, negated, product, translations};
use vstd::prelude::*;

verus! {

/// A translated formula, its arithmetic parts with exact constants.
pub enum RBool {
    True,
    False,
    Var(SBool),
    Not(Box<RBool>),
    And(Seq<RBool>),
    Or(Seq<RBool>),
    Implies(Box<RBool>, Box<RBool>),
    Lt(RArith, RArith),
    Le(RArith, RArith),
    Ge(RArith, RArith),
    Gt(RArith, RArith),
    EqBool(Box<RBool>, Box<RBool>),
    EqArith(RArith, RArith),
}

/// The formula bound to `name` in the scope, the first binding first.
pub open spec fn lookup_bool(sc: Seq<(Seq<char>, SBool)>, name: Seq<char>) -> Option<SBool>
    decreases sc.len(),
{
    if sc.len() == 0 {
        None
    } else if sc[0].0 == name {
        Some(sc[0].1)
    } else {
        lookup_bool(sc.drop_first(), name)
    }
}

/// The Boolean scope as names and formulas.
pub open spec fn bool_scope_view(vars: Seq<(String, BoolExpr)>) -> Seq<(Seq<char>, SBool)> {
    vars.map_values(|p: (String, BoolExpr)| (p.0@, p.1@))
}

/// Every name of the Boolean scope stands for a variable.
pub open spec fn bool_scope_ok(vars: Seq<(String, BoolExpr)>) -> bool {
    forall|i: int| 0 <= i < vars.len() ==> (#[trigger] vars[i]).1@ is Var
}

/// The names as character sequences.
pub open spec fn names_view(names: Seq<String>) -> Seq<Seq<char>> {
    names.map_values(|s: String| s@)
}

/// `t` is read as a formula: a truth value, a declared Boolean name, or an
/// application of a connective, a comparison or an equality.
pub open spec fn is_bool_term(bsc: Seq<(Seq<char>, SBool)>, t: STerm) -> bool {
    match t {
        STerm::Identifier(name) => name == "true"@ || name == "false"@ || lookup_bool(bsc, name) is Some,
        STerm::Application(op, _) => op == "and"@ || op == "or"@ || op == "not"@ || op == "=>"@ || op == "<="@ || op
            == ">="@ || op == "<"@ || op == ">"@ || op == "="@,
        _ => false,
    }
}

/// `t` is a term of an uninterpreted sort: a name of `eufs`, or one of them
/// applied.
pub open spec fn is_euf_term(eufs: Seq<Seq<char>>, t: STerm) -> bool {
    match t {
        STerm::Identifier(name) => eufs.contains(name),
        STerm::Application(f, _) => eufs.contains(f),
        _ => false,
    }
}

/// Both results, or the first error.
pub open spec fn both<A, B>(a: Result<A, TranslateError>, b: Result<B, TranslateError>) -> Result<
    (A, B),
    TranslateError,
> {
    match a {
        Err(e) => Err(e),
        Ok(x) => match b {
            Err(e) => Err(e),
            Ok(y) => Ok((x, y)),
        },
    }
}

/// The translation of the formula `t`, or the first error met (arguments
/// from the left).
pub open spec fn translation_bool(
    bsc: Seq<(Seq<char>, SBool)>,
    asc: Seq<(Seq<char>, crate::ast::SArith)>,
    eufs: Seq<Seq<char>>,
    t: STerm,
) -> Result<RBool, TranslateError>
    decreases t, 1int,
{
    match t {
        STerm::Identifier(name) => if name == "true"@ {
            Ok(RBool::True)
        } else if name == "false"@ {
            Ok(RBool::False)
        } else {
            match lookup_bool(bsc, name) {
                Some(v) => Ok(RBool::Var(v)),
                None => Err(TranslateError::Undeclared),
            }
        },
        STerm::Application(op, args) => if op == "and"@ || op == "or"@ {
            match translations_bool(bsc, asc, eufs, args) {
                Ok(xs) => if op == "and"@ {
                    Ok(RBool::And(xs))
                } else {
                    Ok(RBool::Or(xs))
                },
                Err(e) => Err(e),
            }
        } else if op == "not"@ {
            if args.len() == 0 {
                Err(TranslateError::Arity)
            } else {
                match translation_bool(bsc, asc, eufs, args[0]) {
                    Ok(x) => Ok(RBool::Not(Box::new(x))),
                    Err(e) => Err(e),
                }
            }
        } else if op == "=>"@ {
            if args.len() < 2 {
                Err(TranslateError::Arity)
            } else {
                match both(translation_bool(bsc, asc, eufs, args[0]), translation_bool(bsc, asc, eufs, args[1])) {
                    Ok(p) => Ok(RBool::Implies(Box::new(p.0), Box::new(p.1))),
                    Err(e) => Err(e),
                }
            }
        } else if op == "<="@ || op == ">="@ || op == "<"@ || op == ">"@ {
            if args.len() < 2 {
                Err(TranslateError::Arity)
            } else {
                match both(translation(asc, args[0]), translation(asc, args[1])) {
                    Ok(p) => if op == "<="@ {
                        Ok(RBool::Le(p.0, p.1))
                    } else if op == ">="@ {
                        Ok(RBool::Ge(p.0, p.1))
                    } else if op == "<"@ {
                        Ok(RBool::Lt(p.0, p.1))
                    } else {
                        Ok(RBool::Gt(p.0, p.1))
                    },
                    Err(e) => Err(e),
                }
            }
        } else if op == "="@ {
            if args.len() < 2 {
                Err(TranslateError::Arity)
            } else if is_bool_term(bsc, args[0]) {
                match both(translation_bool(bsc, asc, eufs, args[0]), translation_bool(bsc, asc, eufs, args[1])) {
                    Ok(p) => Ok(RBool::EqBool(Box::new(p.0), Box::new(p.1))),
                    Err(e) => Err(e),
                }
            } else if is_euf_term(eufs, args[0]) {
                Err(TranslateError::UninterpretedEquality)
            } else {
                match both(translation(asc, args[0]), translation(asc, args[1])) {
                    Ok(p) => Ok(RBool::EqArith(p.0, p.1)),
                    Err(e) => Err(e),
                }
            }
        } else {
            Err(TranslateError::UnsupportedOperator)
        },
        _ => Err(TranslateError::UnsupportedTerm),
    }
}

pub open spec fn translations_bool(
    bsc: Seq<(Seq<char>, SBool)>,
    asc: Seq<(Seq<char>, crate::ast::SArith)>,
    eufs: Seq<Seq<char>>,
    ts: Seq<STerm>,
) -> Result<Seq<RBool>, TranslateError>
    decreases ts, 0int,
{
    if ts.len() == 0 {
        Ok(Seq::empty())
    } else {
        match translations_bool(bsc, asc, eufs, ts.drop_last()) {
            Ok(xs) => match translation_bool(bsc, asc, eufs, ts.last()) {
                Ok(x) => Ok(xs.push(x)),
                Err(e) => Err(e),
            },
            Err(e) => Err(e),
        }
    }
}

/// `b` is the formula that `x` denotes: the same shape (an implication as
/// the disjunction of the negated premise with the disjuncts of the
/// conclusion), arithmetic parts denoting theirs.
pub open spec fn denotes_bool(b: SBool, x: RBool) -> bool
    decreases x,
{
    match x {
        RBool::True => b == SBool::True,
        RBool::False => b == SBool::False,
        RBool::Var(v) => b == v && v is Var,
        RBool::Not(a) => b is Not && denotes_bool(*b->Not_0, *a),
        RBool::And(xs) => b is And && b->And_0.len() == xs.len() && forall|i: int|
            0 <= i < xs.len() ==> denotes_bool(#[trigger] b->And_0[i], xs[i]),
        RBool::Or(xs) => b is Or && b->Or_0.len() == xs.len() && forall|i: int|
            0 <= i < xs.len() ==> denotes_bool(#[trigger] b->Or_0[i], xs[i]),
        RBool::Implies(a, c) => b is Or && b->Or_0.len() >= 1 && b->Or_0[0] is Not && denotes_bool(
            *b->Or_0[0]->Not_0,
            *a,
        ) && if *c is Or || *c is Implies {
            denotes_bool(SBool::Or(b->Or_0.drop_first()), *c)
        } else {
            b->Or_0.len() == 2 && denotes_bool(b->Or_0[1], *c)
        },
        RBool::Lt(p, q) => b is Lt && denotes(b->Lt_0, p) && denotes(b->Lt_1, q),
        RBool::Le(p, q) => b is Le && denotes(b->Le_0, p) && denotes(b->Le_1, q),
        RBool::Ge(p, q) => b is Ge && denotes(b->Ge_0, p) && denotes(b->Ge_1, q),
        RBool::Gt(p, q) => b is Gt && denotes(b->Gt_0, p) && denotes(b->Gt_1, q),
        RBool::EqBool(p, q) => b is Eq && *b->Eq_0 is Bool && *b->Eq_1 is Bool && denotes_bool(
            b->Eq_0->Bool_0,
            *p,
        ) && denotes_bool(b->Eq_1->Bool_0, *q),
        RBool::EqArith(p, q) => b is Eq && *b->Eq_0 is Arith && *b->Eq_1 is Arith && denotes(b->Eq_0->Arith_0, p)
            && denotes(b->Eq_1->Arith_0, q),
    }
}

/// An error in the translation of the first `j` arguments is the error of
/// the translation of them all.
proof fn lemma_translations_bool_prefix(
    bsc: Seq<(Seq<char>, SBool)>,
    asc: Seq<(Seq<char>, crate::ast::SArith)>,
    eufs: Seq<Seq<char>>,
    ts: Seq<STerm>,
    j: int,
)
    requires
        0 <= j <= ts.len(),
        translations_bool(bsc, asc, eufs, ts.take(j)) is Err,
    ensures
        translations_bool(bsc, asc, eufs, ts) == translations_bool(bsc, asc, eufs, ts.take(j)),
    decreases ts.len(),
{
    if j == ts.len() {
        assert(ts.take(j) =~= ts);
    } else {
        assert(ts.drop_last().take(j) =~= ts.take(j));
        lemma_translations_bool_prefix(bsc, asc, eufs, ts.drop_last(), j);
    }
}

/// The formula bound to `name`, the first binding first.
fn lookup_bool_var(vars: &Vec<(String, BoolExpr)>, name: &String) -> (r: Option<BoolExpr>)
    ensures
        r matches Some(e) ==> lookup_bool(bool_scope_view(vars@), name@) == Some(e@),
        r is None ==> lookup_bool(bool_scope_view(vars@), name@) is None,
{
    let ghost sv = bool_scope_view(vars@);
    let mut i: usize = 0;
    proof {
        assert(sv.subrange(0, sv.len() as int) =~= sv);
    }
    while i < vars.len()
        invariant
            i <= vars.len(),
            sv == bool_scope_view(vars@),
            sv.len() == vars.len(),
            lookup_bool(sv, name@) == lookup_bool(sv.subrange(i as int, sv.len() as int), name@),
        decreases vars.len() - i,
    {
        let ghost rest = sv.subrange(i as int, sv.len() as int);
        proof {
            assert(rest[0] == (vars@[i as int].0@, vars@[i as int].1@));
            assert(rest.drop_first() =~= sv.subrange(i + 1, sv.len() as int));
        }
        if vars[i].0 == *name {
            return Some(vars[i].1.dup());
        }
        i += 1;
    }
    None
}

/// Whether `name` is one of `names`.
fn has_name(names: &Vec<String>, name: &String) -> (r: bool)
    ensures
        r == names_view(names@).contains(name@),
{
    let ghost nv = names_view(names@);
    let mut i: usize = 0;
    while i < names.len()
        invariant
            i <= names.len(),
            nv == names_view(names@),
            nv.len() == names.len(),
            forall|k: int| 0 <= k < i ==> nv[k] != name@,
        decreases names.len() - i,
    {
        if names[i] == *name {
            assert(nv[i as int] == name@);
            return true;
        }
        i += 1;
    }
    false
}

/// Whether `op` is the operator written `lit`.
fn is_op(op: &String, lit: &str) -> (r: bool)
    ensures
        r == (op@ == lit@),
{
    let l: String = lit.to_owned();
    *op == l
}

/// Whether `t` is read as a formula.
fn bool_term(bools: &Vec<(String, BoolExpr)>, t: &SmtTerm) -> (r: bool)
    ensures
        r == is_bool_term(bool_scope_view(bools@), t@),
{
    match t {
        SmtTerm::Identifier(name) => is_op(name, "true") || is_op(name, "false") || lookup_bool_var(
            bools,
            name,
        ).is_some(),
        SmtTerm::Application(op, _) => is_op(op, "and") || is_op(op, "or") || is_op(op, "not") || is_op(op, "=>")
            || is_op(op, "<=") || is_op(op, ">=") || is_op(op, "<") || is_op(op, ">") || is_op(op, "="),
        _ => false,
    }
}

/// Whether `t` is a term of an uninterpreted sort.
fn euf_term(eufs: &Vec<String>, t: &SmtTerm) -> (r: bool)
    ensures
        r == is_euf_term(names_view(eufs@), t@),
{
    match t {
        SmtTerm::Identifier(name) => has_name(eufs, name),
        SmtTerm::Application(f, _) => has_name(eufs, f),
        _ => false,
    }
}

/// Translates formulas from the left; the first error stops.
fn translate_bool_args(
    bools: &Vec<(String, BoolExpr)>,
    ariths: &Vec<(String, ArithExpr)>,
    eufs: &Vec<String>,
    args: &Vec<SmtTerm>,
) -> (r: Result<Vec<BoolExpr>, TranslateError>)
    requires
        bool_scope_ok(bools@),
        scope_ok(ariths@),
    ensures
        r matches Ok(bs) ==> translations_bool(
            bool_scope_view(bools@),
            scope_view(ariths@),
            names_view(eufs@),
            terms_model(args@),
        ) matches Ok(xs) && bools_model(bs@).len() == xs.len() && forall|k: int|
            0 <= k < xs.len() ==> denotes_bool(#[trigger] bools_model(bs@)[k], xs[k]),
        r matches Err(err) ==> (err != TranslateError::Overflow ==> translations_bool(
            bool_scope_view(bools@),
            scope_view(ariths@),
            names_view(eufs@),
            terms_model(args@),
        ) == Err::<Seq<RBool>, TranslateError>(err)),
        translations_bool(bool_scope_view(bools@), scope_view(ariths@), names_view(eufs@), terms_model(args@)) matches Err(
            err,
        ) ==> r == Err::<Vec<BoolExpr>, TranslateError>(err) || r == Err::<Vec<BoolExpr>, TranslateError>(
            TranslateError::Overflow,
        ),
    decreases args, 0int,
{
    let ghost bsc = bool_scope_view(bools@);
    let ghost asc = scope_view(ariths@);
    let ghost nv = names_view(eufs@);
    let ghost tm = terms_model(args@);
    proof {
        lemma_terms_model(args@);
        assert(tm.take(0) =~= Seq::<STerm>::empty());
    }
    let mut out: Vec<BoolExpr> = Vec::new();
    let ghost mut xs: Seq<RBool> = Seq::empty();
    let mut i: usize = 0;
    while i < args.len()
        invariant
            i <= args.len(),
            bool_scope_ok(bools@),
            scope_ok(ariths@),
            bsc == bool_scope_view(bools@),
            asc == scope_view(ariths@),
            nv == names_view(eufs@),
            tm == terms_model(args@),
            tm.len() == args.len(),
            forall|k: int| 0 <= k < args.len() ==> #[trigger] tm[k] == args@[k]@,
            translations_bool(bsc, asc, nv, tm.take(i as int)) == Ok::<Seq<RBool>, TranslateError>(xs),
            out@.len() == i,
            xs.len() == i,
            forall|k: int| 0 <= k < i ==> denotes_bool((#[trigger] out@[k])@, xs[k]),
        decreases args.len() - i,
    {
        proof {
            vstd::std_specs::vec::axiom_vec_index_decreases(*args, i as int);
            let t1 = tm.take(i + 1);
            assert(t1.drop_last() =~= tm.take(i as int));
            assert(t1.last() == tm[i as int]);
        }
        match translate_bool_term(bools, ariths, eufs, &args[i]) {
            Ok(e) => {
                out.push(e);
                proof {
                    xs = xs.push(translation_bool(bsc, asc, nv, tm[i as int])->Ok_0);
                }
            },
            Err(err) => {
                proof {
                    if err != TranslateError::Overflow {
                        lemma_translations_bool_prefix(bsc, asc, nv, tm, i + 1);
                    }
                    if translations_bool(bsc, asc, nv, tm) is Err {
                        if translation_bool(bsc, asc, nv, tm[i as int]) is Err {
                            lemma_translations_bool_prefix(bsc, asc, nv, tm, i + 1);
                        }
                    }
                }
                return Err(err);
            },
        }
        i += 1;
    }
    proof {
        assert(tm.take(args.len() as int) =~= tm);
        lemma_bools_model(out@);
        assert forall|k: int| 0 <= k < xs.len() implies denotes_bool(#[trigger] bools_model(out@)[k], xs[k]) by {
            assert(bools_model(out@)[k] == out@[k]@);
        }
    }
    Ok(out)
}

/// `r`, the result of a translation, agrees with `t`, the translation with
/// exact constants: a formula denoting it, or its error, or an overflow of
/// 64-bit fractions.
pub open spec fn agrees(r: Result<BoolExpr, TranslateError>, t: Result<RBool, TranslateError>) -> bool {
    &&& r matches Ok(b) ==> t matches Ok(x) && denotes_bool(b@, x)
    &&& r matches Err(err) ==> (err != TranslateError::Overflow ==> t == Err::<RBool, TranslateError>(err))
    &&& t matches Err(err) ==> r == Err::<BoolExpr, TranslateError>(err) || r == Err::<BoolExpr, TranslateError>(
        TranslateError::Overflow,
    )
}

/// The translation of `op` applied to `args`.
pub open spec fn app_translation(
    bools: Seq<(String, BoolExpr)>,
    ariths: Seq<(String, ArithExpr)>,
    eufs: Seq<String>,
    op: Seq<char>,
    args: Seq<SmtTerm>,
) -> Result<RBool, TranslateError> {
    translation_bool(
        bool_scope_view(bools),
        scope_view(ariths),
        names_view(eufs),
        STerm::Application(op, terms_model(args)),
    )
}

fn translate_not(
    bools: &Vec<(String, BoolExpr)>,
    ariths: &Vec<(String, ArithExpr)>,
    eufs: &Vec<String>,
    op: &String,
    args: &Vec<SmtTerm>,
) -> (r: Result<BoolExpr, TranslateError>)
    requires
        bool_scope_ok(bools@),
        scope_ok(ariths@),
        !(op@ == "and"@ || op@ == "or"@),
        op@ == "not"@,
    ensures
        agrees(r, app_translation(bools@, ariths@, eufs@, op@, args@)),
    decreases args, 0int,
{
    proof {
        lemma_terms_model(args@);
    }
    if args.len() == 0 {
        return Err(TranslateError::Arity);
    }
    proof {
        vstd::std_specs::vec::axiom_vec_index_decreases(*args, 0);
    }
    let a = match translate_bool_term(bools, ariths, eufs, &args[0]) {
        Ok(a) => a,
        Err(err) => {
            return Err(err);
        },
    };
    Ok(BoolExpr::Not(Box::new(a)))
}

fn translate_implication(
    bools: &Vec<(String, BoolExpr)>,
    ariths: &Vec<(String, ArithExpr)>,
    eufs: &Vec<String>,
    op: &String,
    args: &Vec<SmtTerm>,
) -> (r: Result<BoolExpr, TranslateError>)
    requires
        bool_scope_ok(bools@),
        scope_ok(ariths@),
        !(op@ == "and"@ || op@ == "or"@),
        op@ != "not"@,
        op@ == "=>"@,
    ensures
        agrees(r, app_translation(bools@, ariths@, eufs@, op@, args@)),
    decreases args, 0int,
{
    let ghost bsc = bool_scope_view(bools@);
    let ghost asc = scope_view(ariths@);
    let ghost nv = names_view(eufs@);
    let ghost tm = terms_model(args@);
    proof {
        lemma_terms_model(args@);
    }
    if args.len() < 2 {
        return Err(TranslateError::Arity);
    }
    proof {
        vstd::std_specs::vec::axiom_vec_index_decreases(*args, 0);
        vstd::std_specs::vec::axiom_vec_index_decreases(*args, 1);
    }
    let a = match translate_bool_term(bools, ariths, eufs, &args[0]) {
        Ok(a) => a,
        Err(err) => {
            return Err(err);
        },
    };
    let c = match translate_bool_term(bools, ariths, eufs, &args[1]) {
        Ok(c) => c,
        Err(err) => {
            return Err(err);
        },
    };
    let ghost ga = a@;
    let ghost gc = c@;
    let r = BoolExpr::Not(Box::new(a)) | c;
    proof {
        let xa = translation_bool(bsc, asc, nv, tm[0])->Ok_0;
        let xc = translation_bool(bsc, asc, nv, tm[1])->Ok_0;
        assert(or_items(SBool::Not(Box::new(ga))) =~= seq![SBool::Not(Box::new(ga))]);
        assert(denotes_bool(ga, xa) && denotes_bool(gc, xc));
        assert(r@ == SBool::Or(or_items(SBool::Not(Box::new(ga))) + or_items(gc)));
        assert(r@ == SBool::Or(seq![SBool::Not(Box::new(ga))] + or_items(gc)));
        let ba = Box::new(xa);
        let bc = Box::new(xc);
        assert(denotes_bool(ga, *ba) && denotes_bool(gc, *bc));
        if gc is Or {
            assert(r@->Or_0.drop_first() =~= gc->Or_0);
            assert(*bc is Or || *bc is Implies);
        } else {
            assert(!(*bc is Or || *bc is Implies));
        }
        assert(denotes_bool(r@, RBool::Implies(ba, bc)));
    }
    Ok(r)
}

fn translate_comparison(
    ariths: &Vec<(String, ArithExpr)>,
    Ghost(bools): Ghost<Seq<(String, BoolExpr)>>,
    Ghost(eufs): Ghost<Seq<String>>,
    op: &String,
    args: &Vec<SmtTerm>,
) -> (r: Result<BoolExpr, TranslateError>)
    requires
        scope_ok(ariths@),
        !(op@ == "and"@ || op@ == "or"@),
        op@ != "not"@,
        op@ != "=>"@,
        op@ == "<="@ || op@ == ">="@ || op@ == "<"@ || op@ == ">"@,
    ensures
        agrees(r, app_translation(bools, ariths@, eufs, op@, args@)),
{
    proof {
        lemma_terms_model(args@);
    }
    if args.len() < 2 {
        return Err(TranslateError::Arity);
    }
    let p = match translate_arith_term(ariths, &args[0]) {
        Ok(p) => p,
        Err(err) => {
            return Err(err);
        },
    };
    let q = match translate_arith_term(ariths, &args[1]) {
        Ok(q) => q,
        Err(err) => {
            return Err(err);
        },
    };
    if is_op(op, "<=") {
        Ok(p.le(q))
    } else if is_op(op, ">=") {
        Ok(p.ge(q))
    } else if is_op(op, "<") {
        Ok(p.lt(q))
    } else {
        Ok(p.gt(q))
    }
}

fn translate_equality(
    bools: &Vec<(String, BoolExpr)>,
    ariths: &Vec<(String, ArithExpr)>,
    eufs: &Vec<String>,
    op: &String,
    args: &Vec<SmtTerm>,
) -> (r: Result<BoolExpr, TranslateError>)
    requires
        bool_scope_ok(bools@),
        scope_ok(ariths@),
        !(op@ == "and"@ || op@ == "or"@),
        op@ != "not"@,
        op@ != "=>"@,
        !(op@ == "<="@ || op@ == ">="@ || op@ == "<"@ || op@ == ">"@),
        op@ == "="@,
    ensures
        agrees(r, app_translation(bools@, ariths@, eufs@, op@, args@)),
    decreases args, 0int,
{
    proof {
        lemma_terms_model(args@);
    }
    if args.len() < 2 {
        return Err(TranslateError::Arity);
    }
    if bool_term(bools, &args[0]) {
        proof {
            vstd::std_specs::vec::axiom_vec_index_decreases(*args, 0);
            vstd::std_specs::vec::axiom_vec_index_decreases(*args, 1);
        }
        let a = match translate_bool_term(bools, ariths, eufs, &args[0]) {
            Ok(a) => a,
            Err(err) => {
                return Err(err);
            },
        };
        let c = match translate_bool_term(bools, ariths, eufs, &args[1]) {
            Ok(c) => c,
            Err(err) => {
                return Err(err);
            },
        };
        Ok(a.eq(&c))
    } else if euf_term(eufs, &args[0]) {
        Err(TranslateError::UninterpretedEquality)
    } else {
        let p = match translate_arith_term(ariths, &args[0]) {
            Ok(p) => p,
            Err(err) => {
                return Err(err);
            },
        };
        let q = match translate_arith_term(ariths, &args[1]) {
            Ok(q) => q,
            Err(err) => {
                return Err(err);
            },
        };
        Ok(p.eq(q))
    }
}

/// Translates a formula of the input language: Boolean names read in
/// `bools` (each bound to a variable), arithmetic names in `ariths` (each
/// bound to a variable), and `eufs` the names of uninterpreted constants and
/// functions, whose equalities are left to the solver that declares them.
pub fn translate_bool_term(
    bools: &Vec<(String, BoolExpr)>,
    ariths: &Vec<(String, ArithExpr)>,
    eufs: &Vec<String>,
    term: &SmtTerm,
) -> (r: Result<BoolExpr, TranslateError>)
    requires
        bool_scope_ok(bools@),
        scope_ok(ariths@),
    ensures
        agrees(r, translation_bool(bool_scope_view(bools@), scope_view(ariths@), names_view(eufs@), term@)),
    decreases term, 1int,
{
    match term {
        SmtTerm::Identifier(name) => {
            if is_op(name, "true") {
                return Ok(BoolExpr::True);
            }
            if is_op(name, "false") {
                return Ok(BoolExpr::False);
            }
            match lookup_bool_var(bools, name) {
                Some(b) => {
                    proof {
                        lemma_lookup_bool_var(bools@, name@);
                    }
                    Ok(b)
                },
                None => Err(TranslateError::Undeclared),
            }
        },
        SmtTerm::Application(op, args) => {
            if is_op(op, "and") || is_op(op, "or") {
                let bs = match translate_bool_args(bools, ariths, eufs, args) {
                    Ok(bs) => bs,
                    Err(err) => {
                        return Err(err);
                    },
                };
                proof {
                    lemma_bools_model(bs@);
                }
                if is_op(op, "and") {
                    Ok(BoolExpr::And(bs))
                } else {
                    Ok(BoolExpr::Or(bs))
                }
            } else if is_op(op, "not") {
                translate_not(bools, ariths, eufs, op, args)
            } else if is_op(op, "=>") {
                translate_implication(bools, ariths, eufs, op, args)
            } else if is_op(op, "<=") || is_op(op, ">=") || is_op(op, "<") || is_op(op, ">") {
                translate_comparison(ariths, Ghost(bools@), Ghost(eufs@), op, args)
            } else if is_op(op, "=") {
                translate_equality(bools, ariths, eufs, op, args)
            } else {
                Err(TranslateError::UnsupportedOperator)
            }
        },
        _ => Err(TranslateError::UnsupportedTerm),
    }
}

/// A name found in a scope of variables stands for a variable.
proof fn lemma_lookup_bool_var(vars: Seq<(String, BoolExpr)>, name: Seq<char>)
    requires
        bool_scope_ok(vars),
    ensures
        lookup_bool(bool_scope_view(vars), name) matches Some(v) ==> v is Var,
{
    let sc = bool_scope_view(vars);
    lemma_lookup_bool_in(sc, name);
    if lookup_bool(sc, name) is Some {
        let i = choose|i: int| 0 <= i < sc.len() && #[trigger] sc[i].1 == lookup_bool(sc, name)->Some_0;
        assert(sc[i].1 == vars[i].1@);
    }
}

proof fn lemma_lookup_bool_in(sc: Seq<(Seq<char>, SBool)>, name: Seq<char>)
    ensures
        lookup_bool(sc, name) matches Some(v) ==> exists|i: int| 0 <= i < sc.len() && #[trigger] sc[i].1 == v,
    decreases sc.len(),
{
    if sc.len() > 0 && sc[0].0 != name {
        lemma_lookup_bool_in(sc.drop_first(), name);
        if lookup_bool(sc, name) is Some {
            let i = choose|i: int| 0 <= i < sc.drop_first().len() && #[trigger] sc.drop_first()[i].1 == lookup_bool(sc, name)->Some_0;
            assert(sc[i + 1].1 == lookup_bool(sc, name)->Some_0);
        }
    } else if sc.len() > 0 {
        assert(sc[0].1 == lookup_bool(sc, name)->Some_0);
    }
}

/// The value of a translated arithmetic term when arithmetic variable `i`
/// has the value `vals[i]`.
pub open spec fn rvalue(x: RArith, vals: Seq<Ratio>) -> Ratio
    decreases x, 1int,
{
    match x {
        RArith::Const(c) => c,
        RArith::Var(v) => match v {
            SArith::IntVar(i) => vals[i.0 as int],
            SArith::RealVar(i) => vals[i.0 as int],
            _ => Ratio::zero(),
        },
        RArith::Add(xs) => rsum(xs, vals),
        RArith::Mul(xs) => rproduct(xs, vals),
        RArith::Div(a, b) => rvalue(*a, vals).div(rvalue(*b, vals)),
        RArith::Neg(a) => rvalue(*a, vals).neg(),
    }
}

pub open spec fn rsum(xs: Seq<RArith>, vals: Seq<Ratio>) -> Ratio
    decreases xs, 0int,
{
    if xs.len() == 0 {
        Ratio::zero()
    } else {
        rsum(xs.drop_last(), vals).add(rvalue(xs.last(), vals))
    }
}

pub open spec fn rproduct(xs: Seq<RArith>, vals: Seq<Ratio>) -> Ratio
    decreases xs, 0int,
{
    if xs.len() == 0 {
        Ratio::of_int(1)
    } else {
        rproduct(xs.drop_last(), vals).mul(rvalue(xs.last(), vals))
    }
}

/// The truth of a translated formula when Boolean variable `i` has the
/// value `bools[i]` and arithmetic variable `i` the value `vals[i]`.
pub open spec fn holds(x: RBool, bools: Seq<bool>, vals: Seq<Ratio>) -> bool
    decreases x, 1int,
{
    match x {
        RBool::True => true,
        RBool::False => false,
        RBool::Var(v) => match v {
            SBool::Var(b) => bools[b.0 as int],
            _ => false,
        },
        RBool::Not(a) => !holds(*a, bools, vals),
        RBool::And(xs) => all_hold(xs, bools, vals),
        RBool::Or(xs) => any_holds(xs, bools, vals),
        RBool::Implies(a, c) => !holds(*a, bools, vals) || holds(*c, bools, vals),
        RBool::Lt(p, q) => rvalue(p, vals).lt(rvalue(q, vals)),
        RBool::Le(p, q) => rvalue(p, vals).le(rvalue(q, vals)),
        RBool::Ge(p, q) => rvalue(q, vals).le(rvalue(p, vals)),
        RBool::Gt(p, q) => rvalue(q, vals).lt(rvalue(p, vals)),
        RBool::EqBool(a, c) => holds(*a, bools, vals) == holds(*c, bools, vals),
        RBool::EqArith(p, q) => rvalue(p, vals).eqv(rvalue(q, vals)),
    }
}

pub open spec fn all_hold(xs: Seq<RBool>, bools: Seq<bool>, vals: Seq<Ratio>) -> bool
    decreases xs, 0int,
{
    if xs.len() == 0 {
        true
    } else {
        all_hold(xs.drop_last(), bools, vals) && holds(xs.last(), bools, vals)
    }
}

pub open spec fn any_holds(xs: Seq<RBool>, bools: Seq<bool>, vals: Seq<Ratio>) -> bool
    decreases xs, 0int,
{
    if xs.len() == 0 {
        false
    } else {
        any_holds(xs.drop_last(), bools, vals) || holds(xs.last(), bools, vals)
    }
}

/// The value of the arithmetic term `t`: that of its translation.
pub open spec fn term_value(asc: Seq<(Seq<char>, SArith)>, t: STerm, vals: Seq<Ratio>) -> Ratio {
    rvalue(translation(asc, t)->Ok_0, vals)
}

/// The truth of the formula `t` of the input language: `and`, `or`, `not`
/// and `=>` are the connectives, `<`, `<=`, `>=` and `>` compare the values
/// of their two arithmetic arguments, and `=` compares truth values when its
/// first argument is a formula, else values.
pub open spec fn term_holds(
    bsc: Seq<(Seq<char>, SBool)>,
    asc: Seq<(Seq<char>, SArith)>,
    t: STerm,
    bools: Seq<bool>,
    vals: Seq<Ratio>,
) -> bool
    decreases t, 1int,
{
    match t {
        STerm::Identifier(name) => if name == "true"@ {
            true
        } else if name == "false"@ {
            false
        } else {
            match lookup_bool(bsc, name) {
                Some(SBool::Var(b)) => bools[b.0 as int],
                _ => false,
            }
        },
        STerm::Application(op, args) => if op == "and"@ {
            all_terms_hold(bsc, asc, args, bools, vals)
        } else if op == "or"@ {
            any_term_holds(bsc, asc, args, bools, vals)
        } else if op == "not"@ {
            args.len() > 0 && !term_holds(bsc, asc, args[0], bools, vals)
        } else if op == "=>"@ {
            args.len() > 1 && (!term_holds(bsc, asc, args[0], bools, vals) || term_holds(bsc, asc, args[1], bools, vals))
        } else if args.len() < 2 {
            false
        } else if op == "<"@ {
            term_value(asc, args[0], vals).lt(term_value(asc, args[1], vals))
        } else if op == "<="@ {
            term_value(asc, args[0], vals).le(term_value(asc, args[1], vals))
        } else if op == ">="@ {
            term_value(asc, args[1], vals).le(term_value(asc, args[0], vals))
        } else if op == ">"@ {
            term_value(asc, args[1], vals).lt(term_value(asc, args[0], vals))
        } else if op == "="@ {
            if is_bool_term(bsc, args[0]) {
                term_holds(bsc, asc, args[0], bools, vals) == term_holds(bsc, asc, args[1], bools, vals)
            } else {
                term_value(asc, args[0], vals).eqv(term_value(asc, args[1], vals))
            }
        } else {
            false
        },
        _ => false,
    }
}

pub open spec fn all_terms_hold(
    bsc: Seq<(Seq<char>, SBool)>,
    asc: Seq<(Seq<char>, SArith)>,
    ts: Seq<STerm>,
    bools: Seq<bool>,
    vals: Seq<Ratio>,
) -> bool
    decreases ts, 0int,
{
    if ts.len() == 0 {
        true
    } else {
        all_terms_hold(bsc, asc, ts.drop_last(), bools, vals) && term_holds(bsc, asc, ts.last(), bools, vals)
    }
}

pub open spec fn any_term_holds(
    bsc: Seq<(Seq<char>, SBool)>,
    asc: Seq<(Seq<char>, SArith)>,
    ts: Seq<STerm>,
    bools: Seq<bool>,
    vals: Seq<Ratio>,
) -> bool
    decreases ts, 0int,
{
    if ts.len() == 0 {
        false
    } else {
        any_term_holds(bsc, asc, ts.drop_last(), bools, vals) || term_holds(bsc, asc, ts.last(), bools, vals)
    }
}

/// The translation means what the formula says: whenever a formula of the
/// input language has a translation, under every assignment of the Boolean
/// and arithmetic variables the translation holds exactly when the formula
/// does. In particular `(> a b)` holds exactly when the value of `b` is below
/// that of `a`, and `(>= a b)` when it is not above.
pub proof fn law_translation_means(
    bsc: Seq<(Seq<char>, SBool)>,
    asc: Seq<(Seq<char>, SArith)>,
    eufs: Seq<Seq<char>>,
    t: STerm,
    bools: Seq<bool>,
    vals: Seq<Ratio>,
)
    requires
        translation_bool(bsc, asc, eufs, t) is Ok,
    ensures
        holds(translation_bool(bsc, asc, eufs, t)->Ok_0, bools, vals) == term_holds(bsc, asc, t, bools, vals),
    decreases t, 1int,
{
    match t {
        STerm::Application(op, args) => {
            lemma_comparison_words();
            if op == "and"@ || op == "or"@ {
                lemma_translations_mean(bsc, asc, eufs, args, bools, vals);
            } else if op == "not"@ {
                law_translation_means(bsc, asc, eufs, args[0], bools, vals);
            } else if op == "=>"@ {
                law_translation_means(bsc, asc, eufs, args[0], bools, vals);
                law_translation_means(bsc, asc, eufs, args[1], bools, vals);
            } else if op == "="@ {
                if is_bool_term(bsc, args[0]) {
                    law_translation_means(bsc, asc, eufs, args[0], bools, vals);
                    law_translation_means(bsc, asc, eufs, args[1], bools, vals);
                }
            }
        },
        _ => {},
    }
}

/// The comparison operators and `=` are distinct words.
proof fn lemma_comparison_words()
    ensures
        "<"@ != "<="@,
        "<"@ != ">="@,
        "<"@ != ">"@,
        "<"@ != "="@,
        "<="@ != ">="@,
        "<="@ != ">"@,
        "<="@ != "="@,
        ">="@ != ">"@,
        ">="@ != "="@,
        ">"@ != "="@,
{
    reveal_strlit("=");
    reveal_strlit("<=");
    reveal_strlit(">=");
    reveal_strlit("<");
    reveal_strlit(">");
    assert("<"@.len() == 1 && ">"@.len() == 1 && "="@.len() == 1);
    assert("<="@.len() == 2 && ">="@.len() == 2);
    assert("<"@[0] == '<' && ">"@[0] == '>' && "="@[0] == '=');
    assert("<="@[0] == '<' && ">="@[0] == '>');
}

proof fn lemma_translations_mean(
    bsc: Seq<(Seq<char>, SBool)>,
    asc: Seq<(Seq<char>, SArith)>,
    eufs: Seq<Seq<char>>,
    ts: Seq<STerm>,
    bools: Seq<bool>,
    vals: Seq<Ratio>,
)
    requires
        translations_bool(bsc, asc, eufs, ts) is Ok,
    ensures
        all_hold(translations_bool(bsc, asc, eufs, ts)->Ok_0, bools, vals) == all_terms_hold(bsc, asc, ts, bools, vals),
        any_holds(translations_bool(bsc, asc, eufs, ts)->Ok_0, bools, vals) == any_term_holds(bsc, asc, ts, bools, vals),
    decreases ts, 0int,
{
    if ts.len() > 0 {
        lemma_translations_mean(bsc, asc, eufs, ts.drop_last(), bools, vals);
        law_translation_means(bsc, asc, eufs, ts.last(), bools, vals);
        let xs = translations_bool(bsc, asc, eufs, ts)->Ok_0;
        let ys = translations_bool(bsc, asc, eufs, ts.drop_last())->Ok_0;
        assert(xs.drop_last() =~= ys);
    }
}

/// The sum of `ys`, from zero, left to right.
pub open spec fn sem_sum(ys: Seq<Ratio>) -> Ratio
    decreases ys.len(),
{
    if ys.len() == 0 {
        Ratio::zero()
    } else {
        sem_sum(ys.drop_last()).add(ys.last())
    }
}

/// The product of `ys`, from one, left to right.
pub open spec fn sem_product(ys: Seq<Ratio>) -> Ratio
    decreases ys.len(),
{
    if ys.len() == 0 {
        Ratio::of_int(1)
    } else {
        sem_product(ys.drop_last()).mul(ys.last())
    }
}

/// `ys[0] - ys[1] - ... - ys[n-1]`, from the left.
pub open spec fn sem_diff(ys: Seq<Ratio>) -> Ratio
    decreases ys.len(),
{
    if ys.len() <= 1 {
        ys[0]
    } else {
        sem_diff(ys.drop_last()).sub(ys.last())
    }
}

/// The value of `op` applied to values: `+` adds, `*` multiplies, `-`
/// negates one value and subtracts the others from the first, `/` divides by
/// a non-zero value, and `div` and `mod` are the Euclidean quotient and
/// remainder of integers, the divisor non-zero.
pub open spec fn sem_apply(op: Seq<char>, ys: Seq<Ratio>) -> Option<Ratio> {
    if op == "+"@ {
        Some(sem_sum(ys))
    } else if op == "*"@ {
        Some(sem_product(ys))
    } else if op == "-"@ {
        if ys.len() == 0 {
            None
        } else if ys.len() == 1 {
            Some(ys[0].neg())
        } else {
            Some(sem_diff(ys))
        }
    } else if op == "/"@ {
        if ys.len() == 2 && ys[1].num != 0 {
            Some(ys[0].div(ys[1]))
        } else {
            None
        }
    } else if op == "div"@ || op == "mod"@ {
        if ys.len() == 2 && ys[0].is_int() && ys[1].is_int() && ys[1].num != 0 {
            let a = ys[0].num / ys[0].den;
            let b = ys[1].num / ys[1].den;
            if op == "div"@ {
                Some(Ratio::of_int(a / b))
            } else {
                Some(Ratio::of_int(a % b))
            }
        } else {
            None
        }
    } else {
        None
    }
}

/// The value of the arithmetic term `t` of the input language when
/// arithmetic variable `i` has the value `vals[i]`, if it has one.
pub open spec fn term_sem(asc: Seq<(Seq<char>, SArith)>, t: STerm, vals: Seq<Ratio>) -> Option<Ratio>
    decreases t, 1int,
{
    match t {
        STerm::Constant(crate::smt::SmtConstant::Numeral(n)) => Some(Ratio::of_int(n as int)),
        STerm::Constant(crate::smt::SmtConstant::Decimal(n, d)) => if d == 0 {
            None
        } else {
            Some(Ratio { num: n as int, den: d as int })
        },
        STerm::Identifier(name) => match lookup(asc, name) {
            Some(SArith::IntVar(i)) => Some(vals[i.0 as int]),
            Some(SArith::RealVar(i)) => Some(vals[i.0 as int]),
            _ => None,
        },
        STerm::Application(op, args) => match term_sems(asc, args, vals) {
            Some(ys) => sem_apply(op, ys),
            None => None,
        },
        _ => None,
    }
}

pub open spec fn term_sems(asc: Seq<(Seq<char>, SArith)>, ts: Seq<STerm>, vals: Seq<Ratio>) -> Option<Seq<Ratio>>
    decreases ts, 0int,
{
    if ts.len() == 0 {
        Some(Seq::empty())
    } else {
        match (term_sems(asc, ts.drop_last(), vals), term_sem(asc, ts.last(), vals)) {
            (Some(ys), Some(y)) => Some(ys.push(y)),
            _ => None,
        }
    }
}

/// The scope binds variables whose values `vals` gives, all well-formed.
pub open spec fn scope_values_ok(asc: Seq<(Seq<char>, SArith)>, vals: Seq<Ratio>) -> bool {
    &&& forall|k: int| 0 <= k < asc.len() ==> match (#[trigger] asc[k]).1 {
        SArith::IntVar(i) => i.0 < vals.len(),
        SArith::RealVar(i) => i.0 < vals.len(),
        _ => false,
    }
    &&& forall|i: int| 0 <= i < vals.len() ==> (#[trigger] vals[i]).wf()
}

proof fn lemma_lookup_in(sc: Seq<(Seq<char>, SArith)>, name: Seq<char>)
    ensures
        lookup(sc, name) matches Some(v) ==> exists|k: int| 0 <= k < sc.len() && #[trigger] sc[k].1 == v,
    decreases sc.len(),
{
    if sc.len() > 0 && sc[0].0 != name {
        lemma_lookup_in(sc.drop_first(), name);
        if lookup(sc, name) is Some {
            let k = choose|k: int| 0 <= k < sc.drop_first().len() && #[trigger] sc.drop_first()[k].1 == lookup(sc, name)->Some_0;
            assert(sc[k + 1].1 == lookup(sc, name)->Some_0);
        }
    } else if sc.len() > 0 {
        assert(sc[0].1 == lookup(sc, name)->Some_0);
    }
}

/// Values equal item by item have equal sums and products.
proof fn lemma_fold_eqv(xs: Seq<RArith>, ys: Seq<Ratio>, vals: Seq<Ratio>)
    requires
        xs.len() == ys.len(),
        forall|i: int| 0 <= i < xs.len() ==> rvalue(#[trigger] xs[i], vals).eqv(ys[i]) && rvalue(xs[i], vals).wf()
            && ys[i].wf(),
    ensures
        rsum(xs, vals).eqv(sem_sum(ys)),
        rproduct(xs, vals).eqv(sem_product(ys)),
        rsum(xs, vals).wf(),
        rproduct(xs, vals).wf(),
        sem_sum(ys).wf(),
        sem_product(ys).wf(),
    decreases xs.len(),
{
    if xs.len() > 0 {
        let n = xs.len() - 1;
        assert forall|i: int| 0 <= i < xs.drop_last().len() implies rvalue(#[trigger] xs.drop_last()[i], vals).eqv(
            ys.drop_last()[i],
        ) && rvalue(xs.drop_last()[i], vals).wf() && ys.drop_last()[i].wf() by {
            assert(xs.drop_last()[i] == xs[i]);
            assert(ys.drop_last()[i] == ys[i]);
        }
        lemma_fold_eqv(xs.drop_last(), ys.drop_last(), vals);
        assert(rvalue(xs[n], vals).eqv(ys[n]));
        lemma_add_eqv(rsum(xs.drop_last(), vals), sem_sum(ys.drop_last()), rvalue(xs[n], vals), ys[n]);
        lemma_mul_eqv(rproduct(xs.drop_last(), vals), sem_product(ys.drop_last()), rvalue(xs[n], vals), ys[n]);
        lemma_ops_wf(rsum(xs.drop_last(), vals), rvalue(xs[n], vals));
        lemma_ops_wf(rproduct(xs.drop_last(), vals), rvalue(xs[n], vals));
        lemma_ops_wf(sem_sum(ys.drop_last()), ys[n]);
        lemma_ops_wf(sem_product(ys.drop_last()), ys[n]);
    } else {
        lemma_eqv_refl(Ratio::zero());
        lemma_eqv_refl(Ratio::of_int(1));
    }
}

/// The product of constants folded at translation is the product of their
/// values.
proof fn lemma_product_consts(xs: Seq<RArith>, vals: Seq<Ratio>)
    requires
        all_const(xs),
    ensures
        product(xs) == rproduct(xs, vals),
    decreases xs.len(),
{
    if xs.len() > 0 {
        assert(all_const(xs.drop_last())) by {
            assert forall|i: int| 0 <= i < xs.drop_last().len() implies #[trigger] xs.drop_last()[i] is Const by {
                assert(xs.drop_last()[i] == xs[i]);
            }
        }
        lemma_product_consts(xs.drop_last(), vals);
        assert(xs.last() == xs[xs.len() - 1]);
        assert(xs[xs.len() - 1] is Const);
        assert(rvalue(xs.last(), vals) == xs.last()->Const_0);
    }
}

/// A value negated at translation has the negated value.
proof fn lemma_negated_value(x: RArith, vals: Seq<Ratio>)
    ensures
        rvalue(negated(x), vals) == rvalue(x, vals).neg(),
{
}

/// The sum built for `x0 - x1 - ... ` has the value of the difference.
proof fn lemma_diff_value(xs: Seq<RArith>, ys: Seq<Ratio>, vals: Seq<Ratio>)
    requires
        xs.len() == ys.len(),
        xs.len() >= 1,
        forall|i: int| 0 <= i < xs.len() ==> rvalue(#[trigger] xs[i], vals).eqv(ys[i]) && rvalue(xs[i], vals).wf()
            && ys[i].wf(),
    ensures
        rsum(seq![xs[0]] + xs.drop_first().map_values(|x: RArith| negated(x)), vals).eqv(sem_diff(ys)),
        rsum(seq![xs[0]] + xs.drop_first().map_values(|x: RArith| negated(x)), vals).wf(),
        sem_diff(ys).wf(),
    decreases xs.len(),
{
    let zs = seq![xs[0]] + xs.drop_first().map_values(|x: RArith| negated(x));
    if xs.len() == 1 {
        assert(zs =~= seq![xs[0]]);
        assert(zs.drop_last() =~= Seq::<RArith>::empty());
        assert(zs.last() == xs[0]);
        assert(rsum(zs.drop_last(), vals) == Ratio::zero());
        lemma_ops_wf(Ratio::zero(), rvalue(xs[0], vals));
        assert(rsum(zs, vals) == Ratio::zero().add(rvalue(xs[0], vals)));
        assert(Ratio::zero().add(rvalue(xs[0], vals)).eqv(rvalue(xs[0], vals))) by (nonlinear_arith)
            requires
                rvalue(xs[0], vals).den > 0,
        ;
        lemma_eqv_trans(rsum(zs, vals), rvalue(xs[0], vals), ys[0]);
    } else {
        let n = xs.len() - 1;
        let xp = xs.drop_last();
        let yp = ys.drop_last();
        assert forall|i: int| 0 <= i < xp.len() implies rvalue(#[trigger] xp[i], vals).eqv(yp[i]) && rvalue(xp[i], vals).wf()
            && yp[i].wf() by {
            assert(xp[i] == xs[i]);
            assert(yp[i] == ys[i]);
        }
        lemma_diff_value(xp, yp, vals);
        let zp = seq![xp[0]] + xp.drop_first().map_values(|x: RArith| negated(x));
        assert(zs.drop_last() =~= zp);
        assert(zs.last() == negated(xs[n]));
        lemma_negated_value(xs[n], vals);
        assert(rvalue(xs[n], vals).eqv(ys[n]));
        lemma_neg_eqv(rvalue(xs[n], vals), ys[n]);
        lemma_add_eqv(rsum(zp, vals), sem_diff(yp), rvalue(xs[n], vals).neg(), ys[n].neg());
        lemma_ops_wf(rsum(zp, vals), rvalue(xs[n], vals));
        lemma_ops_wf(sem_diff(yp), ys[n]);
        lemma_ops_wf(rvalue(xs[n], vals), rvalue(xs[n], vals));
    }
}

/// The translation of an operator keeps values: applied to translated
/// arguments equal in value to `ys`, it has the value that the operator
/// gives to `ys`.
proof fn lemma_apply_means(op: Seq<char>, xs: Seq<RArith>, ys: Seq<Ratio>, vals: Seq<Ratio>)
    requires
        xs.len() == ys.len(),
        forall|i: int| 0 <= i < xs.len() ==> rvalue(#[trigger] xs[i], vals).eqv(ys[i]) && rvalue(xs[i], vals).wf()
            && ys[i].wf(),
        apply(op, xs) is Ok,
        sem_apply(op, ys) is Some,
    ensures
        rvalue(apply(op, xs)->Ok_0, vals).eqv(sem_apply(op, ys)->Some_0),
        rvalue(apply(op, xs)->Ok_0, vals).wf(),
        sem_apply(op, ys)->Some_0.wf(),
{
    lemma_fold_eqv(xs, ys, vals);
    if op == "+"@ {
    } else if op == "*"@ {
        if all_const(xs) {
            lemma_product_consts(xs, vals);
        }
    } else if op == "-"@ {
        if xs.len() == 1 {
            lemma_negated_value(xs[0], vals);
            lemma_neg_eqv(rvalue(xs[0], vals), ys[0]);
            lemma_ops_wf(rvalue(xs[0], vals), ys[0]);
            lemma_ops_wf(ys[0], ys[0]);
        } else {
            lemma_diff_value(xs, ys, vals);
        }
    } else if op == "/"@ {
        let ra = rvalue(xs[0], vals);
        let rb = rvalue(xs[1], vals);
        match (xs[0], xs[1]) {
            (RArith::Const(n), RArith::Const(d)) => {
                lemma_div_eqv(n, ys[0], d, ys[1]);
                lemma_div_wf(n, d);
                lemma_div_wf(ys[0], ys[1]);
            },
            _ => {
                lemma_div_eqv(ys[0], ra, ys[1], rb);
                lemma_eqv_sym(ys[0].div(ys[1]), ra.div(rb));
                lemma_div_wf(ra, rb);
                lemma_div_wf(ys[0], ys[1]);
            },
        }
    } else {
        let n = xs[0]->Const_0;
        let d = xs[1]->Const_0;
        lemma_int_eqv(n, ys[0]);
        lemma_int_eqv(d, ys[1]);
        lemma_eqv_refl(sem_apply(op, ys)->Some_0);
    }
}

/// The translation of an arithmetic term means what the term means: where
/// the term has a value, its translation has an equal value, under every
/// assignment of the arithmetic variables of the scope.
pub proof fn law_arith_translation_means(asc: Seq<(Seq<char>, SArith)>, t: STerm, vals: Seq<Ratio>)
    requires
        scope_values_ok(asc, vals),
        translation(asc, t) is Ok,
        term_sem(asc, t, vals) is Some,
    ensures
        rvalue(translation(asc, t)->Ok_0, vals).eqv(term_sem(asc, t, vals)->Some_0),
        rvalue(translation(asc, t)->Ok_0, vals).wf(),
        term_sem(asc, t, vals)->Some_0.wf(),
    decreases t, 1int,
{
    match t {
        STerm::Identifier(name) => {
            lemma_lookup_in(asc, name);
            let v = lookup(asc, name)->Some_0;
            let k = choose|k: int| 0 <= k < asc.len() && #[trigger] asc[k].1 == v;
            assert(match asc[k].1 {
                SArith::IntVar(i) => i.0 < vals.len(),
                SArith::RealVar(i) => i.0 < vals.len(),
                _ => false,
            });
            lemma_eqv_refl(term_sem(asc, t, vals)->Some_0);
        },
        STerm::Application(op, args) => {
            lemma_args_mean(asc, args, vals);
            lemma_apply_means(op, translations(asc, args)->Ok_0, term_sems(asc, args, vals)->Some_0, vals);
        },
        _ => {
            lemma_eqv_refl(term_sem(asc, t, vals)->Some_0);
        },
    }
}

proof fn lemma_args_mean(asc: Seq<(Seq<char>, SArith)>, ts: Seq<STerm>, vals: Seq<Ratio>)
    requires
        scope_values_ok(asc, vals),
        translations(asc, ts) is Ok,
        term_sems(asc, ts, vals) is Some,
    ensures
        translations(asc, ts)->Ok_0.len() == term_sems(asc, ts, vals)->Some_0.len(),
        forall|i: int|
            0 <= i < translations(asc, ts)->Ok_0.len() ==> rvalue(#[trigger] translations(asc, ts)->Ok_0[i], vals).eqv(
                term_sems(asc, ts, vals)->Some_0[i],
            ) && rvalue(translations(asc, ts)->Ok_0[i], vals).wf() && term_sems(asc, ts, vals)->Some_0[i].wf(),
    decreases ts, 0int,
{
    if ts.len() > 0 {
        lemma_args_mean(asc, ts.drop_last(), vals);
        law_arith_translation_means(asc, ts.last(), vals);
        let xs = translations(asc, ts)->Ok_0;
        let ys = term_sems(asc, ts, vals)->Some_0;
        let xp = translations(asc, ts.drop_last())->Ok_0;
        let yp = term_sems(asc, ts.drop_last(), vals)->Some_0;
        assert(xs == xp.push(translation(asc, ts.last())->Ok_0));
        assert(ys == yp.push(term_sem(asc, ts.last(), vals)->Some_0));
        assert forall|i: int| 0 <= i < xs.len() implies rvalue(#[trigger] xs[i], vals).eqv(ys[i]) && rvalue(xs[i], vals).wf()
            && ys[i].wf() by {
            if i < xp.len() {
                assert(xs[i] == xp[i]);
                assert(ys[i] == yp[i]);
            }
        }
    }
}

/// A comparison operator is no connective.
proof fn lemma_connective_words(op: Seq<char>)
    requires
        op == "<"@ || op == "<="@ || op == ">="@ || op == ">"@,
    ensures
        op != "and"@,
        op != "or"@,
        op != "not"@,
        op != "=>"@,
{
    reveal_strlit("and");
    reveal_strlit("or");
    reveal_strlit("not");
    reveal_strlit("=>");
    reveal_strlit("<");
    reveal_strlit("<=");
    reveal_strlit(">=");
    reveal_strlit(">");
    assert("and"@.len() == 3 && "not"@.len() == 3 && "or"@.len() == 2 && "=>"@.len() == 2);
    assert("<"@.len() == 1 && ">"@.len() == 1 && "<="@.len() == 2 && ">="@.len() == 2);
    assert("or"@[0] == 'o' && "=>"@[0] == '=' && "<="@[0] == '<' && ">="@[0] == '>');
}

/// A translated comparison compares the values of its two arguments:
/// `(< a b)` holds exactly when the value of `a` is below that of `b`,
/// `(<= a b)` when it is not above, `(>= a b)` when it is not below, and
/// `(> a b)` when it is above, under every assignment of the variables.
pub proof fn law_comparison_means(
    bsc: Seq<(Seq<char>, SBool)>,
    asc: Seq<(Seq<char>, SArith)>,
    eufs: Seq<Seq<char>>,
    op: Seq<char>,
    a: STerm,
    b: STerm,
    bools: Seq<bool>,
    vals: Seq<Ratio>,
)
    requires
        scope_values_ok(asc, vals),
        op == "<"@ || op == "<="@ || op == ">="@ || op == ">"@,
        translation_bool(bsc, asc, eufs, STerm::Application(op, seq![a, b])) is Ok,
        term_sem(asc, a, vals) is Some,
        term_sem(asc, b, vals) is Some,
    ensures
        ({
            let h = holds(translation_bool(bsc, asc, eufs, STerm::Application(op, seq![a, b]))->Ok_0, bools, vals);
            let va = term_sem(asc, a, vals)->Some_0;
            let vb = term_sem(asc, b, vals)->Some_0;
            &&& op == "<"@ ==> (h <==> va.lt(vb))
            &&& op == "<="@ ==> (h <==> va.le(vb))
            &&& op == ">="@ ==> (h <==> vb.le(va))
            &&& op == ">"@ ==> (h <==> vb.lt(va))
        }),
{
    let t = STerm::Application(op, seq![a, b]);
    let args = seq![a, b];
    lemma_comparison_words();
    lemma_connective_words(op);
    law_translation_means(bsc, asc, eufs, t, bools, vals);
    assert(args[0] == a && args[1] == b);
    assert(translation(asc, a) is Ok && translation(asc, b) is Ok);
    law_arith_translation_means(asc, a, vals);
    law_arith_translation_means(asc, b, vals);
    let ra = term_value(asc, a, vals);
    let rb = term_value(asc, b, vals);
    let va = term_sem(asc, a, vals)->Some_0;
    let vb = term_sem(asc, b, vals)->Some_0;
    crate::fraction::lemma_eqv_order(ra, va, rb);
    crate::fraction::lemma_eqv_order(rb, vb, va);
    crate::fraction::lemma_eqv_order(rb, vb, ra);
    crate::fraction::lemma_eqv_order(ra, va, vb);
}

} // verus!
