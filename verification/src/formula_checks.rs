//! Asserting a formula of the input language: its translation, the checks
//! run before asserting it (that its comparisons are linear over known
//! variables, and how many fresh variables its encoding takes), and the
//! assertion itself.
use crate::ast::{ariths_model, bools_model, lemma_ariths_model, lemma_bools_model, ArithExpr, BoolExpr, Expr, SArith, SBool};
use crate::encode::{all_proxies, proxies};
use crate::engine::{atoms_ok, atoms_ok_all, chain, leaves, lemma_all_items, supported, AssertError, Engine};
use crate::formulas::{bool_scope_ok, bool_scope_view, denotes_bool, names_view, translate_bool_term, translation_bool, RBool};
use crate::smt::{scope_ok, scope_view, SmtTerm, TranslateError};
use crate::linear::{linear, linear_all};
use crate::model::{all_vars_below, lemma_all_below_elem, vars_below};
use vstd::prelude::*;

verus! {

proof fn lemma_linear_item(ts: Seq<SArith>, i: int)
    requires
        linear_all(ts),
        0 <= i < ts.len(),
    ensures
        linear(ts[i]),
    decreases ts.len(),
{
    if i < ts.len() - 1 {
        lemma_linear_item(ts.drop_last(), i);
    }
}

/// Whether `e` is linear.
pub fn is_linear(e: &ArithExpr) -> (r: bool)
    ensures
        r == linear(e@),
    decreases e, 1int,
{
    match e {
        ArithExpr::Const(_) => true,
        ArithExpr::IntVar(_) => true,
        ArithExpr::RealVar(_) => true,
        ArithExpr::Add(ts) => {
            assert(e@ == SArith::Add(ariths_model(ts@)));
            all_linear(ts)
        },
        ArithExpr::Mul(ts) => {
            assert(e@ == SArith::Mul(ariths_model(ts@)));
            proof {
                lemma_ariths_model(ts@);
            }
            if ts.len() != 2 {
                return false;
            }
            proof {
                vstd::std_specs::vec::axiom_vec_index_decreases(*ts, 0);
                vstd::std_specs::vec::axiom_vec_index_decreases(*ts, 1);
                assert(ariths_model(ts@)[0] == ts@[0]@);
                assert(ariths_model(ts@)[1] == ts@[1]@);
            }
            let first_const = match &ts[0] {
                ArithExpr::Const(_) => true,
                _ => false,
            };
            let second_const = match &ts[1] {
                ArithExpr::Const(_) => true,
                _ => false,
            };
            assert(first_const == (ts@[0]@ is Const));
            assert(second_const == (ts@[1]@ is Const));
            if first_const {
                is_linear(&ts[1])
            } else if second_const {
                is_linear(&ts[0])
            } else {
                false
            }
        },
        ArithExpr::Div(n, d) => {
            assert(e@ == SArith::Div(Box::new(n@), Box::new(d@)));
            match &**d {
                ArithExpr::Const(c) => {
                    assert(d@ == SArith::Const(*c));
                    c.numer() != 0 && is_linear(n)
                },
                _ => false,
            }
        },
        ArithExpr::Neg(x) => {
            assert(e@ == SArith::Neg(Box::new(x@)));
            is_linear(x)
        },
    }
}

fn all_linear(ts: &Vec<ArithExpr>) -> (r: bool)
    ensures
        r == linear_all(ariths_model(ts@)),
    decreases ts, 0int,
{
    let ghost am = ariths_model(ts@);
    proof {
        lemma_ariths_model(ts@);
        assert(am.take(0) =~= Seq::<SArith>::empty());
    }
    let mut i: usize = 0;
    while i < ts.len()
        invariant
            i <= ts.len(),
            am == ariths_model(ts@),
            am.len() == ts.len(),
            forall|j: int| 0 <= j < ts.len() ==> #[trigger] am[j] == ts@[j]@,
            linear_all(am.take(i as int)),
        decreases ts.len() - i,
    {
        proof {
            vstd::std_specs::vec::axiom_vec_index_decreases(*ts, i as int);
            assert(am.take(i + 1).drop_last() =~= am.take(i as int));
            assert(am.take(i + 1).last() == am[i as int]);
        }
        if !is_linear(&ts[i]) {
            proof {
                if linear_all(am) {
                    lemma_linear_item(am, i as int);
                }
            }
            return false;
        }
        i += 1;
    }
    proof {
        assert(am.take(ts.len() as int) =~= am);
    }
    true
}

/// Whether the variables of `e` are below `n`.
pub fn is_below(e: &ArithExpr, n: usize) -> (r: bool)
    ensures
        r == vars_below(e@, n as nat),
    decreases e, 1int,
{
    match e {
        ArithExpr::Const(_) => true,
        ArithExpr::IntVar(v) => v.0 < n,
        ArithExpr::RealVar(v) => v.0 < n,
        ArithExpr::Add(ts) => all_below(ts, n),
        ArithExpr::Mul(ts) => all_below(ts, n),
        ArithExpr::Div(a, b) => is_below(a, n) && is_below(b, n),
        ArithExpr::Neg(a) => is_below(a, n),
    }
}

fn all_below(ts: &Vec<ArithExpr>, n: usize) -> (r: bool)
    ensures
        r == all_vars_below(ariths_model(ts@), n as nat),
    decreases ts, 0int,
{
    let ghost am = ariths_model(ts@);
    proof {
        lemma_ariths_model(ts@);
        assert(am.take(0) =~= Seq::<SArith>::empty());
    }
    let mut i: usize = 0;
    while i < ts.len()
        invariant
            i <= ts.len(),
            am == ariths_model(ts@),
            am.len() == ts.len(),
            forall|j: int| 0 <= j < ts.len() ==> #[trigger] am[j] == ts@[j]@,
            all_vars_below(am.take(i as int), n as nat),
        decreases ts.len() - i,
    {
        proof {
            vstd::std_specs::vec::axiom_vec_index_decreases(*ts, i as int);
            assert(am.take(i + 1).drop_last() =~= am.take(i as int));
            assert(am.take(i + 1).last() == am[i as int]);
        }
        if !is_below(&ts[i], n) {
            proof {
                if all_vars_below(am, n as nat) {
                    lemma_all_below_elem(am, i as int, n as nat);
                }
            }
            return false;
        }
        i += 1;
    }
    proof {
        assert(am.take(ts.len() as int) =~= am);
    }
    true
}

fn linear_below(e: &ArithExpr, n: usize) -> (r: bool)
    ensures
        r == (linear(e@) && vars_below(e@, n as nat)),
{
    is_linear(e) && is_below(e, n)
}

/// Whether the comparisons and arithmetic equalities among the leaves of
/// `e` asserted with `polarity` are linear over the variables below `n`.
pub fn check_atoms(e: &BoolExpr, polarity: bool, n: usize) -> (r: bool)
    ensures
        r == atoms_ok(e@, polarity, n as nat),
    decreases e,
{
    match e {
        BoolExpr::Not(x) => {
            assert(e@ == SBool::Not(Box::new(x@)));
            check_atoms(x, !polarity, n)
        },
        BoolExpr::And(ts) => {
            assert(e@ == SBool::And(bools_model(ts@)));
            if polarity {
                check_all_atoms(ts, polarity, n)
            } else {
                true
            }
        },
        BoolExpr::Or(ts) => {
            assert(e@ == SBool::Or(bools_model(ts@)));
            if !polarity {
                check_all_atoms(ts, polarity, n)
            } else {
                true
            }
        },
        BoolExpr::Lt(a, b) => linear_below(a, n) && linear_below(b, n),
        BoolExpr::Le(a, b) => linear_below(a, n) && linear_below(b, n),
        BoolExpr::Ge(a, b) => linear_below(a, n) && linear_below(b, n),
        BoolExpr::Gt(a, b) => linear_below(a, n) && linear_below(b, n),
        BoolExpr::Eq(x, y) => {
            assert(e@ == SBool::Eq(Box::new(x@), Box::new(y@)));
            match (&**x, &**y) {
                (Expr::Arith(a), Expr::Arith(b)) => {
                    assert(x@ == crate::ast::SExpr::Arith(a@));
                    assert(y@ == crate::ast::SExpr::Arith(b@));
                    !polarity || (linear_below(a, n) && linear_below(b, n))
                },
                _ => true,
            }
        },
        _ => true,
    }
}

fn check_all_atoms(ts: &Vec<BoolExpr>, polarity: bool, n: usize) -> (r: bool)
    ensures
        r == atoms_ok_all(bools_model(ts@), polarity, n as nat),
    decreases ts,
{
    let ghost bm = bools_model(ts@);
    proof {
        lemma_bools_model(ts@);
        assert forall|j: int| 0 <= j < ts.len() implies #[trigger] bm[j] == ts@[j]@ by {
            assert(bm[j] == ts@[j].model());
        }
    }
    let mut i: usize = 0;
    while i < ts.len()
        invariant
            i <= ts.len(),
            bm == bools_model(ts@),
            bm.len() == ts.len(),
            forall|j: int| 0 <= j < ts.len() ==> #[trigger] bm[j] == ts@[j]@,
            forall|j: int| 0 <= j < i ==> atoms_ok(#[trigger] bm[j], polarity, n as nat),
        decreases ts.len() - i,
    {
        proof {
            vstd::std_specs::vec::axiom_vec_index_decreases(*ts, i as int);
        }
        let ok = check_atoms(&ts[i], polarity, n);
        assert(bm[i as int] == ts@[i as int]@);
        if !ok {
            proof {
                lemma_all_items(bm, polarity, 0, n as nat);
            }
            return false;
        }
        i += 1;
    }
    proof {
        lemma_all_items(bm, polarity, 0, n as nat);
    }
    true
}

/// The number of fresh variables that encoding `e` takes, when it fits.
pub fn count_proxies(e: &BoolExpr) -> (r: Option<usize>)
    ensures
        r matches Some(c) ==> c == proxies(e@),
        r is None ==> proxies(e@) > usize::MAX,
    decreases e, 1int,
{
    match e {
        BoolExpr::Not(x) => count_proxies(x),
        BoolExpr::And(ts) => match count_all_proxies(ts) {
            Some(c) => if c < usize::MAX {
                Some(c + 1)
            } else {
                None
            },
            None => None,
        },
        BoolExpr::Or(ts) => match count_all_proxies(ts) {
            Some(c) => if c < usize::MAX {
                Some(c + 1)
            } else {
                None
            },
            None => None,
        },
        _ => Some(0),
    }
}

fn count_all_proxies(ts: &Vec<BoolExpr>) -> (r: Option<usize>)
    ensures
        r matches Some(c) ==> c == all_proxies(bools_model(ts@)),
        r is None ==> all_proxies(bools_model(ts@)) > usize::MAX,
    decreases ts, 0int,
{
    let ghost bm = bools_model(ts@);
    proof {
        lemma_bools_model(ts@);
        assert(bm.take(0) =~= Seq::<SBool>::empty());
    }
    let mut total: usize = 0;
    let mut i: usize = 0;
    while i < ts.len()
        invariant
            i <= ts.len(),
            bm == bools_model(ts@),
            bm.len() == ts.len(),
            forall|j: int| 0 <= j < ts.len() ==> #[trigger] bm[j] == ts@[j].model(),
            total == all_proxies(bm.take(i as int)),
        decreases ts.len() - i,
    {
        proof {
            vstd::std_specs::vec::axiom_vec_index_decreases(*ts, i as int);
            crate::encode::lemma_all_proxies_take(bm, i + 1);
            crate::encode::lemma_all_proxies_take(bm, ts.len() as int);
            assert(bm.take(ts.len() as int) =~= bm);
        }
        match count_proxies(&ts[i]) {
            Some(c) => {
                if c > usize::MAX - total {
                    return None;
                }
                total = total + c;
            },
            None => {
                return None;
            },
        }
        i += 1;
    }
    proof {
        assert(bm.take(ts.len() as int) =~= bm);
    }
    Some(total)
}

/// Why a formula of the input language could not be asserted.
#[derive(Clone, Copy, Debug, PartialEq, Eq, Structural)]
pub enum TermError {
    /// The term has no translation.
    Translate(TranslateError),
    /// A comparison or arithmetic equality is not linear, or names an
    /// arithmetic variable that the tableau does not have.
    NonLinear,
    /// A leaf has no encoding (see [`AssertError::Unsupported`]).
    Unsupported,
    /// A value or a variable count does not fit.
    Overflow,
}

/// The translation of `term` in the scopes.
pub open spec fn term_translation(
    bools: Seq<(String, BoolExpr)>,
    ariths: Seq<(String, ArithExpr)>,
    eufs: Seq<String>,
    term: SmtTerm,
) -> Result<RBool, TranslateError> {
    translation_bool(bool_scope_view(bools), scope_view(ariths), names_view(eufs), term@)
}

/// The formula that `term` translates to was asserted from `e0` to `e1`,
/// answering `b`: a run through its leaves.
pub open spec fn term_asserted(
    e0: Engine,
    e1: Engine,
    bools: Seq<(String, BoolExpr)>,
    ariths: Seq<(String, ArithExpr)>,
    eufs: Seq<String>,
    term: SmtTerm,
    b: bool,
) -> bool {
    &&& term_translation(bools, ariths, eufs, term) is Ok
    &&& exists|f: SBool, st: Seq<Engine>|
        #![trigger denotes_bool(f, term_translation(bools, ariths, eufs, term)->Ok_0), chain(st, leaves(f, true), b)]
        denotes_bool(f, term_translation(bools, ariths, eufs, term)->Ok_0) && chain(st, leaves(f, true), b) && st[0]
            == e0 && st.last() == e1
}

/// Translates the formula `term`, names read in the scopes, and asserts it
/// in `engine`. On a translation error, a non-linear comparison or an
/// unsupported leaf nothing changes; otherwise the formula that the
/// translation denotes is asserted leaf by leaf, answering as
/// [`Engine::assert_expr`] does.
pub fn assert_term(
    engine: &mut Engine,
    bools: &Vec<(String, BoolExpr)>,
    ariths: &Vec<(String, ArithExpr)>,
    eufs: &Vec<String>,
    term: &SmtTerm,
) -> (r: Result<bool, TermError>)
    requires
        old(engine).wf(),
        bool_scope_ok(bools@),
        scope_ok(ariths@),
    ensures
        final(engine).wf(),
        r matches Err(TermError::Translate(err)) ==> *final(engine) == *old(engine) && (err
            != TranslateError::Overflow ==> term_translation(bools@, ariths@, eufs@, *term) == Err::<
            RBool,
            TranslateError,
        >(err)),
        term_translation(bools@, ariths@, eufs@, *term) matches Err(err) ==> r == Err::<bool, TermError>(
            TermError::Translate(err),
        ) || r == Err::<bool, TermError>(TermError::Translate(TranslateError::Overflow)),
        r == Err::<bool, TermError>(TermError::NonLinear) ==> *final(engine) == *old(engine) && exists|f: SBool|
            #![trigger denotes_bool(f, term_translation(bools@, ariths@, eufs@, *term)->Ok_0)]
            denotes_bool(f, term_translation(bools@, ariths@, eufs@, *term)->Ok_0) && !atoms_ok(
                f,
                true,
                old(engine).lra.num_vars(),
            ),
        r == Err::<bool, TermError>(TermError::Unsupported) ==> *final(engine) == *old(engine) && exists|f: SBool|
            #![trigger denotes_bool(f, term_translation(bools@, ariths@, eufs@, *term)->Ok_0)]
            denotes_bool(f, term_translation(bools@, ariths@, eufs@, *term)->Ok_0) && !supported(
                f,
                true,
                old(engine).next_var as nat,
            ),
        r == Ok::<bool, TermError>(true) ==> term_asserted(*old(engine), *final(engine), bools@, ariths@, eufs@, *term, true),
        r == Ok::<bool, TermError>(false) ==> term_asserted(*old(engine), *final(engine), bools@, ariths@, eufs@, *term, false),
{
    let f = match translate_bool_term(bools, ariths, eufs, term) {
        Ok(f) => f,
        Err(err) => {
            return Err(TermError::Translate(err));
        },
    };
    let ghost x = term_translation(bools@, ariths@, eufs@, *term)->Ok_0;
    assert(denotes_bool(f@, x));
    if !check_atoms(&f, true, engine.lra.num_vars_exec()) {
        return Err(TermError::NonLinear);
    }
    let c = match count_proxies(&f) {
        Some(c) => c,
        None => {
            return Err(TermError::Overflow);
        },
    };
    if c > usize::MAX - engine.next_var {
        return Err(TermError::Overflow);
    }
    match engine.assert_expr(&f, true) {
        Ok(b) => Ok(b),
        Err(AssertError::Unsupported) => Err(TermError::Unsupported),
        Err(AssertError::Overflow) => Err(TermError::Overflow),
    }
}

} // verus!
