//! Asserting formulas: negations pushed inwards, conjunctions asserted true
//! (and disjunctions asserted false) split into their items, comparisons and
//! arithmetic equalities turned into bounds of the simplex tableau, and the
//! Boolean structure of the other leaves encoded into clauses.
use crate::ast::{BoolExpr, Expr, SArith, SBool, SExpr};
use crate::atoms::Comparison;
use crate::encode::{clauses_below, clauses_hold, encode_bool, extend, lit_holds, proxies, all_proxies, skeleton, all_skeleton, sk_eval};
use crate::fraction::Ratio;
use crate::linear::linear;
use crate::lit::Lit;
use crate::lra_theory::{LraError, LraTheory};
use crate::model::{vars_below, all_vars_below};
use vstd::prelude::*;

verus! {

/// What asserting formulas changes: the simplex tableau with its bounds,
/// the clauses, the first unused Boolean variable, and a literal kept true.
pub struct Engine {
    pub lra: LraTheory,
    pub clauses: Vec<Vec<Lit>>,
    pub next_var: usize,
    pub tru: Lit,
}

/// Why a formula could not be asserted.
#[derive(Clone, Copy, Debug, PartialEq, Eq, Structural)]
pub enum AssertError {
    /// A value did not fit in 64-bit fractions, or the variables ran out.
    Overflow,
    /// A leaf that is neither a comparison, an arithmetic equality asserted
    /// true, nor built from Boolean variables and connectives.
    Unsupported,
}

impl Engine {
    pub open spec fn wf(self) -> bool {
        self.lra.wf() && self.tru.var < self.next_var
    }
}

/// The leaves of `e` asserted with `polarity`, in order: a negation flips
/// the polarity, a conjunction asserted true (a disjunction asserted false)
/// gives the leaves of its items, and anything else is a leaf.
pub open spec fn leaves(e: SBool, polarity: bool) -> Seq<(SBool, bool)>
    decreases e, 1int,
{
    match e {
        SBool::Not(x) => leaves(*x, !polarity),
        SBool::And(ts) => if polarity {
            leaves_all(ts, polarity)
        } else {
            seq![(e, polarity)]
        },
        SBool::Or(ts) => if !polarity {
            leaves_all(ts, polarity)
        } else {
            seq![(e, polarity)]
        },
        _ => seq![(e, polarity)],
    }
}

pub open spec fn leaves_all(ts: Seq<SBool>, polarity: bool) -> Seq<(SBool, bool)>
    decreases ts, 0int,
{
    if ts.len() == 0 {
        Seq::empty()
    } else {
        leaves_all(ts.drop_last(), polarity) + leaves(ts.last(), polarity)
    }
}

/// The comparison that `e` is, if it is one.
pub open spec fn comparison_of(e: SBool) -> Option<(Comparison, SArith, SArith)> {
    match e {
        SBool::Lt(a, b) => Some((Comparison::Lt, a, b)),
        SBool::Le(a, b) => Some((Comparison::Le, a, b)),
        SBool::Ge(a, b) => Some((Comparison::Ge, a, b)),
        SBool::Gt(a, b) => Some((Comparison::Gt, a, b)),
        _ => None,
    }
}

/// The sides of `e` when it is an equality of arithmetic expressions.
pub open spec fn arith_eq_of(e: SBool) -> Option<(SArith, SArith)> {
    match e {
        SBool::Eq(a, b) => match (*a, *b) {
            (SExpr::Arith(x), SExpr::Arith(y)) => Some((x, y)),
            _ => None,
        },
        _ => None,
    }
}

/// Asserting `leaf` from `s` ended in `t`, answering `b`: a comparison, or
/// an arithmetic equality asserted true, bounds the tableau as
/// [`LraTheory::asserted`] and [`LraTheory::asserted_eq`] say; any other
/// leaf, built from Boolean variables and connectives, is encoded with fresh
/// variables into clauses appended after the old ones, which hold together
/// with the true literal only where the leaf has its polarity, and hold on
/// the extension of every assignment under which it has.
pub open spec fn step(s: Engine, t: Engine, leaf: (SBool, bool), b: bool) -> bool {
    let e = leaf.0;
    let pol = leaf.1;
    match comparison_of(e) {
        Some(atom) => t.clauses@ == s.clauses@ && t.next_var == s.next_var && t.tru == s.tru && exists|c: Ratio|
            c.wf() && #[trigger] c.eqv(s.lra.form_const(atom.1, atom.2)) && s.lra.asserted(
                t.lra,
                atom.0,
                pol,
                atom.1,
                atom.2,
                c,
                b,
            ),
        None => match arith_eq_of(e) {
            Some(sides) if pol => t.clauses@ == s.clauses@ && t.next_var == s.next_var && t.tru == s.tru && exists|
                c: Ratio,
            | c.wf() && #[trigger] c.eqv(s.lra.form_const(sides.0, sides.1)) && s.lra.asserted_eq(
                t.lra,
                sides.0,
                sides.1,
                c,
                b,
            ),
            _ => {
                let n0 = s.clauses@.len() as int;
                &&& b
                &&& t.lra == s.lra
                &&& t.tru == s.tru
                &&& t.next_var == s.next_var + proxies(e)
                &&& t.clauses@.len() > n0
                &&& forall|j: int| 0 <= j < n0 ==> #[trigger] t.clauses@[j] == s.clauses@[j]
                &&& clauses_below(t.clauses@, n0, t.next_var as nat)
                &&& forall|m: Seq<bool>|
                    #![trigger clauses_hold(m, t.clauses@, n0)]
                    m.len() >= t.next_var && lit_holds(m, t.tru) && clauses_hold(m, t.clauses@, n0) ==> sk_eval(e, m)
                        == pol
                &&& forall|m: Seq<bool>|
                    #![trigger extend(e, m)]
                    m.len() == s.next_var && lit_holds(m, t.tru) && sk_eval(e, m) == pol ==> clauses_hold(
                        extend(e, m),
                        t.clauses@,
                        n0,
                    )
            },
        },
    }
}

/// `st` runs through the leaves `ls`: each state is the one before with
/// the next leaf asserted; all leaves asserted when `b`, else the run stops
/// at the first leaf answered false.
pub open spec fn chain(st: Seq<Engine>, ls: Seq<(SBool, bool)>, b: bool) -> bool {
    &&& 1 <= st.len() <= ls.len() + 1
    &&& b ==> st.len() == ls.len() + 1
    &&& !b ==> st.len() >= 2
    &&& forall|i: int| 0 <= i < st.len() - 1 ==> step(#[trigger] st[i], st[i + 1], ls[i], b || i < st.len() - 2)
}

/// The comparisons and arithmetic equalities of the leaves are linear over
/// the arithmetic variables below `n`.
pub open spec fn atoms_ok(e: SBool, polarity: bool, n: nat) -> bool
    decreases e, 1int,
{
    match e {
        SBool::Not(x) => atoms_ok(*x, !polarity, n),
        SBool::And(ts) => polarity ==> atoms_ok_all(ts, polarity, n),
        SBool::Or(ts) => !polarity ==> atoms_ok_all(ts, polarity, n),
        _ => match comparison_of(e) {
            Some(atom) => linear(atom.1) && linear(atom.2) && vars_below(atom.1, n) && vars_below(atom.2, n),
            None => match arith_eq_of(e) {
                Some(sides) => polarity ==> linear(sides.0) && linear(sides.1) && vars_below(sides.0, n)
                    && vars_below(sides.1, n),
                None => true,
            },
        },
    }
}

pub open spec fn atoms_ok_all(ts: Seq<SBool>, polarity: bool, n: nat) -> bool
    decreases ts, 0int,
{
    if ts.len() == 0 {
        true
    } else {
        atoms_ok_all(ts.drop_last(), polarity, n) && atoms_ok(ts.last(), polarity, n)
    }
}

/// The leaf is a comparison, an arithmetic equality asserted true, or built
/// from constants, Boolean variables below `k` and connectives.
pub open spec fn leaf_supported(e: SBool, polarity: bool, k: nat) -> bool {
    comparison_of(e) is Some || (polarity && arith_eq_of(e) is Some) || skeleton(e, k)
}

/// Every leaf of `e` asserted with `polarity` is supported.
pub open spec fn supported(e: SBool, polarity: bool, k: nat) -> bool
    decreases e, 1int,
{
    match e {
        SBool::Not(x) => supported(*x, !polarity, k),
        SBool::And(ts) => if polarity {
            supported_all(ts, polarity, k)
        } else {
            leaf_supported(e, polarity, k)
        },
        SBool::Or(ts) => if !polarity {
            supported_all(ts, polarity, k)
        } else {
            leaf_supported(e, polarity, k)
        },
        _ => leaf_supported(e, polarity, k),
    }
}

pub open spec fn supported_all(ts: Seq<SBool>, polarity: bool, k: nat) -> bool
    decreases ts, 0int,
{
    if ts.len() == 0 {
        true
    } else {
        supported_all(ts.drop_last(), polarity, k) && supported(ts.last(), polarity, k)
    }
}

/// Every item of `ts` is supported, and its leaves' atoms are linear,
/// exactly when each of them is.
pub proof fn lemma_all_items(ts: Seq<SBool>, polarity: bool, k: nat, n: nat)
    ensures
        supported_all(ts, polarity, k) <==> forall|i: int| 0 <= i < ts.len() ==> supported(#[trigger] ts[i], polarity, k),
        atoms_ok_all(ts, polarity, n) <==> forall|i: int| 0 <= i < ts.len() ==> atoms_ok(#[trigger] ts[i], polarity, n),
    decreases ts.len(),
{
    if ts.len() > 0 {
        lemma_all_items(ts.drop_last(), polarity, k, n);
        assert forall|i: int| 0 <= i < ts.len() - 1 implies #[trigger] ts.drop_last()[i] == ts[i] by {}
        if forall|i: int| 0 <= i < ts.len() ==> supported(#[trigger] ts[i], polarity, k) {
            assert(supported(ts[ts.len() - 1], polarity, k));
            assert forall|i: int| 0 <= i < ts.drop_last().len() implies supported(#[trigger] ts.drop_last()[i], polarity, k) by {
                assert(supported(ts[i], polarity, k));
            }
        }
        if forall|i: int| 0 <= i < ts.len() ==> atoms_ok(#[trigger] ts[i], polarity, n) {
            assert(atoms_ok(ts[ts.len() - 1], polarity, n));
            assert forall|i: int| 0 <= i < ts.drop_last().len() implies atoms_ok(#[trigger] ts.drop_last()[i], polarity, n) by {
                assert(atoms_ok(ts[i], polarity, n));
            }
        }
        if supported_all(ts, polarity, k) {
            assert forall|i: int| 0 <= i < ts.len() implies supported(#[trigger] ts[i], polarity, k) by {
                if i < ts.len() - 1 {
                    assert(supported(ts.drop_last()[i], polarity, k));
                }
            }
        }
        if atoms_ok_all(ts, polarity, n) {
            assert forall|i: int| 0 <= i < ts.len() implies atoms_ok(#[trigger] ts[i], polarity, n) by {
                if i < ts.len() - 1 {
                    assert(atoms_ok(ts.drop_last()[i], polarity, n));
                }
            }
        }
    }
}

proof fn lemma_vars_below_grow(e: SArith, n: nat, n2: nat)
    requires
        vars_below(e, n),
        n <= n2,
    ensures
        vars_below(e, n2),
    decreases e, 1int,
{
    match e {
        SArith::Add(ts) => lemma_all_vars_below_grow(ts, n, n2),
        SArith::Mul(ts) => lemma_all_vars_below_grow(ts, n, n2),
        SArith::Div(a, b) => {
            lemma_vars_below_grow(*a, n, n2);
            lemma_vars_below_grow(*b, n, n2);
        },
        SArith::Neg(a) => lemma_vars_below_grow(*a, n, n2),
        _ => {},
    }
}

proof fn lemma_all_vars_below_grow(ts: Seq<SArith>, n: nat, n2: nat)
    requires
        all_vars_below(ts, n),
        n <= n2,
    ensures
        all_vars_below(ts, n2),
    decreases ts, 0int,
{
    if ts.len() > 0 {
        lemma_all_vars_below_grow(ts.drop_last(), n, n2);
        lemma_vars_below_grow(ts.last(), n, n2);
    }
}

/// Leaves run one after the other: a run through `a` that answered true,
/// followed by a run through `b`, is a run through both.
proof fn lemma_chain_concat(st1: Seq<Engine>, a: Seq<(SBool, bool)>, st2: Seq<Engine>, b: Seq<(SBool, bool)>, r: bool)
    requires
        chain(st1, a, true),
        chain(st2, b, r),
        st1.last() == st2[0],
    ensures
        chain(st1 + st2.drop_first(), a + b, r),
        (st1 + st2.drop_first())[0] == st1[0],
        (st1 + st2.drop_first()).last() == st2.last(),
{
    let st = st1 + st2.drop_first();
    let ls = a + b;
    assert forall|i: int| 0 <= i < st.len() - 1 implies step(#[trigger] st[i], st[i + 1], ls[i], r || i < st.len() - 2) by {
        if i < st1.len() - 1 {
            assert(st[i] == st1[i]);
            assert(st[i + 1] == st1[i + 1]);
            assert(ls[i] == a[i]);
            assert(step(st1[i], st1[i + 1], a[i], true || i < st1.len() - 2));
        } else {
            let j = i - (st1.len() - 1);
            assert(st[i] == st2[j]);
            assert(st[i + 1] == st2[j + 1]);
            assert(ls[i] == b[j]);
            assert(step(st2[j], st2[j + 1], b[j], r || j < st2.len() - 2));
        }
    }
}

/// A run that stopped within `a` is a run through `a` followed by anything.
proof fn lemma_chain_stop(st: Seq<Engine>, a: Seq<(SBool, bool)>, b: Seq<(SBool, bool)>)
    requires
        chain(st, a, false),
    ensures
        chain(st, a + b, false),
{
    assert forall|i: int| 0 <= i < st.len() - 1 implies step(#[trigger] st[i], st[i + 1], (a + b)[i], false || i < st.len() - 2) by {
        assert((a + b)[i] == a[i]);
    }
}

/// Whether `e` is built from constants, Boolean variables below `k` and
/// connectives.
fn is_skeleton(e: &BoolExpr, k: usize) -> (r: bool)
    ensures
        r == skeleton(e@, k as nat),
    decreases e, 1int,
{
    match e {
        BoolExpr::True => true,
        BoolExpr::False => true,
        BoolExpr::Var(v) => v.0 < k,
        BoolExpr::Not(x) => is_skeleton(x, k),
        BoolExpr::And(ts) => all_skeleton_exec(ts, k),
        BoolExpr::Or(ts) => all_skeleton_exec(ts, k),
        _ => false,
    }
}

fn all_skeleton_exec(ts: &Vec<BoolExpr>, k: usize) -> (r: bool)
    ensures
        r == all_skeleton(crate::ast::bools_model(ts@), k as nat),
    decreases ts, 0int,
{
    let ghost bm = crate::ast::bools_model(ts@);
    proof {
        crate::ast::lemma_bools_model(ts@);
        assert(bm.take(0) =~= Seq::<SBool>::empty());
    }
    let mut i: usize = 0;
    while i < ts.len()
        invariant
            i <= ts.len(),
            bm == crate::ast::bools_model(ts@),
            bm.len() == ts.len(),
            forall|j: int| 0 <= j < ts.len() ==> #[trigger] bm[j] == ts@[j]@,
            all_skeleton(bm.take(i as int), k as nat),
        decreases ts.len() - i,
    {
        proof {
            vstd::std_specs::vec::axiom_vec_index_decreases(*ts, i as int);
            assert(bm.take(i + 1).drop_last() =~= bm.take(i as int));
            assert(bm.take(i + 1).last() == bm[i as int]);
        }
        if !is_skeleton(&ts[i], k) {
            proof {
                if all_skeleton(bm, k as nat) {
                    crate::encode::lemma_all_skeleton(bm, k as nat, i as int);
                }
            }
            return false;
        }
        i += 1;
    }
    proof {
        assert(bm.take(ts.len() as int) =~= bm);
    }
    true
}

proof fn lemma_items(ts: Seq<BoolExpr>)
    ensures
        crate::ast::bools_model(ts).len() == ts.len(),
        forall|i: int| 0 <= i < ts.len() ==> #[trigger] crate::ast::bools_model(ts)[i] == ts[i]@,
{
    crate::ast::lemma_bools_model(ts);
    assert forall|i: int| 0 <= i < ts.len() implies #[trigger] crate::ast::bools_model(ts)[i] == ts[i]@ by {
        assert(crate::ast::bools_model(ts)[i] == ts[i].model());
    }
}

/// Whether every leaf of `e` asserted with `polarity` is supported.
#[verifier::rlimit(40)]
fn check_supported(e: &BoolExpr, polarity: bool, k: usize) -> (r: bool)
    ensures
        r == supported(e@, polarity, k as nat),
    decreases e,
{
    match e {
        BoolExpr::Not(x) => {
            assert(e@ == SBool::Not(Box::new(x@)));
            check_supported(x, !polarity, k)
        },
        BoolExpr::And(ts) => {
            proof {
                lemma_items(ts@);
            }
            assert(e@ == SBool::And(crate::ast::bools_model(ts@)));
            if polarity {
                check_all_supported(ts, polarity, k)
            } else {
                is_skeleton(e, k)
            }
        },
        BoolExpr::Or(ts) => {
            proof {
                lemma_items(ts@);
            }
            assert(e@ == SBool::Or(crate::ast::bools_model(ts@)));
            if !polarity {
                check_all_supported(ts, polarity, k)
            } else {
                is_skeleton(e, k)
            }
        },
        BoolExpr::Lt(_, _) | BoolExpr::Le(_, _) | BoolExpr::Ge(_, _) | BoolExpr::Gt(_, _) => true,
        BoolExpr::Eq(a, b) => {
            assert(e@ == SBool::Eq(Box::new(a@), Box::new(b@)));
            let arith = match (&**a, &**b) {
                (Expr::Arith(_), Expr::Arith(_)) => true,
                _ => false,
            };
            (polarity && arith) || is_skeleton(e, k)
        },
        _ => is_skeleton(e, k),
    }
}

fn check_all_supported(ts: &Vec<BoolExpr>, polarity: bool, k: usize) -> (r: bool)
    ensures
        r == supported_all(crate::ast::bools_model(ts@), polarity, k as nat),
    decreases ts,
{
    let ghost bm = crate::ast::bools_model(ts@);
    proof {
        lemma_items(ts@);
    }
    let mut i: usize = 0;
    while i < ts.len()
        invariant
            i <= ts.len(),
            bm == crate::ast::bools_model(ts@),
            bm.len() == ts.len(),
            forall|j: int| 0 <= j < ts.len() ==> #[trigger] bm[j] == ts@[j]@,
            forall|j: int| 0 <= j < i ==> supported(#[trigger] bm[j], polarity, k as nat),
        decreases ts.len() - i,
    {
        proof {
            vstd::std_specs::vec::axiom_vec_index_decreases(*ts, i as int);
        }
        let ok = check_supported(&ts[i], polarity, k);
        assert(bm[i as int] == ts@[i as int]@);
        if !ok {
            proof {
                lemma_all_items(bm, polarity, k as nat, 0);
            }
            return false;
        }
        i += 1;
    }
    proof {
        lemma_all_items(bm, polarity, k as nat, 0);
    }
    true
}

impl Engine {
    /// Asserts one leaf.
    fn assert_leaf(&mut self, e: &BoolExpr, polarity: bool, Ghost(n0): Ghost<nat>, Ghost(k0): Ghost<nat>) -> (r: Result<
        bool,
        AssertError,
    >)
        requires
            old(self).wf(),
            leaf_supported(e@, polarity, k0),
            atoms_ok(e@, polarity, n0),
            !(e@ is Not),
            !(e@ is And && polarity),
            !(e@ is Or && !polarity),
            n0 <= old(self).lra.num_vars(),
            k0 <= old(self).next_var,
            old(self).next_var + proxies(e@) <= usize::MAX,
        ensures
            final(self).wf(),
            final(self).lra.num_vars() >= old(self).lra.num_vars(),
            old(self).next_var <= final(self).next_var <= old(self).next_var + proxies(e@),
            r is Ok || r == Err::<bool, AssertError>(AssertError::Overflow),
            r matches Ok(b) ==> step(*old(self), *final(self), (e@, polarity), b),
    {
        let ghost s0 = *self;
        let op = match e {
            BoolExpr::Lt(_, _) => Some(Comparison::Lt),
            BoolExpr::Le(_, _) => Some(Comparison::Le),
            BoolExpr::Ge(_, _) => Some(Comparison::Ge),
            BoolExpr::Gt(_, _) => Some(Comparison::Gt),
            _ => None,
        };
        match e {
            BoolExpr::Lt(a, b) | BoolExpr::Le(a, b) | BoolExpr::Ge(a, b) | BoolExpr::Gt(a, b) => {
                if self.lra.num_vars_exec() == usize::MAX {
                    return Err(AssertError::Overflow);
                }
                proof {
                    lemma_vars_below_grow(a@, n0, self.lra.num_vars());
                    lemma_vars_below_grow(b@, n0, self.lra.num_vars());
                }
                match self.lra.assert_comparison(op.unwrap(), a, b, polarity) {
                    Ok(res) => {
                        return Ok(res);
                    },
                    Err(_) => {
                        return Err(AssertError::Overflow);
                    },
                }
            },
            _ => {},
        }
        if polarity {
            if let BoolExpr::Eq(x, y) = e {
                if let (Expr::Arith(a), Expr::Arith(b)) = (&**x, &**y) {
                    assert(e@ == SBool::Eq(Box::new(x@), Box::new(y@)));
                    assert(x@ == SExpr::Arith(a@));
                    assert(y@ == SExpr::Arith(b@));
                    if self.lra.num_vars_exec() == usize::MAX {
                        return Err(AssertError::Overflow);
                    }
                    proof {
                        lemma_vars_below_grow(a@, n0, self.lra.num_vars());
                        lemma_vars_below_grow(b@, n0, self.lra.num_vars());
                    }
                    match self.lra.assert_arith_eq(a, b) {
                        Ok(res) => {
                            return Ok(res);
                        },
                        Err(_) => {
                            return Err(AssertError::Overflow);
                        },
                    }
                }
            }
        }
        proof {
            crate::encode::lemma_skeleton_grow(e@, k0, self.next_var as nat);
        }
        let ghost n_before = self.clauses@.len() as int;
        let l = encode_bool(e, self.tru, &mut self.next_var, &mut self.clauses);
        let ghost mid = self.clauses@;
        let unit = if polarity {
            l
        } else {
            l.negate()
        };
        self.clauses.push(vec![unit]);
        proof {
            let t = *self;
            assert forall|j: int| 0 <= j < n_before implies #[trigger] t.clauses@[j] == s0.clauses@[j] by {
                assert(t.clauses@[j] == mid[j]);
            }
            assert forall|j: int, i: int| n_before <= j < t.clauses@.len() && 0 <= i < t.clauses@[j]@.len() implies #[trigger] t.clauses@[j]@[i].var < t.next_var by {
                if j < mid.len() {
                    assert(t.clauses@[j] == mid[j]);
                } else {
                    assert(t.clauses@[j]@ == seq![unit]);
                }
            }
            assert forall|m: Seq<bool>|
                m.len() >= t.next_var && lit_holds(m, t.tru) && clauses_hold(m, t.clauses@, n_before) implies sk_eval(e@, m) == polarity by {
                assert forall|j: int| n_before <= j < mid.len() implies #[trigger] crate::encode::clause_holds(m, mid[j]@) by {
                    assert(t.clauses@[j] == mid[j]);
                    assert(crate::encode::clause_holds(m, t.clauses@[j]@));
                }
                assert(clauses_hold(m, mid, n_before));
                let last = t.clauses@.len() - 1;
                assert(crate::encode::clause_holds(m, t.clauses@[last]@));
                assert(t.clauses@[last]@ == seq![unit]);
                assert(lit_holds(m, unit));
            }
            assert forall|m: Seq<bool>|
                m.len() == s0.next_var && lit_holds(m, t.tru) && sk_eval(e@, m) == polarity implies clauses_hold(#[trigger] extend(e@, m), t.clauses@, n_before) by {
                let m2 = extend(e@, m);
                assert(clauses_hold(m2, mid, n_before));
                assert(lit_holds(m2, l) == sk_eval(e@, m));
                assert forall|j: int| n_before <= j < t.clauses@.len() implies #[trigger] crate::encode::clause_holds(m2, t.clauses@[j]@) by {
                    if j < mid.len() {
                        assert(t.clauses@[j] == mid[j]);
                    } else {
                        assert(t.clauses@[j]@ == seq![unit]);
                        assert(lit_holds(m2, unit));
                        assert(lit_holds(m2, t.clauses@[j]@[0]));
                    }
                }
            }
        }
        Ok(true)
    }
}

impl Engine {
    fn assert_single(&mut self, e: &BoolExpr, polarity: bool, Ghost(n0): Ghost<nat>, Ghost(k0): Ghost<nat>) -> (r: Result<
        bool,
        AssertError,
    >)
        requires
            old(self).wf(),
            supported(e@, polarity, k0),
            atoms_ok(e@, polarity, n0),
            !(e@ is Not),
            !(e@ is And && polarity),
            !(e@ is Or && !polarity),
            n0 <= old(self).lra.num_vars(),
            k0 <= old(self).next_var,
            old(self).next_var + proxies(e@) <= usize::MAX,
        ensures
            final(self).wf(),
            final(self).lra.num_vars() >= old(self).lra.num_vars(),
            old(self).next_var <= final(self).next_var <= old(self).next_var + proxies(e@),
            r is Ok || r == Err::<bool, AssertError>(AssertError::Overflow),
            r == Ok::<bool, AssertError>(true) ==> chain(seq![*old(self), *final(self)], leaves(e@, polarity), true),
            r == Ok::<bool, AssertError>(false) ==> chain(seq![*old(self), *final(self)], leaves(e@, polarity), false),
    {
        let ghost s0 = *self;
        let r = self.assert_leaf(e, polarity, Ghost(n0), Ghost(k0));
        proof {
            if let Ok(b) = r {
                lemma_single(s0, *self, e@, polarity, b);
            }
        }
        r
    }

    #[verifier::rlimit(80)]
    fn assert_rec(&mut self, e: &BoolExpr, polarity: bool, Ghost(n0): Ghost<nat>, Ghost(k0): Ghost<nat>) -> (r: Result<
        bool,
        AssertError,
    >)
        requires
            old(self).wf(),
            supported(e@, polarity, k0),
            atoms_ok(e@, polarity, n0),
            n0 <= old(self).lra.num_vars(),
            k0 <= old(self).next_var,
            old(self).next_var + proxies(e@) <= usize::MAX,
        ensures
            final(self).wf(),
            final(self).lra.num_vars() >= old(self).lra.num_vars(),
            old(self).next_var <= final(self).next_var <= old(self).next_var + proxies(e@),
            r is Ok || r == Err::<bool, AssertError>(AssertError::Overflow),
            r == Ok::<bool, AssertError>(true) ==> exists|st: Seq<Engine>|
                #![trigger chain(st, leaves(e@, polarity), true)]
                chain(st, leaves(e@, polarity), true) && st[0] == *old(self) && st.last() == *final(self),
            r == Ok::<bool, AssertError>(false) ==> exists|st: Seq<Engine>|
                #![trigger chain(st, leaves(e@, polarity), false)]
                chain(st, leaves(e@, polarity), false) && st[0] == *old(self) && st.last() == *final(self),
        decreases e,
    {
        let ghost s0 = *self;
        match e {
            BoolExpr::Not(x) => {
                assert(e@ == SBool::Not(Box::new(x@)));
                let r = self.assert_rec(x, !polarity, Ghost(n0), Ghost(k0));
                assert(leaves(e@, polarity) == leaves(x@, !polarity));
                return r;
            },
            BoolExpr::And(ts) => {
                if polarity {
                    proof {
                        lemma_split(e@, ts@, polarity, n0, k0);
                    }
                    let r = self.assert_items(ts, polarity, Ghost(n0), Ghost(k0));
                    assert(leaves(e@, polarity) == leaves_all(crate::ast::bools_model(ts@), polarity));
                    return r;
                }
            },
            BoolExpr::Or(ts) => {
                if !polarity {
                    proof {
                        lemma_split(e@, ts@, polarity, n0, k0);
                    }
                    let r = self.assert_items(ts, polarity, Ghost(n0), Ghost(k0));
                    assert(leaves(e@, polarity) == leaves_all(crate::ast::bools_model(ts@), polarity));
                    return r;
                }
            },
            _ => {},
        }
        assert(!(e@ is Not));
        assert(!(e@ is And && polarity));
        assert(!(e@ is Or && !polarity));
        self.assert_single(e, polarity, Ghost(n0), Ghost(k0))
    }

    #[verifier::rlimit(80)]
    fn assert_items(&mut self, ts: &Vec<BoolExpr>, polarity: bool, Ghost(n0): Ghost<nat>, Ghost(k0): Ghost<nat>) -> (r: Result<
        bool,
        AssertError,
    >)
        requires
            old(self).wf(),
            forall|i: int| 0 <= i < ts@.len() ==> supported(#[trigger] ts@[i]@, polarity, k0),
            forall|i: int| 0 <= i < ts@.len() ==> atoms_ok(#[trigger] ts@[i]@, polarity, n0),
            n0 <= old(self).lra.num_vars(),
            k0 <= old(self).next_var,
            old(self).next_var + all_proxies(crate::ast::bools_model(ts@)) <= usize::MAX,
        ensures
            final(self).wf(),
            final(self).lra.num_vars() >= old(self).lra.num_vars(),
            old(self).next_var <= final(self).next_var <= old(self).next_var + all_proxies(crate::ast::bools_model(ts@)),
            r is Ok || r == Err::<bool, AssertError>(AssertError::Overflow),
            r == Ok::<bool, AssertError>(true) ==> exists|st: Seq<Engine>|
                #![trigger chain(st, leaves_all(crate::ast::bools_model(ts@), polarity), true)]
                chain(st, leaves_all(crate::ast::bools_model(ts@), polarity), true) && st[0] == *old(self)
                    && st.last() == *final(self),
            r == Ok::<bool, AssertError>(false) ==> exists|st: Seq<Engine>|
                #![trigger chain(st, leaves_all(crate::ast::bools_model(ts@), polarity), false)]
                chain(st, leaves_all(crate::ast::bools_model(ts@), polarity), false) && st[0] == *old(self)
                    && st.last() == *final(self),
        decreases ts,
    {
        let ghost s0 = *self;
        let ghost bm = crate::ast::bools_model(ts@);
        proof {
            crate::ast::lemma_bools_model(ts@);
            assert(bm.take(0) =~= Seq::<SBool>::empty());
            crate::encode::lemma_all_proxies_take(bm, 0);
        }
        let ghost mut st: Seq<Engine> = seq![s0];
        let mut i: usize = 0;
        while i < ts.len()
            invariant
                i <= ts.len(),
                bm == crate::ast::bools_model(ts@),
                bm.len() == ts.len(),
                forall|j: int| 0 <= j < ts.len() ==> #[trigger] bm[j] == ts@[j]@,
                forall|j: int| 0 <= j < ts@.len() ==> supported(#[trigger] ts@[j]@, polarity, k0),
                forall|j: int| 0 <= j < ts@.len() ==> atoms_ok(#[trigger] ts@[j]@, polarity, n0),
                self.wf(),
                s0 == *old(self),
                n0 <= s0.lra.num_vars() <= self.lra.num_vars(),
                k0 <= s0.next_var <= self.next_var,
                self.next_var <= s0.next_var + all_proxies(bm.take(i as int)),
                s0.next_var + all_proxies(bm) <= usize::MAX,
                chain(st, leaves_all(bm.take(i as int), polarity), true),
                st[0] == s0,
                st.last() == *self,
            decreases ts.len() - i,
        {
            proof {
                vstd::std_specs::vec::axiom_vec_index_decreases(*ts, i as int);
                crate::encode::lemma_all_proxies_take(bm, i + 1);
                crate::encode::lemma_all_proxies_take(bm, ts.len() as int);
                assert(bm.take(i + 1).drop_last() =~= bm.take(i as int));
                assert(bm.take(i + 1).last() == bm[i as int]);
            }
            let ghost before = *self;
            assert(bm[i as int] == ts@[i as int]@);
            let r = self.assert_rec(&ts[i], polarity, Ghost(n0), Ghost(k0));
            match r {
                Ok(b) => {
                    proof {
                        if b {
                            let st2 = choose|st2: Seq<Engine>|
                                #![trigger chain(st2, leaves(ts@[i as int]@, polarity), true)]
                                chain(st2, leaves(ts@[i as int]@, polarity), true) && st2[0] == before && st2.last() == *self;
                            lemma_run_item(st, st2, bm, i as int, polarity, true);
                            st = st + st2.drop_first();
                        } else {
                            let st2 = choose|st2: Seq<Engine>|
                                #![trigger chain(st2, leaves(ts@[i as int]@, polarity), false)]
                                chain(st2, leaves(ts@[i as int]@, polarity), false) && st2[0] == before && st2.last() == *self;
                            lemma_run_item(st, st2, bm, i as int, polarity, false);
                            st = st + st2.drop_first();
                        }
                    }
                    if !b {
                        assert(self.lra.num_vars() >= s0.lra.num_vars());
                        assert(self.next_var <= s0.next_var + all_proxies(bm));
                        proof {
                            lemma_leaves_prefix(bm, i + 1, polarity);
                            lemma_chain_stop(st, leaves_all(bm.take(i + 1), polarity), leaves_all(bm, polarity).subrange(
                                leaves_all(bm.take(i + 1), polarity).len() as int,
                                leaves_all(bm, polarity).len() as int,
                            ));
                            crate::encode::lemma_all_proxies_take(bm, i + 1);
                        }
                        return Ok(false);
                    }
                },
                Err(err) => {
                    return Err(err);
                },
            }
            i += 1;
        }
        proof {
            assert(bm.take(ts.len() as int) =~= bm);
            assert(chain(st, leaves_all(bm, polarity), true));
            assert(st[0] == *old(self));
            assert(st.last() == *self);
            assert(chain(st, leaves_all(crate::ast::bools_model(ts@), polarity), true));
            assert(exists|st2: Seq<Engine>|
                #![trigger chain(st2, leaves_all(crate::ast::bools_model(ts@), polarity), true)]
                chain(st2, leaves_all(crate::ast::bools_model(ts@), polarity), true) && st2[0] == *old(self) && st2.last() == *self);
        }
        Ok(true)
    }
}

proof fn lemma_run_item(st: Seq<Engine>, st2: Seq<Engine>, bm: Seq<SBool>, i: int, polarity: bool, b: bool)
    requires
        0 <= i < bm.len(),
        chain(st, leaves_all(bm.take(i), polarity), true),
        chain(st2, leaves(bm[i], polarity), b),
        st.last() == st2[0],
    ensures
        chain(st + st2.drop_first(), leaves_all(bm.take(i + 1), polarity), b),
        (st + st2.drop_first())[0] == st[0],
        (st + st2.drop_first()).last() == st2.last(),
{
    assert(bm.take(i + 1).drop_last() =~= bm.take(i));
    assert(bm.take(i + 1).last() == bm[i]);
    assert(leaves_all(bm.take(i + 1), polarity) == leaves_all(bm.take(i), polarity) + leaves(bm[i], polarity));
    lemma_chain_concat(st, leaves_all(bm.take(i), polarity), st2, leaves(bm[i], polarity), b);
}

proof fn lemma_split(e: SBool, ts: Seq<BoolExpr>, polarity: bool, n0: nat, k0: nat)
    requires
        supported(e, polarity, k0),
        atoms_ok(e, polarity, n0),
        (e == SBool::And(crate::ast::bools_model(ts)) && polarity) || (e == SBool::Or(crate::ast::bools_model(ts))
            && !polarity),
    ensures
        forall|i: int| 0 <= i < ts.len() ==> supported(#[trigger] ts[i]@, polarity, k0) && atoms_ok(ts[i]@, polarity, n0),
{
    lemma_items(ts);
    lemma_all_items(crate::ast::bools_model(ts), polarity, k0, n0);
    lemma_items_ok(ts, polarity, n0, k0);
}

proof fn lemma_items_ok(ts: Seq<BoolExpr>, polarity: bool, n0: nat, k0: nat)
    requires
        forall|i: int| 0 <= i < ts.len() ==> supported(#[trigger] crate::ast::bools_model(ts)[i], polarity, k0),
        forall|i: int| 0 <= i < ts.len() ==> atoms_ok(#[trigger] crate::ast::bools_model(ts)[i], polarity, n0),
    ensures
        forall|i: int| 0 <= i < ts.len() ==> supported(#[trigger] ts[i]@, polarity, k0) && atoms_ok(ts[i]@, polarity, n0),
{
    lemma_items(ts);
    assert forall|i: int| 0 <= i < ts.len() implies supported(#[trigger] ts[i]@, polarity, k0) && atoms_ok(ts[i]@, polarity, n0) by {
        assert(crate::ast::bools_model(ts)[i] == ts[i]@);
    }
}

proof fn lemma_single(s0: Engine, s1: Engine, e: SBool, polarity: bool, b: bool)
    requires
        step(s0, s1, (e, polarity), b),
        !(e is Not),
        !(e is And && polarity),
        !(e is Or && !polarity),
    ensures
        chain(seq![s0, s1], leaves(e, polarity), b),
{
    let st = seq![s0, s1];
    assert(leaves(e, polarity) == seq![(e, polarity)]);
    assert(step(st[0], st[1], leaves(e, polarity)[0], b || 0 < st.len() - 2));
}

/// The leaves of the first `i` items come first among those of them all.
proof fn lemma_leaves_prefix(ts: Seq<SBool>, i: int, polarity: bool)
    requires
        0 <= i <= ts.len(),
    ensures
        leaves_all(ts, polarity) == leaves_all(ts.take(i), polarity) + leaves_all(ts, polarity).subrange(
            leaves_all(ts.take(i), polarity).len() as int,
            leaves_all(ts, polarity).len() as int,
        ),
        leaves_all(ts.take(i), polarity).len() <= leaves_all(ts, polarity).len(),
    decreases ts.len(),
{
    if i == ts.len() {
        assert(ts.take(i) =~= ts);
        assert(leaves_all(ts, polarity).subrange(leaves_all(ts, polarity).len() as int, leaves_all(ts, polarity).len() as int) =~= Seq::<(SBool, bool)>::empty());
        assert(leaves_all(ts, polarity) =~= leaves_all(ts, polarity) + Seq::<(SBool, bool)>::empty());
    } else {
        lemma_leaves_prefix(ts.drop_last(), i, polarity);
        assert(ts.drop_last().take(i) =~= ts.take(i));
        let p = leaves_all(ts.take(i), polarity);
        let whole = leaves_all(ts, polarity);
        assert(whole == leaves_all(ts.drop_last(), polarity) + leaves(ts.last(), polarity));
        assert(whole =~= p + whole.subrange(p.len() as int, whole.len() as int));
    }
}

impl Engine {
    /// Asserts `e` (its negation when `polarity` is false) leaf by leaf:
    /// comparisons and arithmetic equalities asserted true become bounds,
    /// other leaves clauses. `Ok(false)` when a leaf is
    /// refused at once (a constant comparison that fails, or a bound that
    /// contradicts the opposite one); the leaves after it are not asserted.
    /// `Err(Unsupported)`, with nothing changed, exactly when a leaf is none
    /// of these.
    pub fn assert_expr(&mut self, e: &BoolExpr, polarity: bool) -> (r: Result<bool, AssertError>)
        requires
            old(self).wf(),
            atoms_ok(e@, polarity, old(self).lra.num_vars()),
            old(self).next_var + proxies(e@) <= usize::MAX,
        ensures
            final(self).wf(),
            r == Err::<bool, AssertError>(AssertError::Unsupported) <==> !supported(e@, polarity, old(self).next_var as nat),
            r == Err::<bool, AssertError>(AssertError::Unsupported) ==> *final(self) == *old(self),
            r == Ok::<bool, AssertError>(true) ==> exists|st: Seq<Engine>|
                #![trigger chain(st, leaves(e@, polarity), true)]
                chain(st, leaves(e@, polarity), true) && st[0] == *old(self) && st.last() == *final(self),
            r == Ok::<bool, AssertError>(false) ==> exists|st: Seq<Engine>|
                #![trigger chain(st, leaves(e@, polarity), false)]
                chain(st, leaves(e@, polarity), false) && st[0] == *old(self) && st.last() == *final(self),
    {
        if !check_supported(e, polarity, self.next_var) {
            return Err(AssertError::Unsupported);
        }
        let ghost n0 = self.lra.num_vars();
        let ghost k0 = self.next_var as nat;
        self.assert_rec(e, polarity, Ghost(n0), Ghost(k0))
    }
}

impl Engine {
    /// An engine with no arithmetic variable, and the clause that keeps its
    /// true literal, variable 0, true.
    pub fn new() -> (r: Engine)
        ensures
            r.wf(),
            r.lra.num_vars() == 0,
            r.next_var == 1,
            r.tru == (Lit { var: 0, sign: false }),
            r.clauses@.len() == 1,
            r.clauses@[0]@ == seq![r.tru],
    {
        let tru = Lit { var: 0, sign: false };
        let unit = vec![tru];
        let mut clauses: Vec<Vec<Lit>> = Vec::new();
        clauses.push(unit);
        Engine { lra: LraTheory::new(), clauses, next_var: 1, tru }
    }

    /// A fresh Boolean variable.
    pub fn new_bool_var(&mut self) -> (r: crate::ast::BoolVar)
        requires
            old(self).wf(),
            old(self).next_var < usize::MAX,
        ensures
            final(self).wf(),
            r.0 == old(self).next_var,
            final(self).next_var == old(self).next_var + 1,
            final(self).lra == old(self).lra,
            final(self).clauses == old(self).clauses,
            final(self).tru == old(self).tru,
    {
        let v = self.next_var;
        self.next_var = v + 1;
        crate::ast::BoolVar(v)
    }
}

/// Asserting a doubly negated formula asserts the formula: the same leaves
/// with the same polarities.
pub proof fn law_double_negation(e: SBool, polarity: bool)
    ensures
        leaves(SBool::Not(Box::new(SBool::Not(Box::new(e)))), polarity) == leaves(e, polarity),
{
    assert(leaves(SBool::Not(Box::new(SBool::Not(Box::new(e)))), polarity) == leaves(SBool::Not(Box::new(e)), !polarity));
    assert(leaves(SBool::Not(Box::new(e)), !polarity) == leaves(e, polarity));
}

/// Asserting a negated disjunction asserts the conjunction of the negated
/// items, and asserting a negated conjunction false asserts the disjunction
/// of the negated items false: the same leaves with the same polarities.
pub proof fn law_de_morgan(ts: Seq<SBool>)
    ensures
        leaves(SBool::Not(Box::new(SBool::Or(ts))), true) == leaves(
            SBool::And(ts.map_values(|t: SBool| SBool::Not(Box::new(t)))),
            true,
        ),
        leaves(SBool::Not(Box::new(SBool::And(ts))), false) == leaves(
            SBool::Or(ts.map_values(|t: SBool| SBool::Not(Box::new(t)))),
            false,
        ),
    decreases ts.len(),
{
    let ns = ts.map_values(|t: SBool| SBool::Not(Box::new(t)));
    lemma_negated_items(ts, true);
    lemma_negated_items(ts, false);
    assert(leaves(SBool::Not(Box::new(SBool::Or(ts))), true) == leaves(SBool::Or(ts), false));
    assert(leaves(SBool::Or(ts), false) == leaves_all(ts, false));
    assert(leaves(SBool::And(ns), true) == leaves_all(ns, true));
    assert(leaves(SBool::Not(Box::new(SBool::And(ts))), false) == leaves(SBool::And(ts), true));
    assert(leaves(SBool::And(ts), true) == leaves_all(ts, true));
    assert(leaves(SBool::Or(ns), false) == leaves_all(ns, false));
}

proof fn lemma_negated_items(ts: Seq<SBool>, polarity: bool)
    ensures
        leaves_all(ts, !polarity) == leaves_all(ts.map_values(|t: SBool| SBool::Not(Box::new(t))), polarity),
    decreases ts.len(),
{
    let ns = ts.map_values(|t: SBool| SBool::Not(Box::new(t)));
    if ts.len() > 0 {
        lemma_negated_items(ts.drop_last(), polarity);
        assert(ns.drop_last() =~= ts.drop_last().map_values(|t: SBool| SBool::Not(Box::new(t))));
        assert(ns.last() == SBool::Not(Box::new(ts.last())));
        assert(leaves(ns.last(), polarity) == leaves(ts.last(), !polarity));
    } else {
        assert(ns.len() == 0);
    }
}

/// Asserting the conjunction of `a` and `b` does what asserting `a` and then
/// `b` does: a run through the leaves of `a` that answered true, followed by
/// a run through those of `b`, is a run through the conjunction's.
pub proof fn law_conjunction_in_turn(st1: Seq<Engine>, st2: Seq<Engine>, a: SBool, b: SBool, r: bool)
    requires
        chain(st1, leaves(a, true), true),
        chain(st2, leaves(b, true), r),
        st1.last() == st2[0],
    ensures
        chain(st1 + st2.drop_first(), leaves(SBool::And(seq![a, b]), true), r),
        (st1 + st2.drop_first())[0] == st1[0],
        (st1 + st2.drop_first()).last() == st2.last(),
{
    let ts = seq![a, b];
    assert(ts.drop_last() =~= seq![a]);
    assert(seq![a].drop_last() =~= Seq::<SBool>::empty());
    assert(leaves_all(Seq::<SBool>::empty(), true) == Seq::<(SBool, bool)>::empty());
    assert(seq![a].last() == a);
    assert(ts.last() == b);
    assert(leaves_all(seq![a], true) == leaves_all(Seq::<SBool>::empty(), true) + leaves(a, true));
    assert(leaves_all(seq![a], true) =~= leaves(a, true));
    assert(leaves_all(ts, true) == leaves_all(seq![a], true) + leaves(b, true));
    assert(leaves(SBool::And(ts), true) == leaves_all(ts, true));
    assert(leaves(SBool::And(ts), true) =~= leaves(a, true) + leaves(b, true));
    lemma_chain_concat(st1, leaves(a, true), st2, leaves(b, true), r);
}

/// A run that a leaf stopped is not continued: when asserting `a` answered
/// false, asserting the conjunction of `a` and `b` answers false in the
/// same state.
pub proof fn law_conjunction_stops(st: Seq<Engine>, a: SBool, b: SBool)
    requires
        chain(st, leaves(a, true), false),
    ensures
        chain(st, leaves(SBool::And(seq![a, b]), true), false),
{
    let ts = seq![a, b];
    assert(ts.drop_last() =~= seq![a]);
    assert(seq![a].drop_last() =~= Seq::<SBool>::empty());
    assert(leaves_all(Seq::<SBool>::empty(), true) == Seq::<(SBool, bool)>::empty());
    assert(seq![a].last() == a);
    assert(ts.last() == b);
    assert(leaves_all(seq![a], true) == leaves_all(Seq::<SBool>::empty(), true) + leaves(a, true));
    assert(leaves_all(seq![a], true) =~= leaves(a, true));
    assert(leaves_all(ts, true) == leaves_all(seq![a], true) + leaves(b, true));
    assert(leaves(SBool::And(ts), true) == leaves_all(ts, true));
    assert(leaves(SBool::And(ts), true) =~= leaves(a, true) + leaves(b, true));
    lemma_chain_stop(st, leaves(a, true), leaves(b, true));
}

} // verus!
