//! Expressions accepted by the solver.
//!
//! Every expression type has a deep view (an `S…` type below) in which
//! vectors become sequences; contracts speak of these views. Boolean
//! formulas are given a meaning by [`eval`] under an [`Interp`], which reads
//! `a >= b` as `!(a < b)` and `a > b` as `!(a <= b)`.
use crate::fraction::Fraction;
use vstd::prelude::*;

verus! {

/// A Boolean variable.
#[derive(Debug, Clone, Copy, PartialEq, Eq, Hash)]
pub struct BoolVar(pub usize);

/// A finite-domain enum variable.
#[derive(Debug, Clone, Copy, PartialEq, Eq, Hash)]
pub struct EnumVar(pub usize);

/// An integer variable.
#[derive(Debug, Clone, Copy, PartialEq, Eq, Hash)]
pub struct IntVar(pub usize);

/// A real variable.
#[derive(Debug, Clone, Copy, PartialEq, Eq, Hash)]
pub struct RealVar(pub usize);

/// A difference-logic time point.
#[derive(Debug, Clone, Copy, PartialEq, Eq, Hash)]
pub struct DlVar(pub usize);

/// An uninterpreted function symbol.
#[derive(Debug, Clone, Copy, PartialEq, Eq, Hash)]
pub struct FuncId(pub usize);

/// A variable of an uninterpreted sort.
#[derive(Debug, Clone, Copy, PartialEq, Eq, Hash)]
pub struct EufVar(pub usize);

/// A typed expression that can be embedded in a generic equality.
#[derive(Debug, PartialEq, Eq, Hash)]
pub enum Expr {
    /// A Boolean expression.
    Bool(BoolExpr),
    /// A finite-domain enum expression.
    Enum(EnumExpr),
    /// An integer or real arithmetic expression.
    Arith(ArithExpr),
    /// An expression of an uninterpreted sort.
    Euf(EufExpr),
}

/// A Boolean formula accepted by the solver.
#[derive(Debug, PartialEq, Eq, Hash)]
pub enum BoolExpr {
    /// The constant `true`.
    True,
    /// The constant `false`.
    False,
    /// A Boolean variable.
    Var(BoolVar),
    /// Negation.
    Not(Box<BoolExpr>),
    /// Conjunction.
    And(Vec<BoolExpr>),
    /// Disjunction.
    Or(Vec<BoolExpr>),
    /// `a < b`.
    Lt(ArithExpr, ArithExpr),
    /// `a <= b`.
    Le(ArithExpr, ArithExpr),
    /// `a >= b`.
    Ge(ArithExpr, ArithExpr),
    /// `a > b`.
    Gt(ArithExpr, ArithExpr),
    /// Equality between expressions of the same theory.
    Eq(Box<Expr>, Box<Expr>),
    /// `to - from < bound`.
    DlLt(DlVar, DlVar, Fraction),
    /// `to - from <= bound`.
    DlLe(DlVar, DlVar, Fraction),
    /// `to - from == bound`.
    DlEq(DlVar, DlVar, Fraction),
    /// `to - from >= bound`.
    DlGe(DlVar, DlVar, Fraction),
    /// `to - from > bound`.
    DlGt(DlVar, DlVar, Fraction),
}

/// A finite-domain enum variable or integer constant.
#[derive(Debug, Clone, Copy, PartialEq, Eq, Hash)]
pub enum EnumExpr {
    /// An enum variable.
    Var(EnumVar),
    /// An enum constant.
    Const(i32),
}

/// An arithmetic expression over integer and real variables.
#[derive(Debug, PartialEq, Eq, Hash)]
pub enum ArithExpr {
    /// A rational constant.
    Const(Fraction),
    /// An integer variable.
    IntVar(IntVar),
    /// A real variable.
    RealVar(RealVar),
    /// A sum.
    Add(Vec<ArithExpr>),
    /// A product.
    Mul(Vec<ArithExpr>),
    /// A quotient.
    Div(Box<ArithExpr>, Box<ArithExpr>),
    /// A negation.
    Neg(Box<ArithExpr>),
}

/// A term of an uninterpreted sort.
#[derive(Debug, PartialEq, Eq, Hash)]
pub enum EufExpr {
    /// A variable.
    Var(EufVar),
    /// A function application.
    App(FuncId, Vec<Expr>),
}

/// Deep view of [`Expr`].
pub enum SExpr {
    Bool(SBool),
    Enum(EnumExpr),
    Arith(SArith),
    Euf(SEuf),
}

/// Deep view of [`BoolExpr`].
pub enum SBool {
    True,
    False,
    Var(BoolVar),
    Not(Box<SBool>),
    And(Seq<SBool>),
    Or(Seq<SBool>),
    Lt(SArith, SArith),
    Le(SArith, SArith),
    Ge(SArith, SArith),
    Gt(SArith, SArith),
    Eq(Box<SExpr>, Box<SExpr>),
    DlLt(DlVar, DlVar, Fraction),
    DlLe(DlVar, DlVar, Fraction),
    DlEq(DlVar, DlVar, Fraction),
    DlGe(DlVar, DlVar, Fraction),
    DlGt(DlVar, DlVar, Fraction),
}

/// Deep view of [`ArithExpr`].
pub enum SArith {
    Const(Fraction),
    IntVar(IntVar),
    RealVar(RealVar),
    Add(Seq<SArith>),
    Mul(Seq<SArith>),
    Div(Box<SArith>, Box<SArith>),
    Neg(Box<SArith>),
}

/// Deep view of [`EufExpr`].
pub enum SEuf {
    Var(EufVar),
    App(FuncId, Seq<SExpr>),
}

impl Expr {
    pub open spec fn model(&self) -> SExpr
        decreases self,
    {
        match self {
            Expr::Bool(b) => SExpr::Bool(b.model()),
            Expr::Enum(e) => SExpr::Enum(*e),
            Expr::Arith(a) => SExpr::Arith(a.model()),
            Expr::Euf(u) => SExpr::Euf(u.model()),
        }
    }
}

impl BoolExpr {
    pub open spec fn model(&self) -> SBool
        decreases self,
    {
        match self {
            BoolExpr::True => SBool::True,
            BoolExpr::False => SBool::False,
            BoolExpr::Var(v) => SBool::Var(*v),
            BoolExpr::Not(x) => SBool::Not(Box::new(x.model())),
            BoolExpr::And(v) => SBool::And(bools_model(v@)),
            BoolExpr::Or(v) => SBool::Or(bools_model(v@)),
            BoolExpr::Lt(a, b) => SBool::Lt(a.model(), b.model()),
            BoolExpr::Le(a, b) => SBool::Le(a.model(), b.model()),
            BoolExpr::Ge(a, b) => SBool::Ge(a.model(), b.model()),
            BoolExpr::Gt(a, b) => SBool::Gt(a.model(), b.model()),
            BoolExpr::Eq(a, b) => SBool::Eq(Box::new(a.model()), Box::new(b.model())),
            BoolExpr::DlLt(f, t, c) => SBool::DlLt(*f, *t, *c),
            BoolExpr::DlLe(f, t, c) => SBool::DlLe(*f, *t, *c),
            BoolExpr::DlEq(f, t, c) => SBool::DlEq(*f, *t, *c),
            BoolExpr::DlGe(f, t, c) => SBool::DlGe(*f, *t, *c),
            BoolExpr::DlGt(f, t, c) => SBool::DlGt(*f, *t, *c),
        }
    }
}

impl ArithExpr {
    pub open spec fn model(&self) -> SArith
        decreases self,
    {
        match self {
            ArithExpr::Const(c) => SArith::Const(*c),
            ArithExpr::IntVar(v) => SArith::IntVar(*v),
            ArithExpr::RealVar(v) => SArith::RealVar(*v),
            ArithExpr::Add(v) => SArith::Add(ariths_model(v@)),
            ArithExpr::Mul(v) => SArith::Mul(ariths_model(v@)),
            ArithExpr::Div(a, b) => SArith::Div(Box::new(a.model()), Box::new(b.model())),
            ArithExpr::Neg(a) => SArith::Neg(Box::new(a.model())),
        }
    }
}

impl EufExpr {
    pub open spec fn model(&self) -> SEuf
        decreases self,
    {
        match self {
            EufExpr::Var(v) => SEuf::Var(*v),
            EufExpr::App(f, v) => SEuf::App(*f, exprs_model(v@)),
        }
    }
}

pub open spec fn bools_model(v: Seq<BoolExpr>) -> Seq<SBool>
    decreases v,
{
    if v.len() == 0 {
        Seq::empty()
    } else {
        seq![v[0].model()] + bools_model(v.drop_first())
    }
}

pub open spec fn ariths_model(v: Seq<ArithExpr>) -> Seq<SArith>
    decreases v,
{
    if v.len() == 0 {
        Seq::empty()
    } else {
        seq![v[0].model()] + ariths_model(v.drop_first())
    }
}

pub open spec fn exprs_model(v: Seq<Expr>) -> Seq<SExpr>
    decreases v,
{
    if v.len() == 0 {
        Seq::empty()
    } else {
        seq![v[0].model()] + exprs_model(v.drop_first())
    }
}

impl View for Expr {
    type V = SExpr;

    open spec fn view(&self) -> SExpr {
        self.model()
    }
}

impl View for BoolExpr {
    type V = SBool;

    open spec fn view(&self) -> SBool {
        self.model()
    }
}

impl View for ArithExpr {
    type V = SArith;

    open spec fn view(&self) -> SArith {
        self.model()
    }
}

impl View for EufExpr {
    type V = SEuf;

    open spec fn view(&self) -> SEuf {
        self.model()
    }
}

/// The models of a sequence of formulas, element by element.
pub proof fn lemma_bools_model(v: Seq<BoolExpr>)
    ensures
        bools_model(v).len() == v.len(),
        forall|i: int| 0 <= i < v.len() ==> #[trigger] bools_model(v)[i] == v[i].model(),
    decreases v.len(),
{
    if v.len() > 0 {
        lemma_bools_model(v.drop_first());
    }
}

pub proof fn lemma_ariths_model(v: Seq<ArithExpr>)
    ensures
        ariths_model(v).len() == v.len(),
        forall|i: int| 0 <= i < v.len() ==> #[trigger] ariths_model(v)[i] == v[i].model(),
    decreases v.len(),
{
    if v.len() > 0 {
        lemma_ariths_model(v.drop_first());
    }
}

pub proof fn lemma_exprs_model(v: Seq<Expr>)
    ensures
        exprs_model(v).len() == v.len(),
        forall|i: int| 0 <= i < v.len() ==> #[trigger] exprs_model(v)[i] == v[i].model(),
    decreases v.len(),
{
    if v.len() > 0 {
        lemma_exprs_model(v.drop_first());
    }
}

impl Expr {
    /// A copy with the same view.
    pub fn dup(&self) -> (r: Expr)
        ensures
            r@ == self@,
        decreases self, 1int,
    {
        match self {
            Expr::Bool(b) => Expr::Bool(b.dup()),
            Expr::Enum(e) => Expr::Enum(*e),
            Expr::Arith(a) => Expr::Arith(a.dup()),
            Expr::Euf(u) => Expr::Euf(u.dup()),
        }
    }
}

impl BoolExpr {
    /// A copy with the same view.
    pub fn dup(&self) -> (r: BoolExpr)
        ensures
            r@ == self@,
        decreases self, 1int,
    {
        match self {
            BoolExpr::True => BoolExpr::True,
            BoolExpr::False => BoolExpr::False,
            BoolExpr::Var(v) => BoolExpr::Var(*v),
            BoolExpr::Not(x) => BoolExpr::Not(Box::new(x.dup())),
            BoolExpr::And(v) => {
                let w = dup_bools(v);
                proof {
                    lemma_bools_model(w@);
                    lemma_bools_model(v@);
                    assert(bools_model(w@) =~= bools_model(v@));
                }
                BoolExpr::And(w)
            },
            BoolExpr::Or(v) => {
                let w = dup_bools(v);
                proof {
                    lemma_bools_model(w@);
                    lemma_bools_model(v@);
                    assert(bools_model(w@) =~= bools_model(v@));
                }
                BoolExpr::Or(w)
            },
            BoolExpr::Lt(a, b) => BoolExpr::Lt(a.dup(), b.dup()),
            BoolExpr::Le(a, b) => BoolExpr::Le(a.dup(), b.dup()),
            BoolExpr::Ge(a, b) => BoolExpr::Ge(a.dup(), b.dup()),
            BoolExpr::Gt(a, b) => BoolExpr::Gt(a.dup(), b.dup()),
            BoolExpr::Eq(a, b) => BoolExpr::Eq(Box::new(a.dup()), Box::new(b.dup())),
            BoolExpr::DlLt(f, t, c) => BoolExpr::DlLt(*f, *t, *c),
            BoolExpr::DlLe(f, t, c) => BoolExpr::DlLe(*f, *t, *c),
            BoolExpr::DlEq(f, t, c) => BoolExpr::DlEq(*f, *t, *c),
            BoolExpr::DlGe(f, t, c) => BoolExpr::DlGe(*f, *t, *c),
            BoolExpr::DlGt(f, t, c) => BoolExpr::DlGt(*f, *t, *c),
        }
    }
}

impl ArithExpr {
    /// A copy with the same view.
    pub fn dup(&self) -> (r: ArithExpr)
        ensures
            r@ == self@,
        decreases self, 1int,
    {
        match self {
            ArithExpr::Const(c) => ArithExpr::Const(*c),
            ArithExpr::IntVar(v) => ArithExpr::IntVar(*v),
            ArithExpr::RealVar(v) => ArithExpr::RealVar(*v),
            ArithExpr::Add(v) => {
                let w = dup_ariths(v);
                proof {
                    lemma_ariths_model(w@);
                    lemma_ariths_model(v@);
                    assert(ariths_model(w@) =~= ariths_model(v@));
                }
                ArithExpr::Add(w)
            },
            ArithExpr::Mul(v) => {
                let w = dup_ariths(v);
                proof {
                    lemma_ariths_model(w@);
                    lemma_ariths_model(v@);
                    assert(ariths_model(w@) =~= ariths_model(v@));
                }
                ArithExpr::Mul(w)
            },
            ArithExpr::Div(a, b) => ArithExpr::Div(Box::new(a.dup()), Box::new(b.dup())),
            ArithExpr::Neg(a) => ArithExpr::Neg(Box::new(a.dup())),
        }
    }
}

impl EufExpr {
    /// A copy with the same view.
    pub fn dup(&self) -> (r: EufExpr)
        ensures
            r@ == self@,
        decreases self, 1int,
    {
        match self {
            EufExpr::Var(v) => EufExpr::Var(*v),
            EufExpr::App(f, v) => {
                let w = dup_exprs(v);
                proof {
                    lemma_exprs_model(w@);
                    lemma_exprs_model(v@);
                    assert(exprs_model(w@) =~= exprs_model(v@));
                }
                EufExpr::App(*f, w)
            },
        }
    }
}

impl Clone for Expr {
    fn clone(&self) -> (r: Expr)
        ensures
            r@ == self@,
    {
        self.dup()
    }
}

impl Clone for BoolExpr {
    fn clone(&self) -> (r: BoolExpr)
        ensures
            r@ == self@,
    {
        self.dup()
    }
}

impl Clone for ArithExpr {
    fn clone(&self) -> (r: ArithExpr)
        ensures
            r@ == self@,
    {
        self.dup()
    }
}

impl Clone for EufExpr {
    fn clone(&self) -> (r: EufExpr)
        ensures
            r@ == self@,
    {
        self.dup()
    }
}

/// Copies a vector of formulas element by element.
pub fn dup_bools(v: &Vec<BoolExpr>) -> (r: Vec<BoolExpr>)
    ensures
        r@.len() == v@.len(),
        forall|k: int| 0 <= k < v@.len() ==> (#[trigger] r@[k])@ == v@[k]@,
    decreases v, 0int,
{
    let mut out: Vec<BoolExpr> = Vec::new();
    let mut i: usize = 0;
    while i < v.len()
        invariant
            i <= v.len(),
            out.len() == i,
            forall|k: int| 0 <= k < i ==> (#[trigger] out@[k])@ == v@[k]@,
        decreases v.len() - i,
    {
        proof {
            vstd::std_specs::vec::axiom_vec_index_decreases(*v, i as int);
        }
        out.push(v[i].dup());
        i += 1;
    }
    out
}

/// Copies a vector of arithmetic expressions element by element.
pub fn dup_ariths(v: &Vec<ArithExpr>) -> (r: Vec<ArithExpr>)
    ensures
        r@.len() == v@.len(),
        forall|k: int| 0 <= k < v@.len() ==> (#[trigger] r@[k])@ == v@[k]@,
    decreases v, 0int,
{
    let mut out: Vec<ArithExpr> = Vec::new();
    let mut i: usize = 0;
    while i < v.len()
        invariant
            i <= v.len(),
            out.len() == i,
            forall|k: int| 0 <= k < i ==> (#[trigger] out@[k])@ == v@[k]@,
        decreases v.len() - i,
    {
        proof {
            vstd::std_specs::vec::axiom_vec_index_decreases(*v, i as int);
        }
        out.push(v[i].dup());
        i += 1;
    }
    out
}

/// Copies a vector of expressions element by element.
pub fn dup_exprs(v: &Vec<Expr>) -> (r: Vec<Expr>)
    ensures
        r@.len() == v@.len(),
        forall|k: int| 0 <= k < v@.len() ==> (#[trigger] r@[k])@ == v@[k]@,
    decreases v, 0int,
{
    let mut out: Vec<Expr> = Vec::new();
    let mut i: usize = 0;
    while i < v.len()
        invariant
            i <= v.len(),
            out.len() == i,
            forall|k: int| 0 <= k < i ==> (#[trigger] out@[k])@ == v@[k]@,
        decreases v.len() - i,
    {
        proof {
            vstd::std_specs::vec::axiom_vec_index_decreases(*v, i as int);
        }
        out.push(v[i].dup());
        i += 1;
    }
    out
}

/// An interpretation of the atoms of a formula. Comparisons are read through
/// two relations: `a >= b` means `!lt(a, b)` and `a > b` means `!le(a, b)`.
pub struct Interp {
    pub var: spec_fn(BoolVar) -> bool,
    pub lt: spec_fn(SArith, SArith) -> bool,
    pub le: spec_fn(SArith, SArith) -> bool,
    pub eq: spec_fn(SExpr, SExpr) -> bool,
    pub dl: spec_fn(SBool) -> bool,
}

/// The truth value of a formula under an interpretation.
pub open spec fn eval(e: SBool, m: Interp) -> bool
    decreases e,
{
    match e {
        SBool::True => true,
        SBool::False => false,
        SBool::Var(v) => (m.var)(v),
        SBool::Not(x) => !eval(*x, m),
        SBool::And(s) => eval_all(s, m),
        SBool::Or(s) => eval_any(s, m),
        SBool::Lt(a, b) => (m.lt)(a, b),
        SBool::Le(a, b) => (m.le)(a, b),
        SBool::Ge(a, b) => !(m.lt)(a, b),
        SBool::Gt(a, b) => !(m.le)(a, b),
        SBool::Eq(a, b) => (m.eq)(*a, *b),
        _ => (m.dl)(e),
    }
}

/// All formulas of `s` hold.
pub open spec fn eval_all(s: Seq<SBool>, m: Interp) -> bool
    decreases s,
{
    s.len() == 0 || (eval(s[0], m) && eval_all(s.drop_first(), m))
}

/// Some formula of `s` holds.
pub open spec fn eval_any(s: Seq<SBool>, m: Interp) -> bool
    decreases s,
{
    s.len() != 0 && (eval(s[0], m) || eval_any(s.drop_first(), m))
}

pub proof fn lemma_eval_all(s: Seq<SBool>, m: Interp)
    ensures
        eval_all(s, m) <==> forall|i: int| 0 <= i < s.len() ==> #[trigger] eval(s[i], m),
        eval_any(s, m) <==> exists|i: int| 0 <= i < s.len() && #[trigger] eval(s[i], m),
    decreases s.len(),
{
    if s.len() > 0 {
        let t = s.drop_first();
        lemma_eval_all(t, m);
        assert forall|i: int| 0 <= i < t.len() implies #[trigger] t[i] == s[i + 1] by {}
        if eval_all(s, m) {
            assert forall|i: int| 0 <= i < s.len() implies #[trigger] eval(s[i], m) by {
                if i > 0 {
                    assert(eval(t[i - 1], m));
                }
            }
        }
        if forall|i: int| 0 <= i < s.len() ==> #[trigger] eval(s[i], m) {
            assert(eval(s[0], m));
            assert forall|i: int| 0 <= i < t.len() implies #[trigger] eval(t[i], m) by {
                assert(eval(s[i + 1], m));
            }
        }
        if eval_any(s, m) {
            if !eval(s[0], m) {
                let i = choose|i: int| 0 <= i < t.len() && #[trigger] eval(t[i], m);
                assert(eval(s[i + 1], m));
            }
        }
        if exists|i: int| 0 <= i < s.len() && #[trigger] eval(s[i], m) {
            let i = choose|i: int| 0 <= i < s.len() && #[trigger] eval(s[i], m);
            if i > 0 {
                assert(eval(t[i - 1], m));
            }
        }
    }
}

/// Negations pushed down to the atoms (negation normal form).
pub open spec fn nnf(e: SBool) -> SBool
    decreases e,
{
    match e {
        SBool::Not(x) => nnf_neg(*x),
        SBool::And(s) => SBool::And(nnf_all(s)),
        SBool::Or(s) => SBool::Or(nnf_all(s)),
        _ => e,
    }
}

/// The negation normal form of `!e`.
pub open spec fn nnf_neg(e: SBool) -> SBool
    decreases e,
{
    match e {
        SBool::Not(x) => nnf(*x),
        SBool::And(s) => SBool::Or(nnf_neg_all(s)),
        SBool::Or(s) => SBool::And(nnf_neg_all(s)),
        SBool::Lt(a, b) => SBool::Ge(a, b),
        SBool::Le(a, b) => SBool::Gt(a, b),
        SBool::Ge(a, b) => SBool::Lt(a, b),
        SBool::Gt(a, b) => SBool::Le(a, b),
        _ => SBool::Not(Box::new(e)),
    }
}

pub open spec fn nnf_all(s: Seq<SBool>) -> Seq<SBool>
    decreases s,
{
    if s.len() == 0 {
        Seq::empty()
    } else {
        seq![nnf(s[0])] + nnf_all(s.drop_first())
    }
}

pub open spec fn nnf_neg_all(s: Seq<SBool>) -> Seq<SBool>
    decreases s,
{
    if s.len() == 0 {
        Seq::empty()
    } else {
        seq![nnf_neg(s[0])] + nnf_neg_all(s.drop_first())
    }
}

pub proof fn lemma_nnf_all(s: Seq<SBool>)
    ensures
        nnf_all(s).len() == s.len(),
        nnf_neg_all(s).len() == s.len(),
        forall|i: int| 0 <= i < s.len() ==> #[trigger] nnf_all(s)[i] == nnf(s[i]),
        forall|i: int| 0 <= i < s.len() ==> #[trigger] nnf_neg_all(s)[i] == nnf_neg(s[i]),
    decreases s.len(),
{
    if s.len() > 0 {
        lemma_nnf_all(s.drop_first());
    }
}

/// An atom: a formula with no connective and no comparison.
pub open spec fn is_atom(e: SBool) -> bool {
    !(e is Not || e is And || e is Or || e is Lt || e is Le || e is Ge || e is Gt)
}

/// Negation normal form: negations only stand directly above atoms.
pub open spec fn is_nnf(e: SBool) -> bool
    decreases e,
{
    match e {
        SBool::Not(x) => is_atom(*x),
        SBool::And(s) => all_nnf(s),
        SBool::Or(s) => all_nnf(s),
        _ => true,
    }
}

pub open spec fn all_nnf(s: Seq<SBool>) -> bool
    decreases s,
{
    s.len() == 0 || (is_nnf(s[0]) && all_nnf(s.drop_first()))
}

pub proof fn lemma_all_nnf(s: Seq<SBool>)
    ensures
        all_nnf(s) <==> forall|i: int| 0 <= i < s.len() ==> #[trigger] is_nnf(s[i]),
    decreases s.len(),
{
    if s.len() > 0 {
        let t = s.drop_first();
        lemma_all_nnf(t);
        assert forall|i: int| 0 <= i < t.len() implies #[trigger] t[i] == s[i + 1] by {}
        if forall|i: int| 0 <= i < s.len() ==> #[trigger] is_nnf(s[i]) {
            assert(is_nnf(s[0]));
            assert forall|i: int| 0 <= i < t.len() implies #[trigger] is_nnf(t[i]) by {
                assert(is_nnf(s[i + 1]));
            }
        }
        if all_nnf(s) {
            assert forall|i: int| 0 <= i < s.len() implies #[trigger] is_nnf(s[i]) by {
                if i > 0 {
                    assert(is_nnf(t[i - 1]));
                }
            }
        }
    }
}

/// Law: pushing negations keeps the meaning of a formula, and pushing the
/// negation of a formula gives its complement.
pub proof fn lemma_nnf_sound(e: SBool, m: Interp)
    ensures
        eval(nnf(e), m) == eval(e, m),
        eval(nnf_neg(e), m) == !eval(e, m),
    decreases e,
{
    match e {
        SBool::Not(x) => {
            lemma_nnf_sound(*x, m);
        },
        SBool::And(s) => {
            lemma_nnf_all_sound(s, m);
        },
        SBool::Or(s) => {
            lemma_nnf_all_sound(s, m);
        },
        _ => {},
    }
}

proof fn lemma_nnf_all_sound(s: Seq<SBool>, m: Interp)
    ensures
        eval_all(nnf_all(s), m) == eval_all(s, m),
        eval_any(nnf_all(s), m) == eval_any(s, m),
        eval_any(nnf_neg_all(s), m) == !eval_all(s, m),
        eval_all(nnf_neg_all(s), m) == !eval_any(s, m),
    decreases s,
{
    if s.len() > 0 {
        lemma_nnf_sound(s[0], m);
        lemma_nnf_all_sound(s.drop_first(), m);
        lemma_nnf_all(s);
        assert(nnf_all(s).drop_first() =~= nnf_all(s.drop_first()));
        assert(nnf_neg_all(s).drop_first() =~= nnf_neg_all(s.drop_first()));
    }
}

/// Law: the result of pushing negations is in negation normal form.
pub proof fn lemma_nnf_shape(e: SBool)
    ensures
        is_nnf(nnf(e)),
        is_nnf(nnf_neg(e)),
    decreases e,
{
    match e {
        SBool::Not(x) => {
            lemma_nnf_shape(*x);
        },
        SBool::And(s) => {
            lemma_nnf_all_shape(s);
        },
        SBool::Or(s) => {
            lemma_nnf_all_shape(s);
        },
        _ => {},
    }
}

proof fn lemma_nnf_all_shape(s: Seq<SBool>)
    ensures
        all_nnf(nnf_all(s)),
        all_nnf(nnf_neg_all(s)),
    decreases s,
{
    if s.len() > 0 {
        lemma_nnf_shape(s[0]);
        lemma_nnf_all_shape(s.drop_first());
        lemma_nnf_all(s);
        assert(nnf_all(s).drop_first() =~= nnf_all(s.drop_first()));
        assert(nnf_neg_all(s).drop_first() =~= nnf_neg_all(s.drop_first()));
    }
}

/// Pushes negations down to the atoms: `!!a` becomes `a`, De Morgan's laws
/// turn negated conjunctions and disjunctions around, and negated comparisons
/// become the complementary comparison. Negated equalities stay as they are.
pub fn push_negations(expr: &BoolExpr) -> (r: BoolExpr)
    ensures
        r@ == nnf(expr@),
    decreases expr, 1int,
{
    match expr {
        BoolExpr::Not(inner) => push_inverted(inner),
        BoolExpr::And(terms) => {
            let v = push_negations_all(terms);
            BoolExpr::And(v)
        },
        BoolExpr::Or(terms) => {
            let v = push_negations_all(terms);
            BoolExpr::Or(v)
        },
        _ => expr.dup(),
    }
}

/// The negation normal form of `!expr`.
pub fn push_inverted(expr: &BoolExpr) -> (r: BoolExpr)
    ensures
        r@ == nnf_neg(expr@),
    decreases expr, 1int,
{
    let res = match expr {
        BoolExpr::Not(inner) => push_negations(inner),
        BoolExpr::And(terms) => {
            let v = push_inverted_all(terms);
            BoolExpr::Or(v)
        },
        BoolExpr::Or(terms) => {
            let v = push_inverted_all(terms);
            BoolExpr::And(v)
        },
        BoolExpr::Lt(a, b) => BoolExpr::Ge(a.dup(), b.dup()),
        BoolExpr::Le(a, b) => BoolExpr::Gt(a.dup(), b.dup()),
        BoolExpr::Ge(a, b) => BoolExpr::Lt(a.dup(), b.dup()),
        BoolExpr::Gt(a, b) => BoolExpr::Le(a.dup(), b.dup()),
        BoolExpr::Eq(a, b) => {
            let x = BoolExpr::Eq(Box::new(a.dup()), Box::new(b.dup()));
            assert(x@ == expr@);
            BoolExpr::Not(Box::new(x))
        },
        _ => {
            let x = expr.dup();
            let res = BoolExpr::Not(Box::new(x));
            assert(res@ == nnf_neg(expr@));
            res
        },
    };
    res
}

fn push_negations_all(v: &Vec<BoolExpr>) -> (r: Vec<BoolExpr>)
    ensures
        bools_model(r@) == nnf_all(bools_model(v@)),
    decreases v, 0int,
{
    let mut out: Vec<BoolExpr> = Vec::new();
    let mut i: usize = 0;
    while i < v.len()
        invariant
            i <= v.len(),
            out.len() == i,
            forall|k: int| 0 <= k < i ==> (#[trigger] out@[k])@ == nnf(v@[k]@),
        decreases v.len() - i,
    {
        proof {
            vstd::std_specs::vec::axiom_vec_index_decreases(*v, i as int);
        }
        out.push(push_negations(&v[i]));
        i += 1;
    }
    proof {
        lemma_bools_model(out@);
        lemma_bools_model(v@);
        lemma_nnf_all(bools_model(v@));
        assert(bools_model(out@) =~= nnf_all(bools_model(v@)));
    }
    out
}

fn push_inverted_all(v: &Vec<BoolExpr>) -> (r: Vec<BoolExpr>)
    ensures
        bools_model(r@) == nnf_neg_all(bools_model(v@)),
    decreases v, 0int,
{
    let mut out: Vec<BoolExpr> = Vec::new();
    let mut i: usize = 0;
    while i < v.len()
        invariant
            i <= v.len(),
            out.len() == i,
            forall|k: int| 0 <= k < i ==> (#[trigger] out@[k])@ == nnf_neg(v@[k]@),
        decreases v.len() - i,
    {
        proof {
            vstd::std_specs::vec::axiom_vec_index_decreases(*v, i as int);
        }
        out.push(push_inverted(&v[i]));
        i += 1;
    }
    proof {
        lemma_bools_model(out@);
        lemma_bools_model(v@);
        lemma_nnf_all(bools_model(v@));
        assert(bools_model(out@) =~= nnf_neg_all(bools_model(v@)));
    }
    out
}

/// The items contributed by `e` when flattening a disjunction: the
/// disjuncts of a nested disjunction, or `e` itself.
pub open spec fn or_items(e: SBool) -> Seq<SBool> {
    match e {
        SBool::Or(inner) => inner,
        _ => seq![e],
    }
}

/// The items contributed by `e` when flattening a conjunction.
pub open spec fn and_items(e: SBool) -> Seq<SBool> {
    match e {
        SBool::And(inner) => inner,
        _ => seq![e],
    }
}

/// `s` with nested disjunctions spliced in place.
pub open spec fn flat_or(s: Seq<SBool>) -> Seq<SBool>
    decreases s.len(),
{
    if s.len() == 0 {
        Seq::empty()
    } else {
        flat_or(s.drop_last()) + or_items(s.last())
    }
}

/// `s` with nested conjunctions spliced in place.
pub open spec fn flat_and(s: Seq<SBool>) -> Seq<SBool>
    decreases s.len(),
{
    if s.len() == 0 {
        Seq::empty()
    } else {
        flat_and(s.drop_last()) + and_items(s.last())
    }
}

/// Every combination of `r` extended by every conjunct of `ts`, combination
/// by combination; a conjunct that is a disjunction contributes its
/// disjuncts, so that the combinations stay flat.
pub open spec fn product(r: Seq<Seq<SBool>>, ts: Seq<SBool>) -> Seq<Seq<SBool>>
    decreases r.len(),
{
    if r.len() == 0 {
        Seq::empty()
    } else {
        product(r.drop_last(), ts) + ts.map_values(|a: SBool| r.last() + or_items(a))
    }
}

/// One step of the cartesian product over the disjuncts.
pub open spec fn cart_step(r: Seq<Seq<SBool>>, t: SBool) -> Seq<Seq<SBool>> {
    match t {
        SBool::And(ts) => product(r, ts),
        _ => r.map_values(|c: Seq<SBool>| c.push(t)),
    }
}

/// The clauses obtained by distributing a disjunction over the conjunctions
/// among its disjuncts `d`.
pub open spec fn cart(d: Seq<SBool>) -> Seq<Seq<SBool>>
    decreases d.len(),
{
    if d.len() == 0 {
        seq![Seq::<SBool>::empty()]
    } else {
        cart_step(cart(d.drop_last()), d.last())
    }
}

/// Each combination as a disjunction.
pub open spec fn ors(c: Seq<Seq<SBool>>) -> Seq<SBool> {
    c.map_values(|x: Seq<SBool>| SBool::Or(x))
}

/// Disjunctions distributed over conjunctions, nested connectives of the
/// same kind flattened.
pub open spec fn dist(e: SBool) -> SBool
    decreases e,
{
    match e {
        SBool::Or(s) => {
            let c = cart(flat_or(dist_all(s)));
            if c.len() == 1 {
                SBool::Or(c[0])
            } else {
                SBool::And(ors(c))
            }
        },
        SBool::And(s) => SBool::And(flat_and(dist_all(s))),
        _ => e,
    }
}

pub open spec fn dist_all(s: Seq<SBool>) -> Seq<SBool>
    decreases s,
{
    if s.len() == 0 {
        Seq::empty()
    } else {
        dist_all(s.drop_last()).push(dist(s.last()))
    }
}

/// Conjunctive normal form of a formula: negations pushed down, then
/// disjunctions distributed over conjunctions.
pub open spec fn cnf(e: SBool) -> SBool {
    dist(nnf(e))
}

/// A literal: a formula in negation normal form that is neither a
/// conjunction nor a disjunction (an atom, a comparison or a negated atom).
pub open spec fn is_lit(e: SBool) -> bool {
    !(e is And) && !(e is Or) && is_nnf(e)
}

/// Every formula of `s` is a literal.
pub open spec fn all_lits(s: Seq<SBool>) -> bool {
    forall|i: int| 0 <= i < s.len() ==> #[trigger] is_lit(s[i])
}

/// A clause: a disjunction of literals, or a single literal.
pub open spec fn is_clause(e: SBool) -> bool {
    match e {
        SBool::Or(s) => all_lits(s),
        _ => is_lit(e),
    }
}

/// Conjunctive normal form: a conjunction of clauses, or a single clause.
pub open spec fn is_cnf(e: SBool) -> bool {
    match e {
        SBool::And(s) => forall|i: int| 0 <= i < s.len() ==> #[trigger] is_clause(s[i]),
        _ => is_clause(e),
    }
}

pub proof fn lemma_dist_all(s: Seq<SBool>)
    ensures
        dist_all(s).len() == s.len(),
        forall|i: int| 0 <= i < s.len() ==> #[trigger] dist_all(s)[i] == dist(s[i]),
    decreases s.len(),
{
    if s.len() > 0 {
        lemma_dist_all(s.drop_last());
    }
}

/// Truth of a concatenation and of an extended sequence.
pub proof fn lemma_eval_concat(a: Seq<SBool>, b: Seq<SBool>, m: Interp)
    ensures
        eval_all(a + b, m) == (eval_all(a, m) && eval_all(b, m)),
        eval_any(a + b, m) == (eval_any(a, m) || eval_any(b, m)),
{
    lemma_eval_all(a, m);
    lemma_eval_all(b, m);
    lemma_eval_all(a + b, m);
    let c = a + b;
    if eval_all(a, m) && eval_all(b, m) {
        assert forall|i: int| 0 <= i < c.len() implies #[trigger] eval(c[i], m) by {
            if i < a.len() {
                assert(c[i] == a[i]);
            } else {
                assert(c[i] == b[i - a.len()]);
            }
        }
    }
    if eval_all(c, m) {
        assert forall|i: int| 0 <= i < a.len() implies #[trigger] eval(a[i], m) by {
            assert(c[i] == a[i]);
        }
        assert forall|i: int| 0 <= i < b.len() implies #[trigger] eval(b[i], m) by {
            assert(c[i + a.len()] == b[i]);
        }
    }
    if eval_any(c, m) {
        let i = choose|i: int| 0 <= i < c.len() && #[trigger] eval(c[i], m);
        if i < a.len() {
            assert(c[i] == a[i]);
        } else {
            assert(c[i] == b[i - a.len()]);
        }
    }
    if eval_any(a, m) {
        let i = choose|i: int| 0 <= i < a.len() && #[trigger] eval(a[i], m);
        assert(c[i] == a[i]);
    }
    if eval_any(b, m) {
        let i = choose|i: int| 0 <= i < b.len() && #[trigger] eval(b[i], m);
        assert(c[i + a.len()] == b[i]);
    }
}

proof fn lemma_eval_single(t: SBool, m: Interp)
    ensures
        eval_all(seq![t], m) == eval(t, m),
        eval_any(seq![t], m) == eval(t, m),
{
    lemma_eval_all(seq![t], m);
    assert(seq![t][0] == t);
}

/// Flattening keeps the truth of conjunctions and disjunctions.
proof fn lemma_flat_sound(s: Seq<SBool>, m: Interp)
    ensures
        eval_any(flat_or(s), m) == eval_any(s, m),
        eval_all(flat_and(s), m) == eval_all(s, m),
    decreases s.len(),
{
    if s.len() > 0 {
        let s0 = s.drop_last();
        let t = s.last();
        lemma_flat_sound(s0, m);
        lemma_eval_concat(flat_or(s0), or_items(t), m);
        lemma_eval_concat(flat_and(s0), and_items(t), m);
        assert(s0.push(t) =~= s);
        lemma_eval_concat(s0, seq![t], m);
        lemma_eval_single(t, m);
        assert(s0 + seq![t] =~= s);
    }
}

/// The disjuncts contributed by `t` hold together exactly when `t` holds.
proof fn lemma_or_items_sound(t: SBool, m: Interp)
    ensures
        eval_any(or_items(t), m) == eval(t, m),
{
    match t {
        SBool::Or(_) => {},
        _ => lemma_eval_single(t, m),
    }
}

/// Truth of the disjunctions of a product of combinations.
proof fn lemma_product_sound(r: Seq<Seq<SBool>>, ts: Seq<SBool>, m: Interp)
    ensures
        eval_all(ors(product(r, ts)), m) == (eval_all(ors(r), m) || eval_all(ts, m)),
    decreases r.len(),
{
    if r.len() == 0 {
        lemma_eval_all(ors(r), m);
        lemma_eval_all(ors(product(r, ts)), m);
    } else {
        let r0 = r.drop_last();
        let c = r.last();
        lemma_product_sound(r0, ts, m);
        let y = ts.map_values(|a: SBool| c + or_items(a));
        assert(ors(product(r, ts)) =~= ors(product(r0, ts)) + ors(y));
        lemma_eval_concat(ors(product(r0, ts)), ors(y), m);
        assert(ors(r) =~= ors(r0) + seq![SBool::Or(c)]);
        lemma_eval_concat(ors(r0), seq![SBool::Or(c)], m);
        lemma_eval_single(SBool::Or(c), m);
        // eval_all(ors(y)) == eval_any(c) || eval_all(ts)
        lemma_eval_all(ors(y), m);
        lemma_eval_all(ts, m);
        assert forall|a: int| 0 <= a < ts.len() implies #[trigger] eval(ors(y)[a], m) == (eval_any(c, m) || eval(ts[a], m)) by {
            assert(ors(y)[a] == SBool::Or(c + or_items(ts[a])));
            lemma_eval_concat(c, or_items(ts[a]), m);
            lemma_or_items_sound(ts[a], m);
        }
        if !eval_all(ors(y), m) {
            let a = choose|a: int| 0 <= a < ors(y).len() && !#[trigger] eval(ors(y)[a], m);
        }
        if !eval_all(ts, m) && !eval_any(c, m) {
            let a = choose|a: int| 0 <= a < ts.len() && !#[trigger] eval(ts[a], m);
            assert(!eval(ors(y)[a], m));
        }
    }
}

/// Truth of the clauses of the cartesian product: they all hold exactly
/// when one of the disjuncts holds.
proof fn lemma_cart_sound(d: Seq<SBool>, m: Interp)
    ensures
        eval_all(ors(cart(d)), m) == eval_any(d, m),
    decreases d.len(),
{
    if d.len() == 0 {
        lemma_eval_all(ors(cart(d)), m);
        assert(ors(cart(d))[0] == SBool::Or(Seq::<SBool>::empty()));
        lemma_eval_all(Seq::<SBool>::empty(), m);
        lemma_eval_all(d, m);
    } else {
        let d0 = d.drop_last();
        let t = d.last();
        let r = cart(d0);
        lemma_cart_sound(d0, m);
        assert(d0 + seq![t] =~= d);
        lemma_eval_concat(d0, seq![t], m);
        lemma_eval_single(t, m);
        match t {
            SBool::And(ts) => {
                lemma_product_sound(r, ts, m);
            },
            _ => {
                let y = r.map_values(|c: Seq<SBool>| c.push(t));
                lemma_eval_all(ors(y), m);
                lemma_eval_all(ors(r), m);
                assert forall|k: int| 0 <= k < r.len() implies #[trigger] eval(ors(y)[k], m) == (eval(ors(r)[k], m) || eval(t, m)) by {
                    assert(ors(y)[k] == SBool::Or(r[k].push(t)));
                    assert(ors(r)[k] == SBool::Or(r[k]));
                    lemma_eval_concat(r[k], seq![t], m);
                    assert(r[k] + seq![t] =~= r[k].push(t));
                }
                if !eval_all(ors(y), m) {
                    let k = choose|k: int| 0 <= k < ors(y).len() && !#[trigger] eval(ors(y)[k], m);
                    assert(!eval(ors(r)[k], m));
                }
                if !eval_all(ors(r), m) && !eval(t, m) {
                    let k = choose|k: int| 0 <= k < ors(r).len() && !#[trigger] eval(ors(r)[k], m);
                    assert(!eval(ors(y)[k], m));
                }
            },
        }
    }
}

/// Law: distributing keeps the meaning of a formula.
pub proof fn lemma_dist_sound(e: SBool, m: Interp)
    ensures
        eval(dist(e), m) == eval(e, m),
    decreases e,
{
    match e {
        SBool::Or(s) => {
            lemma_dist_all_sound(s, m);
            let d = flat_or(dist_all(s));
            lemma_flat_sound(dist_all(s), m);
            lemma_cart_sound(d, m);
            let c = cart(d);
            if c.len() == 1 {
                lemma_eval_all(ors(c), m);
                assert(ors(c)[0] == SBool::Or(c[0]));
            }
        },
        SBool::And(s) => {
            lemma_dist_all_sound(s, m);
            lemma_flat_sound(dist_all(s), m);
        },
        _ => {},
    }
}

proof fn lemma_dist_all_sound(s: Seq<SBool>, m: Interp)
    ensures
        eval_all(dist_all(s), m) == eval_all(s, m),
        eval_any(dist_all(s), m) == eval_any(s, m),
    decreases s,
{
    lemma_dist_all(s);
    lemma_eval_all(s, m);
    lemma_eval_all(dist_all(s), m);
    assert forall|i: int| 0 <= i < s.len() implies #[trigger] eval(dist_all(s)[i], m) == eval(s[i], m) by {
        lemma_dist_sound(s[i], m);
    }
    if eval_any(s, m) {
        let i = choose|i: int| 0 <= i < s.len() && #[trigger] eval(s[i], m);
        assert(eval(dist_all(s)[i], m));
    }
    if eval_any(dist_all(s), m) {
        let i = choose|i: int| 0 <= i < dist_all(s).len() && #[trigger] eval(dist_all(s)[i], m);
        assert(eval(s[i], m));
    }
    if !eval_all(s, m) {
        let i = choose|i: int| 0 <= i < s.len() && !#[trigger] eval(s[i], m);
        assert(!eval(dist_all(s)[i], m));
    }
    if !eval_all(dist_all(s), m) {
        let i = choose|i: int| 0 <= i < dist_all(s).len() && !#[trigger] eval(dist_all(s)[i], m);
        assert(!eval(s[i], m));
    }
}

/// Law: the conjunctive normal form of a formula has the same meaning.
pub proof fn lemma_cnf_sound(e: SBool, m: Interp)
    ensures
        eval(cnf(e), m) == eval(e, m),
{
    lemma_nnf_sound(e, m);
    lemma_dist_sound(nnf(e), m);
}

proof fn lemma_flat_and_shape(s: Seq<SBool>)
    requires
        forall|i: int| 0 <= i < s.len() ==> #[trigger] is_cnf(s[i]),
    ensures
        forall|j: int| 0 <= j < flat_and(s).len() ==> #[trigger] is_clause(flat_and(s)[j]),
    decreases s.len(),
{
    if s.len() > 0 {
        let s0 = s.drop_last();
        let t = s.last();
        assert forall|i: int| 0 <= i < s0.len() implies #[trigger] is_cnf(s0[i]) by {
            assert(is_cnf(s[i]));
        }
        lemma_flat_and_shape(s0);
        assert(is_cnf(s[s.len() - 1]));
        let f0 = flat_and(s0);
        let it = and_items(t);
        assert forall|j: int| 0 <= j < (f0 + it).len() implies #[trigger] is_clause((f0 + it)[j]) by {
            if j < f0.len() {
                assert((f0 + it)[j] == f0[j]);
            } else {
                assert((f0 + it)[j] == it[j - f0.len()]);
            }
        }
    }
}

proof fn lemma_flat_or_shape(s: Seq<SBool>)
    requires
        forall|i: int| 0 <= i < s.len() ==> #[trigger] is_cnf(s[i]),
    ensures
        forall|j: int|
            0 <= j < flat_or(s).len() ==> #[trigger] is_cnf(flat_or(s)[j]) && !(flat_or(s)[j] is Or),
    decreases s.len(),
{
    if s.len() > 0 {
        let s0 = s.drop_last();
        let t = s.last();
        assert forall|i: int| 0 <= i < s0.len() implies #[trigger] is_cnf(s0[i]) by {
            assert(is_cnf(s[i]));
        }
        lemma_flat_or_shape(s0);
        assert(is_cnf(s[s.len() - 1]));
        let f0 = flat_or(s0);
        let it = or_items(t);
        assert forall|j: int| 0 <= j < (f0 + it).len() implies #[trigger] is_cnf((f0 + it)[j]) && !((f0
            + it)[j] is Or) by {
            if j < f0.len() {
                assert((f0 + it)[j] == f0[j]);
            } else {
                assert((f0 + it)[j] == it[j - f0.len()]);
                if let SBool::Or(inner) = t {
                    assert(is_lit(inner[j - f0.len()]));
                }
            }
        }
    }
}

proof fn lemma_product_shape(r: Seq<Seq<SBool>>, ts: Seq<SBool>)
    requires
        forall|k: int| 0 <= k < r.len() ==> all_lits(#[trigger] r[k]),
        forall|a: int| 0 <= a < ts.len() ==> #[trigger] is_clause(ts[a]),
    ensures
        forall|k: int| 0 <= k < product(r, ts).len() ==> all_lits(#[trigger] product(r, ts)[k]),
    decreases r.len(),
{
    if r.len() > 0 {
        let r0 = r.drop_last();
        let c = r.last();
        assert forall|k: int| 0 <= k < r0.len() implies all_lits(#[trigger] r0[k]) by {
            assert(r0[k] == r[k]);
        }
        lemma_product_shape(r0, ts);
        let p0 = product(r0, ts);
        let y = ts.map_values(|a: SBool| c + or_items(a));
        assert(all_lits(r[r.len() - 1]));
        assert forall|k: int| 0 <= k < (p0 + y).len() implies all_lits(#[trigger] (p0 + y)[k]) by {
            if k < p0.len() {
                assert((p0 + y)[k] == p0[k]);
            } else {
                let a = k - p0.len();
                let it = or_items(ts[a]);
                assert((p0 + y)[k] == c + it);
                assert(is_clause(ts[a]));
                assert(all_lits(it)) by {
                    if !(ts[a] is Or) {
                        assert(it[0] == ts[a]);
                    }
                }
                assert forall|i: int| 0 <= i < (c + it).len() implies #[trigger] is_lit((c + it)[i]) by {
                    if i < c.len() {
                        assert((c + it)[i] == c[i]);
                    } else {
                        assert((c + it)[i] == it[i - c.len()]);
                    }
                }
            }
        }
    }
}

proof fn lemma_cart_shape(d: Seq<SBool>)
    requires
        forall|i: int| 0 <= i < d.len() ==> #[trigger] is_cnf(d[i]) && !(d[i] is Or),
    ensures
        forall|k: int| 0 <= k < cart(d).len() ==> all_lits(#[trigger] cart(d)[k]),
    decreases d.len(),
{
    if d.len() == 0 {
        assert(all_lits(cart(d)[0]));
    } else {
        let d0 = d.drop_last();
        let t = d.last();
        assert forall|i: int| 0 <= i < d0.len() implies #[trigger] is_cnf(d0[i]) && !(d0[i] is Or) by {
            assert(is_cnf(d[i]));
        }
        lemma_cart_shape(d0);
        assert(is_cnf(d[d.len() - 1]) && !(d[d.len() - 1] is Or));
        let r = cart(d0);
        match t {
            SBool::And(ts) => {
                lemma_product_shape(r, ts);
            },
            _ => {
                assert(is_lit(t));
                assert forall|k: int| 0 <= k < cart(d).len() implies all_lits(#[trigger] cart(d)[k]) by {
                    assert(cart(d)[k] == r[k].push(t));
                    assert(all_lits(r[k]));
                    assert forall|i: int| 0 <= i < r[k].push(t).len() implies #[trigger] is_lit(r[k].push(t)[i]) by {
                        if i < r[k].len() {
                            assert(r[k].push(t)[i] == r[k][i]);
                        }
                    }
                }
            },
        }
    }
}

/// Law: distributing a formula in negation normal form gives conjunctive
/// normal form, with flat clauses of literals.
pub proof fn lemma_dist_shape(e: SBool)
    requires
        is_nnf(e),
    ensures
        is_cnf(dist(e)),
    decreases e,
{
    match e {
        SBool::Or(s) => {
            lemma_dist_all_shape(s);
            lemma_dist_all(s);
            let d = flat_or(dist_all(s));
            lemma_flat_or_shape(dist_all(s));
            lemma_cart_shape(d);
            let c = cart(d);
            if c.len() != 1 {
                assert forall|k: int| 0 <= k < ors(c).len() implies #[trigger] is_clause(ors(c)[k]) by {
                    assert(ors(c)[k] == SBool::Or(c[k]));
                    assert(all_lits(c[k]));
                }
                assert(dist(e) == SBool::And(ors(c)));
            } else {
                assert(all_lits(c[0]));
                assert(dist(e) == SBool::Or(c[0]));
            }
        },
        SBool::And(s) => {
            lemma_dist_all_shape(s);
            lemma_dist_all(s);
            lemma_flat_and_shape(dist_all(s));
        },
        _ => {
            assert(is_lit(e));
        },
    }
}

proof fn lemma_dist_all_shape(s: Seq<SBool>)
    requires
        all_nnf(s),
    ensures
        forall|i: int| 0 <= i < s.len() ==> #[trigger] is_cnf(dist_all(s)[i]),
    decreases s,
{
    lemma_dist_all(s);
    lemma_all_nnf(s);
    assert forall|i: int| 0 <= i < s.len() implies #[trigger] is_cnf(dist_all(s)[i]) by {
        lemma_dist_shape(s[i]);
    }
}

/// Law: [`to_cnf`] always produces conjunctive normal form.
pub proof fn lemma_cnf_shape(e: SBool)
    ensures
        is_cnf(cnf(e)),
{
    lemma_nnf_shape(e);
    lemma_dist_shape(nnf(e));
}

/// The views of a vector of formula vectors.
pub open spec fn combos_model(r: Seq<Vec<BoolExpr>>) -> Seq<Seq<SBool>> {
    r.map_values(|v: Vec<BoolExpr>| bools_model(v@))
}

proof fn lemma_bools_model_concat(a: Seq<BoolExpr>, b: Seq<BoolExpr>)
    ensures
        bools_model(a + b) == bools_model(a) + bools_model(b),
{
    lemma_bools_model(a);
    lemma_bools_model(b);
    lemma_bools_model(a + b);
    assert(bools_model(a + b) =~= bools_model(a) + bools_model(b));
}

proof fn lemma_bools_model_push(a: Seq<BoolExpr>, x: BoolExpr)
    ensures
        bools_model(a.push(x)) == bools_model(a).push(x@),
{
    lemma_bools_model(a);
    lemma_bools_model(a.push(x));
    assert(bools_model(a.push(x)) =~= bools_model(a).push(x@));
}

/// Distributes every term and splices nested disjunctions.
fn distribute_flatten_or(terms: &Vec<BoolExpr>) -> (r: Vec<BoolExpr>)
    ensures
        bools_model(r@) == flat_or(dist_all(bools_model(terms@))),
    decreases terms, 0int,
{
    let ghost bm = bools_model(terms@);
    proof {
        lemma_bools_model(terms@);
    }
    let mut out: Vec<BoolExpr> = Vec::new();
    let mut i: usize = 0;
    proof {
        assert(bm.take(0) =~= Seq::<SBool>::empty());
    }
    while i < terms.len()
        invariant
            i <= terms.len(),
            bm == bools_model(terms@),
            bm.len() == terms.len(),
            forall|k: int| 0 <= k < terms.len() ==> #[trigger] bm[k] == terms@[k]@,
            bools_model(out@) == flat_or(dist_all(bm.take(i as int))),
        decreases terms.len() - i,
    {
        proof {
            vstd::std_specs::vec::axiom_vec_index_decreases(*terms, i as int);
        }
        let d = distribute(&terms[i]);
        let ghost before = out@;
        let ghost dv = d@;
        match d {
            BoolExpr::Or(mut inner) => {
                let ghost iv = inner@;
                out.append(&mut inner);
                proof {
                    lemma_bools_model_concat(before, iv);
                    assert(or_items(dv) == bools_model(iv));
                }
            },
            other => {
                out.push(other);
                proof {
                    lemma_bools_model_push(before, other);
                    assert(or_items(dv) == seq![dv]);
                }
            },
        }
        proof {
            let t1 = bm.take(i + 1);
            assert(t1.drop_last() =~= bm.take(i as int));
            assert(t1.last() == bm[i as int]);
            assert(dist_all(t1) == dist_all(bm.take(i as int)).push(dist(bm[i as int])));
            assert(dist_all(t1).drop_last() =~= dist_all(bm.take(i as int)));
        }
        i += 1;
    }
    proof {
        assert(bm.take(terms.len() as int) =~= bm);
    }
    out
}

/// Distributes every term and splices nested conjunctions.
fn distribute_flatten_and(terms: &Vec<BoolExpr>) -> (r: Vec<BoolExpr>)
    ensures
        bools_model(r@) == flat_and(dist_all(bools_model(terms@))),
    decreases terms, 0int,
{
    let ghost bm = bools_model(terms@);
    proof {
        lemma_bools_model(terms@);
    }
    let mut out: Vec<BoolExpr> = Vec::new();
    let mut i: usize = 0;
    proof {
        assert(bm.take(0) =~= Seq::<SBool>::empty());
    }
    while i < terms.len()
        invariant
            i <= terms.len(),
            bm == bools_model(terms@),
            bm.len() == terms.len(),
            forall|k: int| 0 <= k < terms.len() ==> #[trigger] bm[k] == terms@[k]@,
            bools_model(out@) == flat_and(dist_all(bm.take(i as int))),
        decreases terms.len() - i,
    {
        proof {
            vstd::std_specs::vec::axiom_vec_index_decreases(*terms, i as int);
        }
        let d = distribute(&terms[i]);
        let ghost before = out@;
        let ghost dv = d@;
        match d {
            BoolExpr::And(mut inner) => {
                let ghost iv = inner@;
                out.append(&mut inner);
                proof {
                    lemma_bools_model_concat(before, iv);
                    assert(and_items(dv) == bools_model(iv));
                }
            },
            other => {
                out.push(other);
                proof {
                    lemma_bools_model_push(before, other);
                    assert(and_items(dv) == seq![dv]);
                }
            },
        }
        proof {
            let t1 = bm.take(i + 1);
            assert(t1.drop_last() =~= bm.take(i as int));
            assert(t1.last() == bm[i as int]);
            assert(dist_all(t1) == dist_all(bm.take(i as int)).push(dist(bm[i as int])));
            assert(dist_all(t1).drop_last() =~= dist_all(bm.take(i as int)));
        }
        i += 1;
    }
    proof {
        assert(bm.take(terms.len() as int) =~= bm);
    }
    out
}

/// `c` extended by `x`, as a fresh vector.
fn extended(c: &Vec<BoolExpr>, x: &BoolExpr) -> (r: Vec<BoolExpr>)
    ensures
        bools_model(r@) == bools_model(c@).push(x@),
{
    let mut combo = dup_bools(c);
    proof {
        lemma_bools_model(combo@);
        lemma_bools_model(c@);
        assert(bools_model(combo@) =~= bools_model(c@));
    }
    let y = x.dup();
    let ghost before = combo@;
    combo.push(y);
    proof {
        lemma_bools_model_push(before, y);
    }
    combo
}

/// `c` extended by the disjuncts of `x` (or by `x` itself when it is no
/// disjunction), as a fresh vector.
fn extended_clause(c: &Vec<BoolExpr>, x: &BoolExpr) -> (r: Vec<BoolExpr>)
    ensures
        bools_model(r@) == bools_model(c@) + or_items(x@),
{
    match x {
        BoolExpr::Or(inner) => {
            let mut combo = dup_bools(c);
            let mut tail = dup_bools(inner);
            proof {
                lemma_bools_model(combo@);
                lemma_bools_model(c@);
                assert(bools_model(combo@) =~= bools_model(c@));
                lemma_bools_model(tail@);
                lemma_bools_model(inner@);
                assert(bools_model(tail@) =~= bools_model(inner@));
            }
            let ghost before = combo@;
            let ghost tv = tail@;
            combo.append(&mut tail);
            proof {
                lemma_bools_model_concat(before, tv);
                assert(x@ == SBool::Or(bools_model(inner@)));
            }
            combo
        },
        _ => {
            let r = extended(c, x);
            proof {
                assert(or_items(x@) == seq![x@]);
                assert(bools_model(c@).push(x@) =~= bools_model(c@) + seq![x@]);
            }
            r
        },
    }
}

/// The cartesian product of the disjuncts `d` over the conjunctions among
/// them: every way of picking one conjunct of each conjunction, the other
/// disjuncts kept in every combination.
fn cartesian(d: &Vec<BoolExpr>) -> (r: Vec<Vec<BoolExpr>>)
    ensures
        combos_model(r@) == cart(bools_model(d@)),
{
    let ghost dm = bools_model(d@);
    proof {
        lemma_bools_model(d@);
    }
    let mut result: Vec<Vec<BoolExpr>> = Vec::new();
    result.push(Vec::new());
    let mut k: usize = 0;
    proof {
        assert(dm.take(0) =~= Seq::<SBool>::empty());
        lemma_bools_model(Seq::<BoolExpr>::empty());
        assert(combos_model(result@) =~= cart(dm.take(0)));
    }
    while k < d.len()
        invariant
            k <= d.len(),
            dm == bools_model(d@),
            dm.len() == d.len(),
            forall|j: int| 0 <= j < d.len() ==> #[trigger] dm[j] == d@[j]@,
            combos_model(result@) == cart(dm.take(k as int)),
        decreases d.len() - k,
    {
        let ghost rm = combos_model(result@);
        let mut next: Vec<Vec<BoolExpr>> = Vec::new();
        match &d[k] {
            BoolExpr::And(and_terms) => {
                let ghost ts = bools_model(and_terms@);
                proof {
                    lemma_bools_model(and_terms@);
                    assert(rm.take(0) =~= Seq::<Seq<SBool>>::empty());
                    assert(combos_model(next@) =~= product(rm.take(0), ts));
                }
                let mut e: usize = 0;
                while e < result.len()
                    invariant
                        e <= result.len(),
                        rm == combos_model(result@),
                        ts == bools_model(and_terms@),
                        ts.len() == and_terms.len(),
                        forall|j: int| 0 <= j < and_terms.len() ==> #[trigger] ts[j] == and_terms@[j]@,
                        combos_model(next@) == product(rm.take(e as int), ts),
                    decreases result.len() - e,
                {
                    let ghost base = combos_model(next@);
                    let ghost ce = rm[e as int];
                    let mut a: usize = 0;
                    proof {
                        assert(ts.take(0).map_values(|x: SBool| ce + or_items(x)) =~= Seq::<Seq<SBool>>::empty());
                        assert(base + Seq::<Seq<SBool>>::empty() =~= base);
                    }
                    while a < and_terms.len()
                        invariant
                            a <= and_terms.len(),
                            e < result.len(),
                            rm == combos_model(result@),
                            ce == rm[e as int],
                            ts == bools_model(and_terms@),
                            ts.len() == and_terms.len(),
                            forall|j: int| 0 <= j < and_terms.len() ==> #[trigger] ts[j] == and_terms@[j]@,
                            combos_model(next@) == base + ts.take(a as int).map_values(|x: SBool| ce + or_items(x)),
                        decreases and_terms.len() - a,
                    {
                        let combo = extended_clause(&result[e], &and_terms[a]);
                        let ghost before = next@;
                        next.push(combo);
                        proof {
                            assert(combos_model(next@) =~= combos_model(before).push(bools_model(combo@)));
                            assert(ts.take(a + 1).map_values(|x: SBool| ce + or_items(x)) =~= ts.take(a as int).map_values(|x: SBool| ce + or_items(x)).push(ce + or_items(ts[a as int])));
                            assert(combos_model(next@) =~= base + ts.take(a + 1).map_values(|x: SBool| ce + or_items(x)));
                        }
                        a += 1;
                    }
                    proof {
                        let r1 = rm.take(e + 1);
                        assert(r1.drop_last() =~= rm.take(e as int));
                        assert(r1.last() == ce);
                        assert(ts.take(and_terms.len() as int) =~= ts);
                        assert(product(r1, ts) == product(rm.take(e as int), ts) + ts.map_values(|x: SBool| r1.last() + or_items(x)));
                        assert(ts.map_values(|x: SBool| r1.last() + or_items(x)) =~= ts.map_values(|x: SBool| ce + or_items(x)));
                    }
                    e += 1;
                }
                proof {
                    assert(rm.take(result.len() as int) =~= rm);
                    assert(dm[k as int] == SBool::And(ts));
                }
            },
            other => {
                let ghost t = other@;
                proof {
                    assert(combos_model(next@) =~= rm.take(0).map_values(|c: Seq<SBool>| c.push(t)));
                }
                let mut e: usize = 0;
                while e < result.len()
                    invariant
                        e <= result.len(),
                        rm == combos_model(result@),
                        t == other@,
                        combos_model(next@) == rm.take(e as int).map_values(|c: Seq<SBool>| c.push(t)),
                    decreases result.len() - e,
                {
                    let combo = extended(&result[e], other);
                    let ghost before = next@;
                    next.push(combo);
                    proof {
                        assert(combos_model(next@) =~= combos_model(before).push(bools_model(combo@)));
                        assert(rm.take(e + 1).map_values(|c: Seq<SBool>| c.push(t)) =~= rm.take(e as int).map_values(|c: Seq<SBool>| c.push(t)).push(rm[e as int].push(t)));
                    }
                    e += 1;
                }
                proof {
                    assert(rm.take(result.len() as int) =~= rm);
                    assert(dm[k as int] == t);
                    assert(!(t is And));
                }
            },
        }
        proof {
            let t1 = dm.take(k + 1);
            assert(t1.drop_last() =~= dm.take(k as int));
            assert(t1.last() == dm[k as int]);
        }
        result = next;
        k += 1;
    }
    proof {
        assert(dm.take(d.len() as int) =~= dm);
    }
    result
}

/// Each combination as a disjunction.
fn or_nodes(combos: &Vec<Vec<BoolExpr>>) -> (r: Vec<BoolExpr>)
    ensures
        bools_model(r@) == ors(combos_model(combos@)),
{
    let mut out: Vec<BoolExpr> = Vec::new();
    let mut i: usize = 0;
    while i < combos.len()
        invariant
            i <= combos.len(),
            out.len() == i,
            forall|k: int| 0 <= k < i ==> (#[trigger] out@[k])@ == SBool::Or(bools_model(combos@[k]@)),
        decreases combos.len() - i,
    {
        let c = dup_bools(&combos[i]);
        proof {
            lemma_bools_model(c@);
            lemma_bools_model(combos@[i as int]@);
            assert(bools_model(c@) =~= bools_model(combos@[i as int]@));
        }
        out.push(BoolExpr::Or(c));
        i += 1;
    }
    proof {
        lemma_bools_model(out@);
        assert(bools_model(out@) =~= ors(combos_model(combos@)));
    }
    out
}

/// Distributes disjunctions over conjunctions and flattens nested
/// conjunctions and disjunctions, keeping the order of operands. A
/// disjunction yields a single clause or a conjunction of clauses.
pub fn distribute(expr: &BoolExpr) -> (r: BoolExpr)
    ensures
        r@ == dist(expr@),
    decreases expr, 1int,
{
    match expr {
        BoolExpr::Or(terms) => {
            let dts = distribute_flatten_or(terms);
            let combos = cartesian(&dts);
            let mut nodes = or_nodes(&combos);
            let ghost c = cart(flat_or(dist_all(bools_model(terms@))));
            proof {
                lemma_bools_model(nodes@);
                assert(expr@ == SBool::Or(bools_model(terms@)));
                assert(combos_model(combos@) == c);
                assert(bools_model(nodes@) == ors(c));
                assert(nodes@.len() == c.len());
            }
            if nodes.len() == 1 {
                let ghost nv = nodes@;
                let r = nodes.pop().unwrap();
                proof {
                    assert(r == nv[0]);
                    assert(bools_model(nv)[0] == nv[0]@);
                    assert(ors(c)[0] == SBool::Or(c[0]));
                }
                r
            } else {
                proof {
                    assert(BoolExpr::And(nodes)@ == SBool::And(bools_model(nodes@)));
                }
                BoolExpr::And(nodes)
            }
        },
        BoolExpr::And(terms) => {
            let dts = distribute_flatten_and(terms);
            proof {
                assert(expr@ == SBool::And(bools_model(terms@)));
                assert(BoolExpr::And(dts)@ == SBool::And(bools_model(dts@)));
            }
            BoolExpr::And(dts)
        },
        _ => expr.dup(),
    }
}

/// Converts a formula to conjunctive normal form: pushes negations down to
/// the atoms, then distributes disjunctions over conjunctions.
pub fn to_cnf(expr: &BoolExpr) -> (r: BoolExpr)
    ensures
        r@ == cnf(expr@),
{
    let n = push_negations(expr);
    distribute(&n)
}

/// The operands contributed by `e` to a sum: those of a nested sum, or `e`.
pub open spec fn add_items(e: SArith) -> Seq<SArith> {
    match e {
        SArith::Add(inner) => inner,
        _ => seq![e],
    }
}

/// The operands contributed by `e` to a product.
pub open spec fn mul_items(e: SArith) -> Seq<SArith> {
    match e {
        SArith::Mul(inner) => inner,
        _ => seq![e],
    }
}

/// Joins the operands of `l` and `r` into one vector, splicing those of a
/// nested connective (`is_and`: conjunctions, else disjunctions).
fn join_bools(l: BoolExpr, r: BoolExpr, is_and: bool) -> (v: Vec<BoolExpr>)
    ensures
        bools_model(v@) == (if is_and {
            and_items(l@) + and_items(r@)
        } else {
            or_items(l@) + or_items(r@)
        }),
{
    let ghost lv = l@;
    let ghost rv = r@;
    let mut left: Vec<BoolExpr> = match l {
        BoolExpr::And(xs) if is_and => xs,
        BoolExpr::Or(xs) if !is_and => xs,
        other => {
            let mut v = Vec::new();
            v.push(other);
            v
        },
    };
    let mut right: Vec<BoolExpr> = match r {
        BoolExpr::And(xs) if is_and => xs,
        BoolExpr::Or(xs) if !is_and => xs,
        other => {
            let mut v = Vec::new();
            v.push(other);
            v
        },
    };
    proof {
        lemma_bools_model(left@);
        lemma_bools_model(right@);
        if is_and {
            assert(bools_model(left@) =~= and_items(lv));
            assert(bools_model(right@) =~= and_items(rv));
        } else {
            assert(bools_model(left@) =~= or_items(lv));
            assert(bools_model(right@) =~= or_items(rv));
        }
    }
    let ghost lm = left@;
    let ghost rm = right@;
    left.append(&mut right);
    proof {
        assert(left@ == lm + rm);
        lemma_bools_model_concat(lm, rm);
    }
    left
}

/// Joins the operands of `l` and `r` into one vector, splicing those of a
/// nested sum (`is_add`) or product.
fn join_ariths(l: ArithExpr, r: ArithExpr, is_add: bool) -> (v: Vec<ArithExpr>)
    ensures
        ariths_model(v@) == (if is_add {
            add_items(l@) + add_items(r@)
        } else {
            mul_items(l@) + mul_items(r@)
        }),
{
    let ghost lv = l@;
    let ghost rv = r@;
    let mut left: Vec<ArithExpr> = match l {
        ArithExpr::Add(xs) if is_add => xs,
        ArithExpr::Mul(xs) if !is_add => xs,
        other => {
            let mut v = Vec::new();
            v.push(other);
            v
        },
    };
    let mut right: Vec<ArithExpr> = match r {
        ArithExpr::Add(xs) if is_add => xs,
        ArithExpr::Mul(xs) if !is_add => xs,
        other => {
            let mut v = Vec::new();
            v.push(other);
            v
        },
    };
    proof {
        lemma_ariths_model(left@);
        lemma_ariths_model(right@);
        if is_add {
            assert(ariths_model(left@) =~= add_items(lv));
            assert(ariths_model(right@) =~= add_items(rv));
        } else {
            assert(ariths_model(left@) =~= mul_items(lv));
            assert(ariths_model(right@) =~= mul_items(rv));
        }
    }
    let ghost lm = left@;
    let ghost rm = right@;
    left.append(&mut right);
    proof {
        assert(left@ == lm + rm);
        lemma_ariths_model(lm);
        lemma_ariths_model(rm);
        lemma_ariths_model(lm + rm);
        assert(ariths_model(lm + rm) =~= ariths_model(lm) + ariths_model(rm));
    }
    left
}

impl std::ops::Not for BoolExpr {
    type Output = BoolExpr;

    /// Negation.
    fn not(self) -> (r: BoolExpr)
        ensures
            r@ == SBool::Not(Box::new(self@)),
    {
        BoolExpr::Not(Box::new(self))
    }
}

impl vstd::std_specs::ops::NotSpecImpl for BoolExpr {
    open spec fn obeys_not_spec() -> bool {
        true
    }

    open spec fn not_req(self) -> bool {
        true
    }

    open spec fn not_spec(self) -> BoolExpr {
        BoolExpr::Not(Box::new(self))
    }
}

impl std::ops::BitAnd for BoolExpr {
    type Output = BoolExpr;

    /// Conjunction; nested conjunctions are flattened, operands keep their order.
    fn bitand(self, rhs: BoolExpr) -> (r: BoolExpr)
        ensures
            r@ == SBool::And(and_items(self@) + and_items(rhs@)),
    {
        BoolExpr::And(join_bools(self, rhs, true))
    }
}

impl vstd::std_specs::ops::BitAndSpecImpl for BoolExpr {
    open spec fn obeys_bitand_spec() -> bool {
        false
    }

    open spec fn bitand_req(self, rhs: BoolExpr) -> bool {
        true
    }

    /// A conjunction whose view is that of the operands' conjuncts, in order
    /// (the operator builds one; which vectors it allocates is left open).
    open spec fn bitand_spec(self, rhs: BoolExpr) -> BoolExpr {
        choose|r: BoolExpr| r@ == SBool::And(and_items(self@) + and_items(rhs@))
    }
}

impl std::ops::BitOr for BoolExpr {
    type Output = BoolExpr;

    /// Disjunction; nested disjunctions are flattened, operands keep their order.
    fn bitor(self, rhs: BoolExpr) -> (r: BoolExpr)
        ensures
            r@ == SBool::Or(or_items(self@) + or_items(rhs@)),
    {
        BoolExpr::Or(join_bools(self, rhs, false))
    }
}

impl vstd::std_specs::ops::BitOrSpecImpl for BoolExpr {
    open spec fn obeys_bitor_spec() -> bool {
        false
    }

    open spec fn bitor_req(self, rhs: BoolExpr) -> bool {
        true
    }

    /// A disjunction whose view is that of the operands' disjuncts, in order.
    open spec fn bitor_spec(self, rhs: BoolExpr) -> BoolExpr {
        choose|r: BoolExpr| r@ == SBool::Or(or_items(self@) + or_items(rhs@))
    }
}

impl std::ops::Add for ArithExpr {
    type Output = ArithExpr;

    /// Sum; nested sums are flattened, operands keep their order.
    fn add(self, rhs: ArithExpr) -> (r: ArithExpr)
        ensures
            r@ == SArith::Add(add_items(self@) + add_items(rhs@)),
    {
        ArithExpr::Add(join_ariths(self, rhs, true))
    }
}

impl vstd::std_specs::ops::AddSpecImpl for ArithExpr {
    open spec fn obeys_add_spec() -> bool {
        false
    }

    open spec fn add_req(self, rhs: ArithExpr) -> bool {
        true
    }

    /// A sum whose view is that of the operands' summands, in order.
    open spec fn add_spec(self, rhs: ArithExpr) -> ArithExpr {
        choose|r: ArithExpr| r@ == SArith::Add(add_items(self@) + add_items(rhs@))
    }
}

impl std::ops::Neg for ArithExpr {
    type Output = ArithExpr;

    /// Negation.
    fn neg(self) -> (r: ArithExpr)
        ensures
            r@ == SArith::Neg(Box::new(self@)),
    {
        ArithExpr::Neg(Box::new(self))
    }
}

impl vstd::std_specs::ops::NegSpecImpl for ArithExpr {
    open spec fn obeys_neg_spec() -> bool {
        true
    }

    open spec fn neg_req(self) -> bool {
        true
    }

    open spec fn neg_spec(self) -> ArithExpr {
        ArithExpr::Neg(Box::new(self))
    }
}

impl std::ops::Sub for ArithExpr {
    type Output = ArithExpr;

    /// Difference: the sum of `self` and the negation of `rhs`.
    fn sub(self, rhs: ArithExpr) -> (r: ArithExpr)
        ensures
            r@ == SArith::Add(add_items(self@) + seq![SArith::Neg(Box::new(rhs@))]),
    {
        let n = ArithExpr::Neg(Box::new(rhs));
        ArithExpr::Add(join_ariths(self, n, true))
    }
}

impl vstd::std_specs::ops::SubSpecImpl for ArithExpr {
    open spec fn obeys_sub_spec() -> bool {
        false
    }

    open spec fn sub_req(self, rhs: ArithExpr) -> bool {
        true
    }

    /// A sum whose view is that of the summands of `self` and the negation
    /// of `rhs`.
    open spec fn sub_spec(self, rhs: ArithExpr) -> ArithExpr {
        choose|r: ArithExpr| r@ == SArith::Add(add_items(self@) + seq![SArith::Neg(Box::new(rhs@))])
    }
}

impl std::ops::Mul for ArithExpr {
    type Output = ArithExpr;

    /// Product; nested products are flattened, operands keep their order.
    fn mul(self, rhs: ArithExpr) -> (r: ArithExpr)
        ensures
            r@ == SArith::Mul(mul_items(self@) + mul_items(rhs@)),
    {
        ArithExpr::Mul(join_ariths(self, rhs, false))
    }
}

impl vstd::std_specs::ops::MulSpecImpl for ArithExpr {
    open spec fn obeys_mul_spec() -> bool {
        false
    }

    open spec fn mul_req(self, rhs: ArithExpr) -> bool {
        true
    }

    /// A product whose view is that of the operands' factors, in order.
    open spec fn mul_spec(self, rhs: ArithExpr) -> ArithExpr {
        choose|r: ArithExpr| r@ == SArith::Mul(mul_items(self@) + mul_items(rhs@))
    }
}

impl std::ops::Div for ArithExpr {
    type Output = ArithExpr;

    /// Quotient.
    fn div(self, rhs: ArithExpr) -> (r: ArithExpr)
        ensures
            r@ == SArith::Div(Box::new(self@), Box::new(rhs@)),
    {
        ArithExpr::Div(Box::new(self), Box::new(rhs))
    }
}

impl vstd::std_specs::ops::DivSpecImpl for ArithExpr {
    open spec fn obeys_div_spec() -> bool {
        true
    }

    open spec fn div_req(self, rhs: ArithExpr) -> bool {
        true
    }

    open spec fn div_spec(self, rhs: ArithExpr) -> ArithExpr {
        ArithExpr::Div(Box::new(self), Box::new(rhs))
    }
}

impl From<bool> for BoolExpr {
    /// `true` or `false`.
    fn from(b: bool) -> (r: BoolExpr) {
        if b {
            BoolExpr::True
        } else {
            BoolExpr::False
        }
    }
}

impl vstd::std_specs::convert::FromSpecImpl<bool> for BoolExpr {
    open spec fn obeys_from_spec() -> bool {
        true
    }

    open spec fn from_spec(b: bool) -> BoolExpr {
        if b {
            BoolExpr::True
        } else {
            BoolExpr::False
        }
    }
}

impl From<bool> for Expr {
    /// The Boolean constant `b` as a typed expression.
    fn from(b: bool) -> (r: Expr) {
        Expr::Bool(
            if b {
                BoolExpr::True
            } else {
                BoolExpr::False
            },
        )
    }
}

impl vstd::std_specs::convert::FromSpecImpl<bool> for Expr {
    open spec fn obeys_from_spec() -> bool {
        true
    }

    open spec fn from_spec(b: bool) -> Expr {
        Expr::Bool(
            if b {
                BoolExpr::True
            } else {
                BoolExpr::False
            },
        )
    }
}

impl From<i32> for EnumExpr {
    /// The enum constant `n`.
    fn from(n: i32) -> (r: EnumExpr) {
        EnumExpr::Const(n)
    }
}

impl vstd::std_specs::convert::FromSpecImpl<i32> for EnumExpr {
    open spec fn obeys_from_spec() -> bool {
        true
    }

    open spec fn from_spec(n: i32) -> EnumExpr {
        EnumExpr::Const(n)
    }
}

impl From<i32> for ArithExpr {
    /// The integer constant `n`.
    fn from(n: i32) -> (r: ArithExpr) {
        ArithExpr::Const(Fraction::from_int(n))
    }
}

impl vstd::std_specs::convert::FromSpecImpl<i32> for ArithExpr {
    open spec fn obeys_from_spec() -> bool {
        true
    }

    open spec fn from_spec(n: i32) -> ArithExpr {
        ArithExpr::Const(Fraction::from_int_spec(n))
    }
}

impl Expr {
    /// The equality `self = other`.
    pub fn eq(self, other: Expr) -> (r: BoolExpr)
        ensures
            r@ == SBool::Eq(Box::new(self@), Box::new(other@)),
    {
        BoolExpr::Eq(Box::new(self), Box::new(other))
    }
}

impl BoolExpr {
    /// The equality `self = other` between two formulas.
    pub fn eq(&self, other: &BoolExpr) -> (r: BoolExpr)
        ensures
            r@ == SBool::Eq(Box::new(SExpr::Bool(self@)), Box::new(SExpr::Bool(other@))),
    {
        let a = Expr::Bool(self.dup());
        let b = Expr::Bool(other.dup());
        assert(a@ == SExpr::Bool(self@));
        assert(b@ == SExpr::Bool(other@));
        BoolExpr::Eq(Box::new(a), Box::new(b))
    }
}

impl EnumExpr {
    /// The equality `self = other` between two enum expressions.
    pub fn eq(&self, other: EnumExpr) -> (r: BoolExpr)
        ensures
            r@ == SBool::Eq(Box::new(SExpr::Enum(*self)), Box::new(SExpr::Enum(other))),
    {
        let a = Expr::Enum(*self);
        let b = Expr::Enum(other);
        assert(a@ == SExpr::Enum(*self));
        assert(b@ == SExpr::Enum(other));
        BoolExpr::Eq(Box::new(a), Box::new(b))
    }
}

impl ArithExpr {
    /// The constraint `self < other`.
    pub fn lt(&self, other: ArithExpr) -> (r: BoolExpr)
        ensures
            r@ == SBool::Lt(self@, other@),
    {
        BoolExpr::Lt(self.dup(), other)
    }

    /// The constraint `self <= other`.
    pub fn le(&self, other: ArithExpr) -> (r: BoolExpr)
        ensures
            r@ == SBool::Le(self@, other@),
    {
        BoolExpr::Le(self.dup(), other)
    }

    /// The constraint `self > other`.
    pub fn gt(&self, other: ArithExpr) -> (r: BoolExpr)
        ensures
            r@ == SBool::Gt(self@, other@),
    {
        BoolExpr::Gt(self.dup(), other)
    }

    /// The constraint `self >= other`.
    pub fn ge(&self, other: ArithExpr) -> (r: BoolExpr)
        ensures
            r@ == SBool::Ge(self@, other@),
    {
        BoolExpr::Ge(self.dup(), other)
    }

    /// The constraint `self = other`.
    pub fn eq(&self, other: ArithExpr) -> (r: BoolExpr)
        ensures
            r@ == SBool::Eq(Box::new(SExpr::Arith(self@)), Box::new(SExpr::Arith(other@))),
    {
        let ghost ov = other@;
        let a = Expr::Arith(self.dup());
        let b = Expr::Arith(other);
        assert(a@ == SExpr::Arith(self@));
        assert(b@ == SExpr::Arith(ov));
        BoolExpr::Eq(Box::new(a), Box::new(b))
    }
}

impl EufExpr {
    /// The equality `self = other` between two terms.
    pub fn eq(&self, other: EufExpr) -> (r: BoolExpr)
        ensures
            r@ == SBool::Eq(Box::new(SExpr::Euf(self@)), Box::new(SExpr::Euf(other@))),
    {
        let ghost ov = other@;
        let a = Expr::Euf(self.dup());
        let b = Expr::Euf(other);
        assert(a@ == SExpr::Euf(self@));
        assert(b@ == SExpr::Euf(ov));
        BoolExpr::Eq(Box::new(a), Box::new(b))
    }
}

/// The bound constraints of [`min`] and [`max`]: `cmp(z, a)` for each `a`,
/// then the disjunction of the equalities `z = a`.
pub open spec fn extremum(z: SArith, args: Seq<SArith>, is_min: bool) -> SBool {
    SBool::And(
        Seq::new(
            args.len(),
            |i: int|
                if is_min {
                    SBool::Le(z, args[i])
                } else {
                    SBool::Ge(z, args[i])
                },
        ).push(SBool::Or(Seq::new(args.len(), |i: int| SBool::Eq(Box::new(SExpr::Arith(z)), Box::new(SExpr::Arith(args[i])))))),
    )
}

fn extremum_exec(z: ArithExpr, args: Vec<ArithExpr>, is_min: bool) -> (r: BoolExpr)
    ensures
        r@ == extremum(z@, ariths_model(args@), is_min),
{
    let ghost am = ariths_model(args@);
    proof {
        lemma_ariths_model(args@);
    }
    let mut and_terms: Vec<BoolExpr> = Vec::new();
    let mut or_terms: Vec<BoolExpr> = Vec::new();
    let mut i: usize = 0;
    while i < args.len()
        invariant
            i <= args.len(),
            am == ariths_model(args@),
            am.len() == args.len(),
            forall|k: int| 0 <= k < args.len() ==> #[trigger] am[k] == args@[k]@,
            and_terms.len() == i,
            or_terms.len() == i,
            forall|k: int|
                0 <= k < i ==> (#[trigger] and_terms@[k])@ == (if is_min {
                    SBool::Le(z@, am[k])
                } else {
                    SBool::Ge(z@, am[k])
                }),
            forall|k: int|
                0 <= k < i ==> (#[trigger] or_terms@[k])@ == SBool::Eq(Box::new(SExpr::Arith(z@)), Box::new(SExpr::Arith(am[k]))),
        decreases args.len() - i,
    {
        let a = args[i].dup();
        let b = args[i].dup();
        if is_min {
            and_terms.push(BoolExpr::Le(z.dup(), a));
        } else {
            and_terms.push(BoolExpr::Ge(z.dup(), a));
        }
        let ea = Expr::Arith(z.dup());
        let eb = Expr::Arith(b);
        assert(ea@ == SExpr::Arith(z@));
        assert(eb@ == SExpr::Arith(am[i as int]));
        or_terms.push(BoolExpr::Eq(Box::new(ea), Box::new(eb)));
        i += 1;
    }
    let ghost and_before = and_terms@;
    and_terms.push(BoolExpr::Or(or_terms));
    proof {
        lemma_bools_model(or_terms@);
        lemma_bools_model(and_terms@);
        assert(bools_model(or_terms@) =~= Seq::new(am.len(), |k: int| SBool::Eq(Box::new(SExpr::Arith(z@)), Box::new(SExpr::Arith(am[k])))));
        assert(bools_model(and_terms@) =~= Seq::new(
            am.len(),
            |k: int|
                if is_min {
                    SBool::Le(z@, am[k])
                } else {
                    SBool::Ge(z@, am[k])
                },
        ).push(SBool::Or(Seq::new(am.len(), |k: int| SBool::Eq(Box::new(SExpr::Arith(z@)), Box::new(SExpr::Arith(am[k])))))));
    }
    BoolExpr::And(and_terms)
}

/// Constrains `z` to be the minimum of the non-empty `args`: `z <= a` for each
/// `a`, and `z = a` for one of them.
pub fn min(z: ArithExpr, args: Vec<ArithExpr>) -> (r: BoolExpr)
    requires
        args.len() > 0,
    ensures
        r@ == extremum(z@, ariths_model(args@), true),
{
    extremum_exec(z, args, true)
}

/// Constrains `z` to be the maximum of the non-empty `args`: `z >= a` for each
/// `a`, and `z = a` for one of them.
pub fn max(z: ArithExpr, args: Vec<ArithExpr>) -> (r: BoolExpr)
    requires
        args.len() > 0,
    ensures
        r@ == extremum(z@, ariths_model(args@), false),
{
    extremum_exec(z, args, false)
}

} // verus!
