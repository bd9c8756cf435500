//! The registry of proxy literals: each theory constraint that the SAT core
//! reasons about is represented by a literal.
use crate::lit::Lit;
use crate::rational::{IRatio, InfRational};
use vstd::prelude::*;

verus! {

/// A constraint of one of the theories.
#[derive(Clone, Copy, Debug, PartialEq, Eq, Hash)]
pub enum TheoryConstraint {
    /// A lower bound on a linear arithmetic variable.
    LraLb(usize, InfRational),
    /// An upper bound on a linear arithmetic variable.
    LraUb(usize, InfRational),
    /// An enum variable takes a value.
    EnumEq(usize, i32),
    /// `to - from <= bound` between two time points.
    DlLeq(usize, usize, InfRational),
    /// Two terms of an uninterpreted sort are equal.
    EufEq(usize, usize),
}

impl TheoryConstraint {
    /// The same constraint, bounds compared by value.
    pub open spec fn equiv(self, o: TheoryConstraint) -> bool {
        match (self, o) {
            (TheoryConstraint::LraLb(v, b), TheoryConstraint::LraLb(w, c)) => v == w && b@.eqv(c@) && c@.eqv(b@),
            (TheoryConstraint::LraUb(v, b), TheoryConstraint::LraUb(w, c)) => v == w && b@.eqv(c@) && c@.eqv(b@),
            (TheoryConstraint::EnumEq(v, a), TheoryConstraint::EnumEq(w, b)) => v == w && a == b,
            (TheoryConstraint::DlLeq(f, t, b), TheoryConstraint::DlLeq(g, u, c)) => f == g && t == u && b@.eqv(c@) && c@.eqv(b@),
            (TheoryConstraint::EufEq(a, b), TheoryConstraint::EufEq(c, d)) => a == c && b == d,
            _ => false,
        }
    }

    /// Whether both are the same constraint, bounds compared by value.
    pub fn same(&self, o: &TheoryConstraint) -> (r: bool)
        ensures
            r == self.equiv(*o),
    {
        match (self, o) {
            (TheoryConstraint::LraLb(v, b), TheoryConstraint::LraLb(w, c)) => *v == *w && b.eq_value(c) && c.eq_value(b),
            (TheoryConstraint::LraUb(v, b), TheoryConstraint::LraUb(w, c)) => *v == *w && b.eq_value(c) && c.eq_value(b),
            (TheoryConstraint::EnumEq(v, a), TheoryConstraint::EnumEq(w, b)) => *v == *w && *a == *b,
            (TheoryConstraint::DlLeq(f, t, b), TheoryConstraint::DlLeq(g, u, c)) => *f == *g && *t == *u && b.eq_value(c)
                && c.eq_value(b),
            (TheoryConstraint::EufEq(a, b), TheoryConstraint::EufEq(c, d)) => *a == *c && *b == *d,
            _ => false,
        }
    }
}

/// The most recent constraint registered for `lit` among `entries`.
pub open spec fn constraint_of(entries: Seq<(TheoryConstraint, Lit)>, lit: Lit) -> Option<TheoryConstraint>
    decreases entries.len(),
{
    if entries.len() == 0 {
        None
    } else if entries.last().1 == lit {
        Some(entries.last().0)
    } else {
        constraint_of(entries.drop_last(), lit)
    }
}

/// The literal of the most recent registration of a constraint equivalent to `c`.
pub open spec fn proxy_of(entries: Seq<(TheoryConstraint, Lit)>, c: TheoryConstraint) -> Option<Lit>
    decreases entries.len(),
{
    if entries.len() == 0 {
        None
    } else if entries.last().0.equiv(c) {
        Some(entries.last().1)
    } else {
        proxy_of(entries.drop_last(), c)
    }
}

/// Proxy literals and the constraints they stand for, in order of registration.
pub struct ProxyRegistry {
    entries: Vec<(TheoryConstraint, Lit)>,
}

impl View for ProxyRegistry {
    type V = Seq<(TheoryConstraint, Lit)>;

    closed spec fn view(&self) -> Seq<(TheoryConstraint, Lit)> {
        self.entries@
    }
}

impl ProxyRegistry {
    /// An empty registry.
    pub fn new() -> (r: ProxyRegistry)
        ensures
            r@ == Seq::<(TheoryConstraint, Lit)>::empty(),
    {
        ProxyRegistry { entries: Vec::new() }
    }

    /// The literal registered last for a constraint equivalent to `constraint`.
    pub fn get_proxy(&self, constraint: &TheoryConstraint) -> (r: Option<Lit>)
        ensures
            r == proxy_of(self@, *constraint),
    {
        let mut i: usize = self.entries.len();
        proof {
            assert(self.entries@.take(i as int) =~= self.entries@);
        }
        while i > 0
            invariant
                i <= self.entries@.len(),
                proxy_of(self.entries@, *constraint) == proxy_of(self.entries@.take(i as int), *constraint),
            decreases i,
        {
            let ghost t = self.entries@.take(i as int);
            proof {
                assert(t.drop_last() =~= self.entries@.take(i - 1));
                assert(t.last() == self.entries@[i - 1]);
            }
            if self.entries[i - 1].0.same(constraint) {
                return Some(self.entries[i - 1].1);
            }
            i -= 1;
        }
        None
    }

    /// The constraint registered last for `lit`.
    pub fn get_constraint(&self, lit: Lit) -> (r: Option<TheoryConstraint>)
        ensures
            r == constraint_of(self@, lit),
    {
        let mut i: usize = self.entries.len();
        proof {
            assert(self.entries@.take(i as int) =~= self.entries@);
        }
        while i > 0
            invariant
                i <= self.entries@.len(),
                constraint_of(self.entries@, lit) == constraint_of(self.entries@.take(i as int), lit),
            decreases i,
        {
            let ghost t = self.entries@.take(i as int);
            proof {
                assert(t.drop_last() =~= self.entries@.take(i - 1));
                assert(t.last() == self.entries@[i - 1]);
            }
            if self.entries[i - 1].1 == lit {
                return Some(self.entries[i - 1].0);
            }
            i -= 1;
        }
        None
    }

    /// Registers `lit` as the proxy of `constraint`.
    pub fn register(&mut self, constraint: TheoryConstraint, lit: Lit)
        ensures
            final(self)@ == old(self)@.push((constraint, lit)),
    {
        self.entries.push((constraint, lit));
    }
}

/// After registering, the constraint is found from its literal and the
/// literal from any constraint equivalent to it.
pub proof fn lemma_register_lookup(entries: Seq<(TheoryConstraint, Lit)>, c: TheoryConstraint, l: Lit, c2: TheoryConstraint)
    requires
        c.equiv(c2),
    ensures
        constraint_of(entries.push((c, l)), l) == Some(c),
        proxy_of(entries.push((c, l)), c2) == Some(l),
{
    assert(entries.push((c, l)).last() == (c, l));
}

} // verus!
