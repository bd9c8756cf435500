//! Literals: a Boolean variable, possibly negated.
use vstd::prelude::*;

verus! {

/// A Boolean variable `var` (when `sign` is false) or its negation (when
/// `sign` is true).
#[derive(Clone, Copy, Debug, PartialEq, Eq, Structural, PartialOrd, Ord, Hash)]
pub struct Lit {
    pub var: usize,
    pub sign: bool,
}

impl Lit {
    /// The literal of `var` with the given sign.
    pub fn new(var: usize, sign: bool) -> (r: Lit)
        ensures
            r == (Lit { var, sign }),
    {
        Lit { var, sign }
    }

    /// The variable of the literal.
    pub fn var(&self) -> (r: usize)
        ensures
            r == self.var,
    {
        self.var
    }

    /// Whether the literal is the negation of its variable.
    pub fn sign(&self) -> (r: bool)
        ensures
            r == self.sign,
    {
        self.sign
    }

    /// The literal with the opposite sign.
    pub fn negate(&self) -> (r: Lit)
        ensures
            r == self.negated(),
    {
        Lit { var: self.var, sign: !self.sign }
    }

    /// The literal with the opposite sign.
    pub open spec fn negated(self) -> Lit {
        Lit { var: self.var, sign: !self.sign }
    }

    /// Strict order of literals: by variable, then the positive literal first.
    pub open spec fn before(self, o: Lit) -> bool {
        self.var < o.var || (self.var == o.var && !self.sign && o.sign)
    }
}

impl std::ops::Not for Lit {
    type Output = Lit;

    fn not(self) -> (r: Lit)
        ensures
            r == self.negated(),
    {
        Lit { var: self.var, sign: !self.sign }
    }
}

impl vstd::std_specs::ops::NotSpecImpl for Lit {
    open spec fn obeys_not_spec() -> bool {
        true
    }

    open spec fn not_req(self) -> bool {
        true
    }

    open spec fn not_spec(self) -> Lit {
        self.negated()
    }
}

fn lit_before(a: &Lit, b: &Lit) -> (r: bool)
    ensures
        r == a.before(*b),
{
    a.var < b.var || (a.var == b.var && !a.sign && b.sign)
}

/// Sorts literals by [`Lit::before`] and drops repeated ones.
pub fn sort_dedup(lits: &mut Vec<Lit>)
    ensures
        forall|i: int, j: int| 0 <= i < j < final(lits)@.len() ==> final(lits)@[i].before(final(lits)@[j]),
        forall|l: Lit| final(lits)@.contains(l) <==> old(lits)@.contains(l),
{
    let mut out: Vec<Lit> = Vec::new();
    let mut i: usize = 0;
    while i < lits.len()
        invariant
            i <= lits.len(),
            forall|a: int, b: int| 0 <= a < b < out@.len() ==> out@[a].before(out@[b]),
            forall|l: Lit| out@.contains(l) <==> lits@.take(i as int).contains(l),
        decreases lits.len() - i,
    {
        let x = lits[i];
        let mut k: usize = 0;
        while k < out.len() && lit_before(&out[k], &x)
            invariant
                k <= out.len(),
                forall|a: int| 0 <= a < k ==> out@[a].before(x),
            decreases out.len() - k,
        {
            k += 1;
        }
        proof {
            let t0 = lits@.take(i as int);
            assert(lits@.take(i + 1) =~= t0.push(x));
            assert forall|l: Lit| t0.push(x).contains(l) <==> (t0.contains(l) || l == x) by {
                if t0.push(x).contains(l) {
                    let idx = choose|idx: int| 0 <= idx < t0.push(x).len() && t0.push(x)[idx] == l;
                    if idx < t0.len() {
                        assert(t0[idx] == l);
                    }
                }
                if t0.contains(l) {
                    let idx = choose|idx: int| 0 <= idx < t0.len() && t0[idx] == l;
                    assert(t0.push(x)[idx] == l);
                }
                if l == x {
                    assert(t0.push(x)[t0.len() as int] == x);
                }
            }
        }
        let ghost prev = out@;
        if k < out.len() && out[k] == x {
            proof {
                assert(out@[k as int] == x);
                assert(out@.contains(x));
                assert(out@ == prev);
                assert forall|l: Lit| out@.contains(l) <==> (prev.contains(l) || l == x) by {
                    if l == x {
                        assert(out@.contains(x));
                    }
                }
            }
        } else {
            let ghost before = out@;
            out.insert(k, x);
            proof {
                assert forall|a: int, b: int| 0 <= a < b < out@.len() implies out@[a].before(out@[b]) by {
                    if a < k && b == k {
                    } else if a < k && b > k {
                        assert(before[b - 1] == out@[b]);
                        assert(x.before(before[b - 1]) || x == before[b - 1]) by {
                            if k < before.len() {
                                assert(!before[k as int].before(x));
                                assert(before[k as int] != x);
                                if k < b - 1 {
                                    assert(before[k as int].before(before[b - 1]));
                                }
                            }
                        }
                    } else if a == k {
                        assert(before[b - 1] == out@[b]);
                        assert(!before[k as int].before(x));
                        assert(before[k as int] != x);
                        if k < b - 1 {
                            assert(before[k as int].before(before[b - 1]));
                        }
                    } else if a > k {
                        assert(before[a - 1] == out@[a]);
                        assert(before[b - 1] == out@[b]);
                    }
                }
                assert forall|l: Lit| out@.contains(l) <==> (before.contains(l) || l == x) by {
                    if out@.contains(l) {
                        let idx = choose|idx: int| 0 <= idx < out@.len() && out@[idx] == l;
                        if idx < k {
                            assert(before[idx] == l);
                        } else if idx > k {
                            assert(before[idx - 1] == l);
                        }
                    }
                    if before.contains(l) {
                        let idx = choose|idx: int| 0 <= idx < before.len() && before[idx] == l;
                        if idx < k {
                            assert(out@[idx] == l);
                        } else {
                            assert(out@[idx + 1] == l);
                        }
                    }
                    if l == x {
                        assert(out@[k as int] == x);
                    }
                }
            }
        }
        proof {
            assert(forall|l: Lit| out@.contains(l) <==> (prev.contains(l) || l == x));
            assert forall|l: Lit| out@.contains(l) <==> lits@.take(i + 1).contains(l) by {
                assert(lits@.take(i + 1) =~= lits@.take(i as int).push(x));
                assert(prev.contains(l) <==> lits@.take(i as int).contains(l));
            }
        }
        i += 1;
    }
    proof {
        assert(lits@.take(lits.len() as int) =~= lits@);
    }
    *lits = out;
}

} // verus!
